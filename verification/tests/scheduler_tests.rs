use oisy_trade::scheduler::{matching_interval, Dispatch, Scheduler, TaskType, Timestamp};

#[test]
fn should_keep_earliest_deadline_when_scheduled_twice_earlier_first() {
    let mut s = Scheduler::default();
    let early = Timestamp::new(100);
    let late = Timestamp::new(200);

    s.schedule_at(TaskType::ProcessPendingOrders, early);
    s.schedule_at(TaskType::ProcessPendingOrders, late);

    assert_eq!(s.next_deadline(), Some(early));
    assert_eq!(s.deadlines_len(), 1);
}

#[test]
fn should_keep_earliest_deadline_when_scheduled_twice_later_first() {
    let mut s = Scheduler::default();
    let early = Timestamp::new(100);
    let late = Timestamp::new(200);

    s.schedule_at(TaskType::ProcessPendingOrders, late);
    s.schedule_at(TaskType::ProcessPendingOrders, early);

    assert_eq!(s.next_deadline(), Some(early));
    assert_eq!(s.deadlines_len(), 1);
}

#[test]
fn should_pop_task_when_now_equals_deadline() {
    let mut s = Scheduler::default();
    let deadline = Timestamp::new(500);
    s.schedule_at(TaskType::ProcessPendingOrders, deadline);

    let popped = s.pop_if_ready(deadline);

    assert_eq!(popped, Some(TaskType::ProcessPendingOrders));
}

#[test]
fn should_not_pop_task_when_now_less_than_deadline() {
    let mut s = Scheduler::default();
    let deadline = Timestamp::new(500);
    s.schedule_at(TaskType::ProcessPendingOrders, deadline);

    let popped = s.pop_if_ready(Timestamp::new(499));

    assert_eq!(popped, None);
}

#[test]
fn should_remove_popped_entry_from_queue() {
    let mut s = Scheduler::default();
    s.schedule_at(TaskType::ProcessPendingOrders, Timestamp::new(100));

    s.pop_if_ready(Timestamp::new(100));

    assert_eq!(s.next_deadline(), None);
    assert_eq!(s.deadlines_len(), 0);
}

#[test]
fn should_return_none_when_queue_empty() {
    let mut s = Scheduler::default();

    assert_eq!(s.pop_if_ready(Timestamp::max_value()), None);
    assert_eq!(s.next_deadline(), None);
}

#[test]
fn should_saturate_timestamp_max_on_addition() {
    let near_max = Timestamp::new(u64::MAX - 1);
    let result = near_max.saturating_add(std::time::Duration::from_secs(u64::MAX));
    assert_eq!(result, Timestamp::max_value());
}

#[test]
fn schedule_at_returns_the_earliest_deadline() {
    let mut s = Scheduler::new();
    assert_eq!(s.schedule_at(TaskType::ProcessPendingOrders, Timestamp::new(300)), Timestamp::new(300));
    assert_eq!(s.schedule_at(TaskType::ProcessPendingOrders, Timestamp::new(200)), Timestamp::new(200));
    assert_eq!(s.schedule_at(TaskType::ProcessPendingOrders, Timestamp::new(400)), Timestamp::new(200));
}

#[test]
fn saturating_add_adds_the_duration_in_nanoseconds() {
    let t = Timestamp::new(1_000);
    assert_eq!(t.saturating_add(std::time::Duration::from_nanos(234)), Timestamp::new(1_234));
    assert_eq!(t.saturating_add(std::time::Duration::from_secs(1)).as_nanos(), 1_000_001_000);
}

#[test]
fn matching_runs_every_minute() {
    assert_eq!(TaskType::ProcessPendingOrders.interval(), Some(std::time::Duration::from_secs(60)));
    assert_eq!(matching_interval(), std::time::Duration::from_secs(60));
}

#[test]
fn dispatch_runs_the_due_task_and_sets_the_timer_to_its_next_heartbeat() {
    let now = Timestamp::new(1_000_000_000);
    let mut s = Scheduler::default();
    s.schedule_at(TaskType::ProcessPendingOrders, now);

    let d = s.dispatch(now);

    let heartbeat = now.saturating_add(matching_interval());
    assert_eq!(heartbeat, Timestamp::new(61_000_000_000));
    assert_eq!(d, Dispatch { task: Some(TaskType::ProcessPendingOrders), arm_timer_at: Some(heartbeat) });
    assert_eq!(s.next_deadline(), Some(heartbeat));
    assert_eq!(s.deadlines_len(), 1);
}

#[test]
fn dispatch_before_any_deadline_runs_nothing_and_rearms_the_timer() {
    let mut s = Scheduler::default();
    s.schedule_at(TaskType::ProcessPendingOrders, Timestamp::new(500));

    let d = s.dispatch(Timestamp::new(499));

    assert_eq!(d, Dispatch { task: None, arm_timer_at: Some(Timestamp::new(500)) });
    assert_eq!(s.next_deadline(), Some(Timestamp::new(500)));
}

#[test]
fn dispatch_on_an_empty_table_sets_no_timer() {
    let mut s = Scheduler::default();
    assert_eq!(s.dispatch(Timestamp::new(10)), Dispatch { task: None, arm_timer_at: None });
}

#[test]
fn heartbeat_saturates_at_the_latest_timestamp() {
    let mut s = Scheduler::default();
    let late = Timestamp::new(u64::MAX - 5);
    s.schedule_at(TaskType::ProcessPendingOrders, late);
    let d = s.dispatch(late);
    assert_eq!(d.arm_timer_at, Some(Timestamp::max_value()));
}
