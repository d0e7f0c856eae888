//! Timestamps and the deadline table of the task scheduler.
use vstd::prelude::*;
use std::time::Duration;

verus! {

/// Nanoseconds since the Unix epoch.
#[derive(Debug, Clone, Copy, PartialEq, Eq, PartialOrd, Ord, Hash, Structural)]
pub struct Timestamp(u64);

/// The whole number of nanoseconds in a duration.
pub uninterp spec fn duration_nanos(d: Duration) -> nat;

/// `Duration::as_nanos`: the duration's length in nanoseconds, as its
/// documentation states; the contract names that number and says no more.
#[verifier::external_body]
fn duration_as_nanos(d: Duration) -> (r: u128)
    ensures
        r == duration_nanos(d),
{
    d.as_nanos()
}

/// `Duration::from_secs`: a duration of `secs` whole seconds, that is,
/// as its documentation states, `secs` times a billion nanoseconds.
#[verifier::external_body]
fn duration_from_secs(secs: u64) -> (d: Duration)
    ensures
        duration_nanos(d) == secs * 1_000_000_000,
{
    Duration::from_secs(secs)
}

/// How often the matching task runs: once a minute.
pub fn matching_interval() -> (d: Duration)
    ensures
        duration_nanos(d) == 60_000_000_000,
{
    duration_from_secs(60)
}

/// `now + delay` in nanoseconds, capped at the latest representable
/// timestamp.
pub open spec fn due_at(now: u64, delay: nat) -> u64 {
    if now + delay > u64::MAX { u64::MAX } else { (now + delay) as u64 }
}

impl View for Timestamp {
    type V = u64;

    closed spec fn view(&self) -> u64 {
        self.0
    }
}

impl Timestamp {
    /// Timestamps with the same value are the same timestamp.
    pub broadcast proof fn lemma_view_injective(a: Timestamp, b: Timestamp)
        ensures
            #[trigger] a@ == #[trigger] b@ ==> a == b,
    {
    }

    /// The timestamp `nanos` nanoseconds after the epoch.
    pub closed spec fn at(nanos: u64) -> Timestamp {
        Timestamp(nanos)
    }

    pub broadcast proof fn lemma_at(nanos: u64)
        ensures
            #[trigger] Timestamp::at(nanos)@ == nanos,
    {
    }

    pub fn new(nanos: u64) -> (t: Timestamp)
        ensures
            t@ == nanos,
    {
        Timestamp(nanos)
    }

    /// The latest representable timestamp.
    pub fn max_value() -> (t: Timestamp)
        ensures
            t@ == u64::MAX,
    {
        Timestamp(u64::MAX)
    }

    pub fn as_nanos(&self) -> (r: u64)
        ensures
            r == self@,
    {
        self.0
    }

    /// `self + nanos`, capped at the latest representable timestamp.
    pub fn saturating_add_nanos(self, nanos: u128) -> (t: Timestamp)
        ensures
            t@ == if self@ + nanos > u64::MAX { u64::MAX as int } else { self@ + nanos },
    {
        let max = u64::MAX as u128;
        if nanos > max - self.0 as u128 {
            Timestamp(u64::MAX)
        } else {
            Timestamp(self.0 + nanos as u64)
        }
    }

    /// `self + delay`, capped at the latest representable timestamp.
    pub fn saturating_add(self, delay: Duration) -> (t: Timestamp)
        ensures
            t@ == if self@ + duration_nanos(delay) > u64::MAX { u64::MAX as int } else { self@ + duration_nanos(delay) },
    {
        let nanos = duration_as_nanos(delay);
        self.saturating_add_nanos(nanos)
    }

    /// Whether `self` is strictly before `other`.
    pub fn lt(&self, other: &Timestamp) -> (r: bool)
        ensures
            r <==> self@ < other@,
    {
        self.0 < other.0
    }
}

/// The kinds of task the scheduler runs.
#[derive(Debug, Clone, Copy, PartialEq, Eq, PartialOrd, Ord, Hash, Structural)]
pub enum TaskType {
    ProcessPendingOrders,
}

/// The heartbeat of a task kind in nanoseconds: after each run the task is
/// scheduled again this long after it started. `None` for one-shot tasks.
pub open spec fn interval_nanos(t: TaskType) -> Option<nat> {
    match t {
        TaskType::ProcessPendingOrders => Some(60_000_000_000),
    }
}

impl TaskType {
    /// The task's heartbeat; `None` for one-shot tasks.
    pub fn interval(self) -> (r: Option<Duration>)
        ensures
            match interval_nanos(self) {
                Some(n) => r matches Some(d) && duration_nanos(d) == n,
                None => r is None,
            },
    {
        match self {
            TaskType::ProcessPendingOrders => Some(matching_interval()),
        }
    }
}

/// The position of a task kind in the scheduler's order.
pub open spec fn task_rank(t: TaskType) -> nat {
    match t {
        TaskType::ProcessPendingOrders => 0,
    }
}

fn rank(t: TaskType) -> (r: u8)
    ensures
        r == task_rank(t),
{
    match t {
        TaskType::ProcessPendingOrders => 0,
    }
}

/// The earliest deadline of a table, if any.
pub open spec fn min_deadline(s: Seq<(TaskType, Timestamp)>) -> Option<u64>
    decreases s.len(),
{
    if s.len() == 0 {
        None
    } else {
        match min_deadline(s.drop_last()) {
            None => Some(s.last().1@),
            Some(m) => Some(if s.last().1@ < m { s.last().1@ } else { m }),
        }
    }
}

/// Index of the first entry whose deadline is at most `now`, if any.
pub open spec fn first_ready(s: Seq<(TaskType, Timestamp)>, now: u64) -> Option<nat>
    decreases s.len(),
{
    if s.len() == 0 {
        None
    } else if s[0].1@ <= now {
        Some(0)
    } else {
        match first_ready(s.drop_first(), now) {
            Some(i) => Some(i + 1),
            None => None,
        }
    }
}

/// Index of the entry for `task`, if any.
pub open spec fn task_index(s: Seq<(TaskType, Timestamp)>, task: TaskType) -> Option<nat>
    decreases s.len(),
{
    if s.len() == 0 {
        None
    } else if s[0].0 == task {
        Some(0)
    } else {
        match task_index(s.drop_first(), task) {
            Some(i) => Some(i + 1),
            None => None,
        }
    }
}

/// Position at which a task of rank `r` goes so that ranks stay increasing.
pub open spec fn rank_pos(s: Seq<(TaskType, Timestamp)>, r: nat) -> nat
    decreases s.len(),
{
    if s.len() == 0 || r < task_rank(s[0].0) {
        0
    } else {
        1 + rank_pos(s.drop_first(), r)
    }
}

/// The deadline table after scheduling `task` at `at`: an existing
/// deadline is kept when it is earlier, otherwise `at` is entered.
pub open spec fn scheduled(s: Seq<(TaskType, Timestamp)>, task: TaskType, at: Timestamp) -> Seq<(TaskType, Timestamp)> {
    match task_index(s, task) {
        Some(i) => if at@ < s[i as int].1@ { s.update(i as int, (task, at)) } else { s },
        None => s.insert(rank_pos(s, task_rank(task)) as int, (task, at)),
    }
}

/// One deadline per task kind, held in task order.
#[derive(Debug)]
pub struct Scheduler {
    deadlines: Vec<(TaskType, Timestamp)>,
}

impl Scheduler {
    pub closed spec fn spec_deadlines(&self) -> Seq<(TaskType, Timestamp)> {
        self.deadlines@
    }

    /// Ranks strictly increase along the table.
    pub open spec fn wf(&self) -> bool {
        forall|i: int, j: int| 0 <= i < j < self.spec_deadlines().len() ==> task_rank(#[trigger] self.spec_deadlines()[i].0)
            < task_rank(#[trigger] self.spec_deadlines()[j].0)
    }

    pub fn new() -> (s: Scheduler)
        ensures
            s.wf(),
            s.spec_deadlines() == Seq::<(TaskType, Timestamp)>::empty(),
    {
        Scheduler { deadlines: Vec::new() }
    }

    /// Number of tasks with a deadline.
    pub fn deadlines_len(&self) -> (r: usize)
        ensures
            r == self.spec_deadlines().len(),
    {
        self.deadlines.len()
    }

    /// Schedule `task` at `execute_at`, keeping an earlier deadline it
    /// already has; returns the earliest deadline of all tasks.
    pub fn schedule_at(&mut self, task: TaskType, execute_at: Timestamp) -> (next: Timestamp)
        requires
            old(self).wf(),
        ensures
            final(self).wf(),
            final(self).spec_deadlines() == scheduled(old(self).spec_deadlines(), task, execute_at),
            min_deadline(final(self).spec_deadlines()) == Some(next@),
    {
        let ghost s0 = self.deadlines@;
        let mut i: usize = 0;
        while i < self.deadlines.len()
            invariant
                i <= self.deadlines@.len(),
                self.deadlines@ == s0,
                forall|j: int| 0 <= j < i ==> (#[trigger] self.deadlines@[j]).0 != task,
            ensures
                i <= self.deadlines@.len(),
                self.deadlines@ == s0,
                forall|j: int| 0 <= j < i ==> (#[trigger] self.deadlines@[j]).0 != task,
                i < self.deadlines@.len() ==> self.deadlines@[i as int].0 == task,
            decreases self.deadlines@.len() - i,
        {
            if self.deadlines[i].0 == task {
                break;
            }
            i = i + 1;
        }
        proof {
            lemma_task_index_scan(s0, task, i as int);
        }
        if i < self.deadlines.len() {
            let current = self.deadlines[i].1;
            if execute_at.lt(&current) {
                self.deadlines.set(i, (task, execute_at));
            }
            proof {
                assert(self.wf()) by {
                    assert forall|a: int, b: int| 0 <= a < b < self.spec_deadlines().len() implies task_rank(
                        #[trigger] self.spec_deadlines()[a].0,
                    ) < task_rank(#[trigger] self.spec_deadlines()[b].0) by {
                        assert(self.spec_deadlines()[a].0 == s0[a].0);
                        assert(self.spec_deadlines()[b].0 == s0[b].0);
                        assert(s0 == old(self).spec_deadlines());
                        assert(task_rank(old(self).spec_deadlines()[a].0) < task_rank(old(self).spec_deadlines()[b].0));
                    }
                }
            }
        } else {
            let r = rank(task);
            let mut p: usize = 0;
            while p < self.deadlines.len()
                invariant
                    p <= self.deadlines@.len(),
                    self.deadlines@ == s0,
                    r == task_rank(task),
                    forall|j: int| 0 <= j < p ==> task_rank((#[trigger] self.deadlines@[j]).0) <= r,
                ensures
                    p <= self.deadlines@.len(),
                    self.deadlines@ == s0,
                    forall|j: int| 0 <= j < p ==> task_rank((#[trigger] self.deadlines@[j]).0) <= r,
                    p < self.deadlines@.len() ==> r < task_rank(self.deadlines@[p as int].0),
                decreases self.deadlines@.len() - p,
            {
                if r < rank(self.deadlines[p].0) {
                    break;
                }
                p = p + 1;
            }
            proof {
                lemma_rank_pos_scan(s0, r as nat, p as int);
                assert forall|j: int| 0 <= j < p implies task_rank((#[trigger] s0[j]).0) < r by {
                    if task_rank(s0[j].0) == r {
                        assert(s0[j].0 == task);
                    }
                }
            }
            self.deadlines.insert(p, (task, execute_at));
            proof {
                let t = self.spec_deadlines();
                assert forall|a: int, b: int| 0 <= a < b < t.len() implies task_rank(#[trigger] t[a].0) < task_rank(
                    #[trigger] t[b].0,
                ) by {
                    if b < p {
                        assert(t[a] == s0[a] && t[b] == s0[b]);
                    } else if b == p {
                        assert(t[a] == s0[a]);
                    } else if a == p {
                        assert(t[b] == s0[b - 1]);
                    } else if a < p {
                        assert(t[a] == s0[a] && t[b] == s0[b - 1]);
                    } else {
                        assert(t[a] == s0[a - 1] && t[b] == s0[b - 1]);
                    }
                }
            }
        }
        let next = self.next_deadline();
        proof {
            lemma_min_deadline_some(self.spec_deadlines());
        }
        next.unwrap()
    }

    /// Take out the first task, in task order, whose deadline is at most `now`.
    pub fn pop_if_ready(&mut self, now: Timestamp) -> (r: Option<TaskType>)
        requires
            old(self).wf(),
        ensures
            final(self).wf(),
            match first_ready(old(self).spec_deadlines(), now@) {
                Some(i) => r == Some(old(self).spec_deadlines()[i as int].0) && final(self).spec_deadlines()
                    == old(self).spec_deadlines().remove(i as int),
                None => r is None && final(self).spec_deadlines() == old(self).spec_deadlines(),
            },
    {
        let ghost s0 = self.deadlines@;
        let mut i: usize = 0;
        while i < self.deadlines.len()
            invariant
                i <= self.deadlines@.len(),
                self.deadlines@ == s0,
                forall|j: int| 0 <= j < i ==> (#[trigger] self.deadlines@[j]).1@ > now@,
            ensures
                i <= self.deadlines@.len(),
                self.deadlines@ == s0,
                forall|j: int| 0 <= j < i ==> (#[trigger] self.deadlines@[j]).1@ > now@,
                i < self.deadlines@.len() ==> self.deadlines@[i as int].1@ <= now@,
            decreases self.deadlines@.len() - i,
        {
            if !now.lt(&self.deadlines[i].1) {
                break;
            }
            i = i + 1;
        }
        proof {
            lemma_first_ready_scan(s0, now@, i as int);
        }
        if i == self.deadlines.len() {
            return None;
        }
        let (task, _) = self.deadlines.remove(i);
        proof {
            let t = self.spec_deadlines();
            assert forall|a: int, b: int| 0 <= a < b < t.len() implies task_rank(#[trigger] t[a].0) < task_rank(
                #[trigger] t[b].0,
            ) by {
                assert(t[a] == s0[if a < i { a } else { a + 1 }]);
                assert(t[b] == s0[if b < i { b } else { b + 1 }]);
            }
        }
        Some(task)
    }

    /// The earliest deadline, if any task is scheduled.
    pub fn next_deadline(&self) -> (r: Option<Timestamp>)
        ensures
            match r {
                Some(t) => min_deadline(self.spec_deadlines()) == Some(t@),
                None => min_deadline(self.spec_deadlines()) is None,
            },
    {
        let mut best: Option<Timestamp> = None;
        let mut i: usize = 0;
        proof {
            assert(self.deadlines@.take(0) =~= Seq::<(TaskType, Timestamp)>::empty());
        }
        while i < self.deadlines.len()
            invariant
                i <= self.deadlines@.len(),
                match best {
                    Some(t) => min_deadline(self.deadlines@.take(i as int)) == Some(t@),
                    None => min_deadline(self.deadlines@.take(i as int)) is None,
                },
            decreases self.deadlines@.len() - i,
        {
            let d = self.deadlines[i].1;
            proof {
                assert(self.deadlines@.take(i + 1).drop_last() =~= self.deadlines@.take(i as int));
                assert(self.deadlines@.take(i + 1).last() == self.deadlines@[i as int]);
            }
            best = match best {
                None => Some(d),
                Some(b) => if d.lt(&b) { Some(d) } else { Some(b) },
            };
            i = i + 1;
        }
        proof {
            assert(self.deadlines@.take(i as int) =~= self.deadlines@);
        }
        best
    }
}

/// What one wake-up of the scheduler decided: the task to run now, if one
/// was due, and when to set the wake-up timer next, if at all.
#[derive(Debug, Clone, Copy, PartialEq, Eq, Structural)]
pub struct Dispatch {
    pub task: Option<TaskType>,
    pub arm_timer_at: Option<Timestamp>,
}

/// A deadline as a number, if there is one.
pub open spec fn deadline_value(t: Option<Timestamp>) -> Option<u64> {
    match t {
        Some(t) => Some(t@),
        None => None,
    }
}

impl Scheduler {
    /// One wake-up at time `now`. The first due task, in task order, is
    /// taken out to run; a task with a heartbeat is scheduled again one
    /// interval after `now`, and the timer is set to the earliest deadline
    /// then pending. With no task due, nothing changes and the timer is set
    /// again to the earliest deadline, if any.
    pub fn dispatch(&mut self, now: Timestamp) -> (r: Dispatch)
        requires
            old(self).wf(),
        ensures
            final(self).wf(),
            match first_ready(old(self).spec_deadlines(), now@) {
                Some(i) => {
                    let task = old(self).spec_deadlines()[i as int].0;
                    let rest = old(self).spec_deadlines().remove(i as int);
                    &&& r.task == Some(task)
                    &&& match interval_nanos(task) {
                        Some(n) => {
                            &&& final(self).spec_deadlines() == scheduled(rest, task, Timestamp::at(due_at(now@, n)))
                            &&& deadline_value(r.arm_timer_at) == min_deadline(final(self).spec_deadlines())
                            &&& r.arm_timer_at is Some
                        },
                        None => final(self).spec_deadlines() == rest && r.arm_timer_at is None,
                    }
                },
                None => {
                    &&& r.task is None
                    &&& final(self).spec_deadlines() == old(self).spec_deadlines()
                    &&& deadline_value(r.arm_timer_at) == min_deadline(old(self).spec_deadlines())
                },
            },
    {
        match self.pop_if_ready(now) {
            Some(task) => match task.interval() {
                Some(interval) => {
                    let due = now.saturating_add(interval);
                    proof {
                        assert(due == Timestamp::at(due_at(now@, interval_nanos(task).unwrap())));
                    }
                    let next = self.schedule_at(task, due);
                    Dispatch { task: Some(task), arm_timer_at: Some(next) }
                },
                None => Dispatch { task: Some(task), arm_timer_at: None },
            },
            None => Dispatch { task: None, arm_timer_at: self.next_deadline() },
        }
    }
}

impl Default for Scheduler {
    fn default() -> (s: Scheduler)
        ensures
            s.wf(),
            s.spec_deadlines() == Seq::<(TaskType, Timestamp)>::empty(),
    {
        Scheduler::new()
    }
}

proof fn lemma_min_deadline_some(s: Seq<(TaskType, Timestamp)>)
    ensures
        s.len() > 0 <==> min_deadline(s) is Some,
    decreases s.len(),
{
    if s.len() > 0 {
        lemma_min_deadline_some(s.drop_last());
    }
}

proof fn lemma_task_index_scan(s: Seq<(TaskType, Timestamp)>, task: TaskType, i: int)
    requires
        0 <= i <= s.len(),
        forall|j: int| 0 <= j < i ==> (#[trigger] s[j]).0 != task,
        i < s.len() ==> s[i].0 == task,
    ensures
        i < s.len() ==> task_index(s, task) == Some(i as nat),
        i == s.len() ==> task_index(s, task) is None,
    decreases i,
{
    if s.len() > 0 && i > 0 {
        assert forall|j: int| 0 <= j < i - 1 implies (#[trigger] s.drop_first()[j]).0 != task by {
            assert(s.drop_first()[j] == s[j + 1]);
        }
        lemma_task_index_scan(s.drop_first(), task, i - 1);
    }
}

proof fn lemma_first_ready_scan(s: Seq<(TaskType, Timestamp)>, now: u64, i: int)
    requires
        0 <= i <= s.len(),
        forall|j: int| 0 <= j < i ==> (#[trigger] s[j]).1@ > now,
        i < s.len() ==> s[i].1@ <= now,
    ensures
        i < s.len() ==> first_ready(s, now) == Some(i as nat),
        i == s.len() ==> first_ready(s, now) is None,
    decreases i,
{
    if s.len() > 0 && i > 0 {
        assert forall|j: int| 0 <= j < i - 1 implies (#[trigger] s.drop_first()[j]).1@ > now by {
            assert(s.drop_first()[j] == s[j + 1]);
        }
        lemma_first_ready_scan(s.drop_first(), now, i - 1);
    }
}

proof fn lemma_rank_pos_scan(s: Seq<(TaskType, Timestamp)>, r: nat, p: int)
    requires
        0 <= p <= s.len(),
        forall|j: int| 0 <= j < p ==> task_rank((#[trigger] s[j]).0) <= r,
        p < s.len() ==> r < task_rank(s[p].0),
    ensures
        rank_pos(s, r) == p,
    decreases p,
{
    if s.len() > 0 && p > 0 {
        assert forall|j: int| 0 <= j < p - 1 implies task_rank((#[trigger] s.drop_first()[j]).0) <= r by {
            assert(s.drop_first()[j] == s[j + 1]);
        }
        lemma_rank_pos_scan(s.drop_first(), r, p - 1);
    }
}

proof fn lemma_task_index_insert(s: Seq<(TaskType, Timestamp)>, p: int, x: (TaskType, Timestamp))
    requires
        0 <= p <= s.len(),
        task_index(s, x.0) is None,
    ensures
        task_index(s.insert(p, x), x.0) == Some(p as nat),
    decreases s.len(),
{
    if p > 0 {
        assert(s.insert(p, x).drop_first() =~= s.drop_first().insert(p - 1, x));
        lemma_task_index_insert(s.drop_first(), p - 1, x);
    }
}

proof fn lemma_task_index_update(s: Seq<(TaskType, Timestamp)>, i: nat, x: (TaskType, Timestamp))
    requires
        task_index(s, x.0) == Some(i),
    ensures
        task_index(s.update(i as int, x), x.0) == Some(i),
    decreases s.len(),
{
    if i > 0 {
        match task_index(s.drop_first(), x.0) {
            Some(j) => {
                assert(s.update(i as int, x).drop_first() =~= s.drop_first().update(j as int, x));
                lemma_task_index_update(s.drop_first(), j, x);
            },
            None => {},
        }
    }
}

proof fn lemma_rank_pos_bound(s: Seq<(TaskType, Timestamp)>, r: nat)
    ensures
        rank_pos(s, r) <= s.len(),
    decreases s.len(),
{
    if s.len() > 0 {
        lemma_rank_pos_bound(s.drop_first(), r);
    }
}

/// A task just scheduled has a deadline in the table: scheduling never
/// loses a task, so a task with a heartbeat that is run and scheduled again
/// stays pending.
pub proof fn lemma_scheduled_task_is_pending(s: Seq<(TaskType, Timestamp)>, task: TaskType, at: Timestamp)
    ensures
        task_index(scheduled(s, task, at), task) is Some,
{
    match task_index(s, task) {
        Some(i) => {
            if at@ < s[i as int].1@ {
                lemma_task_index_update(s, i, (task, at));
            }
        },
        None => {
            lemma_rank_pos_bound(s, task_rank(task));
            lemma_task_index_insert(s, rank_pos(s, task_rank(task)) as int, (task, at));
        },
    }
}

/// Scheduling a task twice keeps the earlier of the two deadlines.
pub proof fn lemma_schedule_twice_keeps_earliest(task: TaskType, a: Timestamp, b: Timestamp)
    ensures
        ({
            let s = scheduled(scheduled(Seq::empty(), task, a), task, b);
            &&& s.len() == 1
            &&& s[0].0 == task
            &&& s[0].1@ == if b@ < a@ { b@ } else { a@ }
        }),
{
    let s1 = scheduled(Seq::empty(), task, a);
    assert(s1 =~= seq![(task, a)]);
    assert(task_index(s1, task) == Some(0nat));
}

} // verus!
