use oisy_trade::execute::{Executor, RunAction, RunPhase};

/// Drive a run to its end, answering each step with the next observation
/// (instructions used, settling event pending); returns the actions asked for.
fn drive(max_orders: usize, budget: u64, pending: &Vec<usize>, obs: &[(u64, bool)]) -> Vec<RunAction> {
    let executor = Executor;
    let mut phase = executor.start(max_orders);
    let mut actions = Vec::new();
    for &(instructions, settling) in obs {
        let (next, action) = executor.step(phase, instructions, budget, settling, pending);
        actions.push(action);
        phase = next;
        if action == RunAction::Finish {
            break;
        }
    }
    actions
}

#[test]
fn run_settles_leftovers_before_matching() {
    let executor = Executor;
    let phase = executor.start(10);
    let (after, action) = executor.step(phase, 0, 100, true, &vec![3]);
    assert_eq!(action, RunAction::Settle);
    assert_eq!(after, phase);
}

#[test]
fn run_visits_books_in_ranking_order_within_the_order_budget() {
    let pending = vec![3, 2, 5];
    let actions = drive(4, 100, &pending, &[(0, false), (0, true), (0, false), (0, false)]);
    assert_eq!(
        actions,
        vec![
            RunAction::Match { book: 0, take: 3 },
            RunAction::Settle,
            RunAction::Match { book: 1, take: 1 },
            RunAction::Finish,
        ]
    );
}

#[test]
fn run_stops_once_the_instruction_budget_is_spent() {
    let pending = vec![3, 2];
    let actions = drive(10, 100, &pending, &[(10, false), (100, true)]);
    assert_eq!(actions, vec![RunAction::Match { book: 0, take: 3 }, RunAction::Finish]);
}

#[test]
fn spent_budget_before_matching_ends_the_run_at_once() {
    let executor = Executor;
    let (_, action) = executor.step(executor.start(10), 500, 100, true, &vec![1]);
    assert_eq!(action, RunAction::Finish);
}

#[test]
fn run_without_books_finishes_after_settling() {
    let actions = drive(10, 100, &vec![], &[(0, true), (0, false)]);
    assert_eq!(actions, vec![RunAction::Settle, RunAction::Finish]);
}

#[test]
fn match_moves_the_run_to_the_next_book() {
    let executor = Executor;
    let (after, _) = executor.step(RunPhase::Drain { next: 1, order_budget: 7 }, 0, 100, false, &vec![4, 2, 9]);
    assert_eq!(after, RunPhase::Drain { next: 2, order_budget: 5 });
}
