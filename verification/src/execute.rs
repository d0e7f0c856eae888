//! Decisions of the chunked matching driver: whether work remains, which
//! books go first, and how a chunk's order budget is shared among them.
use vstd::prelude::*;
use crate::ids::OrderBookId;

verus! {

broadcast use OrderBookId::lemma_view_injective;

/// Whether a run of the driver left work behind.
#[derive(Debug, Clone, Copy, PartialEq, Eq, Structural)]
pub enum ExecutionStatus {
    Complete,
    MoreWork,
    /// Another run holds the matching guard.
    AlreadyRunning,
}

impl ExecutionStatus {
    /// `MoreWork` while orders wait to be matched or matches wait to be settled.
    pub fn from_pending(has_pending_orders: bool, has_pending_settling_events: bool) -> (r: ExecutionStatus)
        ensures
            r == if has_pending_orders || has_pending_settling_events {
                ExecutionStatus::MoreWork
            } else {
                ExecutionStatus::Complete
            },
    {
        if has_pending_orders || has_pending_settling_events {
            ExecutionStatus::MoreWork
        } else {
            ExecutionStatus::Complete
        }
    }
}

/// `a` goes before `b`: more pending orders first, then the lower book id.
pub open spec fn ranks_before(a: (OrderBookId, usize), b: (OrderBookId, usize)) -> bool {
    a.1 > b.1 || (a.1 == b.1 && a.0@ < b.0@)
}

/// Strictly ordered by [`ranks_before`].
pub open spec fn ranked(s: Seq<(OrderBookId, usize)>) -> bool {
    forall|i: int, j: int| 0 <= i < j < s.len() ==> ranks_before(#[trigger] s[i], #[trigger] s[j])
}

/// No book id occurs twice.
pub open spec fn distinct_ids(s: Seq<(OrderBookId, usize)>) -> bool {
    forall|i: int, j: int| 0 <= i < j < s.len() ==> (#[trigger] s[i]).0 != (#[trigger] s[j]).0
}

proof fn lemma_insert_contains<A>(s: Seq<A>, p: int, a: A)
    requires
        0 <= p <= s.len(),
    ensures
        forall|x: A| #[trigger] s.insert(p, a).contains(x) <==> (s.contains(x) || x == a),
{
    let t = s.insert(p, a);
    assert forall|x: A| #[trigger] t.contains(x) <==> (s.contains(x) || x == a) by {
        if t.contains(x) {
            let k = choose|k: int| 0 <= k < t.len() && t[k] == x;
            if k < p {
                assert(s[k] == x);
            } else if k > p {
                assert(s[k - 1] == x);
            }
        }
        if s.contains(x) {
            let k = choose|k: int| 0 <= k < s.len() && s[k] == x;
            if k < p {
                assert(t[k] == x);
            } else {
                assert(t[k + 1] == x);
            }
        }
        if x == a {
            assert(t[p] == x);
        }
    }
}

/// The books with pending orders, most pending orders first and ties by
/// ascending book id, each with its count.
pub fn books_by_pending_order_count_desc(counts: &Vec<(OrderBookId, usize)>) -> (r: Vec<(OrderBookId, usize)>)
    requires
        distinct_ids(counts@),
    ensures
        ranked(r@),
        forall|x: (OrderBookId, usize)| #[trigger] r@.contains(x) <==> (counts@.contains(x) && x.1 > 0),
{
    let mut out: Vec<(OrderBookId, usize)> = Vec::new();
    let mut i: usize = 0;
    proof {
        assert(counts@.take(0) =~= Seq::<(OrderBookId, usize)>::empty());
    }
    while i < counts.len()
        invariant
            i <= counts@.len(),
            distinct_ids(counts@),
            ranked(out@),
            forall|x: (OrderBookId, usize)| #[trigger] out@.contains(x) <==> (counts@.take(i as int).contains(x) && x.1 > 0),
        decreases counts@.len() - i,
    {
        let e = counts[i];
        proof {
            assert(counts@.take(i + 1) =~= counts@.take(i as int).push(e));
            assert forall|x: (OrderBookId, usize)| #[trigger] counts@.take(i + 1).contains(x) <==> (counts@.take(i as int).contains(x) || x == e) by {
                let t = counts@.take(i as int);
                if t.push(e).contains(x) {
                    let k = choose|k: int| 0 <= k < t.push(e).len() && t.push(e)[k] == x;
                    if k < t.len() {
                        assert(t[k] == x);
                    }
                }
                if t.contains(x) {
                    let k = choose|k: int| 0 <= k < t.len() && t[k] == x;
                    assert(t.push(e)[k] == x);
                }
                if x == e {
                    assert(t.push(e)[t.len() as int] == x);
                }
            }
        }
        if e.1 > 0 {
            let ghost o0 = out@;
            let mut p: usize = 0;
            while p < out.len()
                invariant
                    p <= out@.len(),
                    out@ == o0,
                    forall|k: int| 0 <= k < p ==> ranks_before(#[trigger] out@[k], e),
                ensures
                    p <= out@.len(),
                    out@ == o0,
                    forall|k: int| 0 <= k < p ==> ranks_before(#[trigger] out@[k], e),
                    p < out@.len() ==> !ranks_before(out@[p as int], e),
                decreases out@.len() - p,
            {
                let o = out[p];
                let before = o.1 > e.1 || (o.1 == e.1 && o.0.get() < e.0.get());
                if !before {
                    break;
                }
                p = p + 1;
            }
            proof {
                if p < o0.len() {
                    // the entry at p is an earlier book, so its id differs
                    assert(o0.contains(o0[p as int]));
                    let y = o0[p as int];
                    assert(counts@.take(i as int).contains(y));
                    let k = choose|k: int| 0 <= k < counts@.take(i as int).len() && counts@.take(i as int)[k] == y;
                    assert(counts@[k] == y);
                    assert(y.0 != e.0);
                    assert(ranks_before(e, y));
                }
                lemma_insert_contains(o0, p as int, e);
            }
            out.insert(p, e);
            proof {
                let t = out@;
                assert forall|a: int, b: int| 0 <= a < b < t.len() implies ranks_before(#[trigger] t[a], #[trigger] t[b]) by {
                    if b < p {
                        assert(t[a] == o0[a] && t[b] == o0[b]);
                    } else if b == p {
                        assert(t[a] == o0[a]);
                    } else if a == p {
                        assert(t[b] == o0[b - 1]);
                        if b - 1 > p {
                            assert(ranks_before(o0[p as int], o0[b - 1]));
                        }
                    } else if a < p {
                        assert(t[a] == o0[a] && t[b] == o0[b - 1]);
                    } else {
                        assert(t[a] == o0[a - 1] && t[b] == o0[b - 1]);
                    }
                }
            }
        }
        i = i + 1;
    }
    proof {
        assert(counts@.take(i as int) =~= counts@);
    }
    out
}

/// How a chunk's order budget is shared among books in turn: each takes as
/// many of its pending orders as the budget still allows.
pub open spec fn shares(pending: Seq<usize>, budget: nat) -> Seq<nat>
    decreases pending.len(),
{
    if pending.len() == 0 {
        Seq::empty()
    } else {
        let t = if pending[0] < budget { pending[0] as nat } else { budget };
        seq![t] + shares(pending.drop_first(), (budget - t) as nat)
    }
}

/// The number of pending orders each book takes from a chunk of `budget` orders.
pub fn chunk_sizes(pending: &Vec<usize>, budget: usize) -> (r: Vec<usize>)
    ensures
        r@.len() == pending@.len(),
        forall|k: int| 0 <= k < r@.len() ==> (#[trigger] r@[k]) as nat == shares(pending@, budget as nat)[k],
{
    let mut out: Vec<usize> = Vec::new();
    let mut rem = budget;
    let mut i: usize = 0;
    proof {
        assert(pending@.skip(0) =~= pending@);
        lemma_shares_len(pending@, budget as nat);
    }
    while i < pending.len()
        invariant
            i <= pending@.len(),
            out@.len() == i,
            shares(pending@, budget as nat) == out@.map_values(|x: usize| x as nat) + shares(pending@.skip(i as int), rem as nat),
        decreases pending@.len() - i,
    {
        let t = if pending[i] < rem { pending[i] } else { rem };
        proof {
            let s = pending@.skip(i as int);
            assert(s[0] == pending@[i as int]);
            assert(s.drop_first() =~= pending@.skip(i + 1));
            assert(out@.push(t).map_values(|x: usize| x as nat) =~= out@.map_values(|x: usize| x as nat).push(t as nat));
            assert(shares(s, rem as nat) == seq![t as nat] + shares(pending@.skip(i + 1), (rem - t) as nat));
            assert(out@.map_values(|x: usize| x as nat) + (seq![t as nat] + shares(pending@.skip(i + 1), (rem - t) as nat))
                =~= out@.map_values(|x: usize| x as nat).push(t as nat) + shares(pending@.skip(i + 1), (rem - t) as nat));
        }
        out.push(t);
        rem = rem - t;
        i = i + 1;
    }
    proof {
        assert(pending@.skip(i as int) =~= Seq::<usize>::empty());
        assert(shares(pending@.skip(i as int), rem as nat) =~= Seq::<nat>::empty());
        assert(shares(pending@, budget as nat) =~= out@.map_values(|x: usize| x as nat));
        assert forall|k: int| 0 <= k < out@.len() implies (#[trigger] out@[k]) as nat == shares(pending@, budget as nat)[k] by {
            assert(out@.map_values(|x: usize| x as nat)[k] == out@[k] as nat);
        }
    }
    out
}

proof fn lemma_shares_len(pending: Seq<usize>, budget: nat)
    ensures
        shares(pending, budget).len() == pending.len(),
    decreases pending.len(),
{
    if pending.len() > 0 {
        let t = if pending[0] < budget { pending[0] as nat } else { budget };
        lemma_shares_len(pending.drop_first(), (budget - t) as nat);
    }
}

/// The shares of a chunk never exceed the budget in total, nor any book's pending orders.
pub proof fn lemma_shares_within_budget(pending: Seq<usize>, budget: nat)
    ensures
        shares(pending, budget).len() == pending.len(),
        forall|k: int| 0 <= k < pending.len() ==> #[trigger] shares(pending, budget)[k] <= pending[k],
        shares_total(shares(pending, budget)) <= budget,
    decreases pending.len(),
{
    lemma_shares_len(pending, budget);
    if pending.len() > 0 {
        let t = if pending[0] < budget { pending[0] as nat } else { budget };
        let rest = shares(pending.drop_first(), (budget - t) as nat);
        lemma_shares_within_budget(pending.drop_first(), (budget - t) as nat);
        let s = shares(pending, budget);
        assert(s == seq![t] + rest);
        assert forall|k: int| 0 <= k < pending.len() implies #[trigger] shares(pending, budget)[k] <= pending[k] by {
            if k > 0 {
                assert(s[k] == rest[k - 1]);
                assert(pending.drop_first()[k - 1] == pending[k]);
            }
        }
        lemma_shares_total_prepend(t, rest);
    }
}

/// Sum of a list of shares.
pub open spec fn shares_total(s: Seq<nat>) -> nat
    decreases s.len(),
{
    if s.len() == 0 {
        0
    } else {
        s[0] + shares_total(s.drop_first())
    }
}

proof fn lemma_shares_total_prepend(t: nat, s: Seq<nat>)
    ensures
        shares_total(seq![t] + s) == t + shares_total(s),
{
    assert((seq![t] + s).drop_first() =~= s);
}

/// The chunked matching driver. A run first settles what an earlier run
/// left over, then visits the books with pending orders in ranking order,
/// matching as many of each book's orders as the run's order budget still
/// allows and settling what a match produced before visiting the next book.
/// The run ends once the books or the order budget are used up, or as soon
/// as the instruction budget is spent. The driver decides; its host does the
/// settling and matching it asks for and reports back.
#[derive(Debug, Clone, Copy, PartialEq, Eq, Structural)]
pub struct Executor;

/// Where a run of the driver stands.
#[derive(Debug, Clone, Copy, PartialEq, Eq, Structural)]
pub enum RunPhase {
    /// Settling leftovers; the first book is visited afterwards.
    Predrain { order_budget: usize },
    /// Settling what a match produced; book `next` of the ranking is
    /// visited afterwards.
    Drain { next: usize, order_budget: usize },
}

/// The work a run asks its host for next.
#[derive(Debug, Clone, Copy, PartialEq, Eq, Structural)]
pub enum RunAction {
    /// Process the next pending settling event.
    Settle,
    /// Match the first `take` pending orders of book `book` of the ranking.
    Match { book: usize, take: usize },
    /// The run is over.
    Finish,
}

/// The order budget a run still has.
pub open spec fn phase_budget(p: RunPhase) -> nat {
    match p {
        RunPhase::Predrain { order_budget } => order_budget as nat,
        RunPhase::Drain { order_budget, .. } => order_budget as nat,
    }
}

/// The book a run visits once it is done settling.
pub open spec fn phase_next(p: RunPhase) -> int {
    match p {
        RunPhase::Predrain { .. } => 0,
        RunPhase::Drain { next, .. } => next as int,
    }
}

/// Visiting book `next` with `budget` orders left, given the pending counts
/// of the ranked books: match what the budget allows, or end the run.
pub open spec fn visit(next: int, budget: nat, exhausted: bool, pending: Seq<usize>) -> (RunPhase, RunAction) {
    if next >= pending.len() || budget == 0 || exhausted {
        (RunPhase::Drain { next: next as usize, order_budget: budget as usize }, RunAction::Finish)
    } else {
        let take: nat = if pending[next] < budget { pending[next] as nat } else { budget };
        (
            RunPhase::Drain { next: (next + 1) as usize, order_budget: (budget - take) as usize },
            RunAction::Match { book: next as usize, take: take as usize },
        )
    }
}

/// One decision of a run in phase `p`: keep settling while a settling event
/// is pending and the instruction budget lasts, else visit the next book.
pub open spec fn run_step(p: RunPhase, exhausted: bool, settling_pending: bool, pending: Seq<usize>) -> (RunPhase, RunAction) {
    if !exhausted && settling_pending {
        (p, RunAction::Settle)
    } else {
        visit(phase_next(p), phase_budget(p), exhausted, pending)
    }
}

/// The orders a run matches over a sequence of observations, each whether
/// the instruction budget is spent and whether a settling event is pending,
/// up to its end.
pub open spec fn run_matched(p: RunPhase, obs: Seq<(bool, bool)>, pending: Seq<usize>) -> nat
    decreases obs.len(),
{
    if obs.len() == 0 {
        0
    } else {
        let (q, a) = run_step(p, obs[0].0, obs[0].1, pending);
        match a {
            RunAction::Finish => 0,
            RunAction::Settle => run_matched(q, obs.drop_first(), pending),
            RunAction::Match { take, .. } => take as nat + run_matched(q, obs.drop_first(), pending),
        }
    }
}

impl Executor {
    /// A run with `max_orders_per_chunk` orders to match at most.
    pub fn start(&self, max_orders_per_chunk: usize) -> (p: RunPhase)
        ensures
            p == (RunPhase::Predrain { order_budget: max_orders_per_chunk }),
    {
        RunPhase::Predrain { order_budget: max_orders_per_chunk }
    }

    /// The next piece of work of a run in phase `p`, and the phase after it.
    /// `instructions` is what the run has used so far of its
    /// `instruction_budget`; `settling_pending` whether a settling event
    /// waits; `pending` the pending-order counts of the books in ranking
    /// order, every one of them positive.
    pub fn step(
        &self,
        p: RunPhase,
        instructions: u64,
        instruction_budget: u64,
        settling_pending: bool,
        pending: &Vec<usize>,
    ) -> (r: (RunPhase, RunAction))
        requires
            forall|k: int| 0 <= k < pending@.len() ==> #[trigger] pending@[k] > 0,
        ensures
            r == run_step(p, instructions >= instruction_budget, settling_pending, pending@),
            r.1 matches RunAction::Match { book, take } ==> {
                &&& book == phase_next(p) && book < pending@.len()
                &&& 1 <= take <= pending@[book as int]
                &&& phase_budget(r.0) + take == phase_budget(p)
                &&& phase_next(r.0) == book + 1
            },
    {
        let exhausted = instructions >= instruction_budget;
        if !exhausted && settling_pending {
            return (p, RunAction::Settle);
        }
        let (next, budget) = match p {
            RunPhase::Predrain { order_budget } => (0usize, order_budget),
            RunPhase::Drain { next, order_budget } => (next, order_budget),
        };
        if next >= pending.len() || budget == 0 || exhausted {
            (RunPhase::Drain { next, order_budget: budget }, RunAction::Finish)
        } else {
            let take = if pending[next] < budget { pending[next] } else { budget };
            (RunPhase::Drain { next: next + 1, order_budget: budget - take }, RunAction::Match { book: next, take })
        }
    }
}

/// A run never matches more orders than its order budget, whatever the
/// instruction counter and the settling queue report along the way.
pub proof fn lemma_run_within_budget(p: RunPhase, obs: Seq<(bool, bool)>, pending: Seq<usize>)
    ensures
        run_matched(p, obs, pending) <= phase_budget(p),
    decreases obs.len(),
{
    if obs.len() > 0 {
        let (q, a) = run_step(p, obs[0].0, obs[0].1, pending);
        lemma_run_within_budget(q, obs.drop_first(), pending);
    }
}

} // verus!
