//! Everything a matching round changes, computed at once: the balance
//! operations, the per-order updates and the fill events of the settling
//! event.
use vstd::prelude::*;
use crate::assoc::{lemma_lookup_absent, lemma_lookup_at, lemma_lookup_insert, lemma_lookup_update, lookup, unique_keys};
use crate::book::{Fill, MatchingOutput, RemovedOrder};
use crate::fees::FeeRates;
use crate::ids::{FillSeq, FillSeqMarker, OrderSeq, Sequence};
use crate::order::{OrderStatus, Side};
use crate::quantity::{pow2_256, Quantity};
use crate::records::OrderUpdate;
use candid::Principal;
use crate::settlement::{
    fee_values, fill_operations, fill_settles, released, settles_exactly, surplus_value, BalanceOperation, FillEvent,
    FillSettlement, RemovedOrderSettlement,
};

verus! {

broadcast use {
    Quantity::lemma_view_injective,
    Quantity::lemma_bound,
    Quantity::lemma_from_value,
    OrderSeq::lemma_view_injective,
    crate::ids::Sequence::lemma_view_injective,
    crate::ids::Sequence::lemma_spec_new,
};

/// Per-order updates, one entry per order, in ascending order sequence.
pub open spec fn seq_sorted(s: Seq<(OrderSeq, OrderUpdate)>) -> bool {
    forall|i: int, j: int| 0 <= i < j < s.len() ==> (#[trigger] s[i]).0@ < (#[trigger] s[j]).0@
}

/// The amounts collected for order `x`: filled, quote and fee.
pub open spec fn deltas_of(s: Seq<(OrderSeq, OrderUpdate)>, x: OrderSeq) -> (nat, nat, nat) {
    match lookup(s, x) {
        Some(u) => (u.filled_delta@, u.quote_delta@, u.fee_delta@),
        None => (0, 0, 0),
    }
}

/// The status collected for order `x`.
pub open spec fn status_of(s: Seq<(OrderSeq, OrderUpdate)>, x: OrderSeq) -> Option<OrderStatus> {
    match lookup(s, x) {
        Some(u) => u.status,
        None => None,
    }
}

/// Who canceled order `x`, as its collected update records.
pub open spec fn canceler_of(s: Seq<(OrderSeq, OrderUpdate)>, x: OrderSeq) -> Option<Principal> {
    match lookup(s, x) {
        Some(u) => u.canceled_by,
        None => None,
    }
}

/// What a fill with the given notional and fees adds to order `x`: the fill
/// quantity, the notional and the fee `x` pays, once as maker and once as
/// taker.
pub open spec fn share_of(f: Fill, notional: nat, taker_fee: nat, maker_fee: nat, x: OrderSeq) -> (nat, nat, nat) {
    let m: (nat, nat, nat) = if f.maker_order_seq == x { (f.quantity@, notional, maker_fee) } else { (0, 0, 0) };
    let t: (nat, nat, nat) = if f.taker_order_seq == x { (f.quantity@, notional, taker_fee) } else { (0, 0, 0) };
    (m.0 + t.0, m.1 + t.1, m.2 + t.2)
}

/// What one fill adds to order `x`.
pub open spec fn fill_share(f: Fill, x: OrderSeq, rates: FeeRates, base_scale: u64) -> (nat, nat, nat) {
    let v = fee_values(f.maker_price@ as nat, f.quantity@, f.taker_side, rates, base_scale);
    share_of(f, v.0, v.1, v.2, x)
}

/// What a list of fills adds to order `x`.
pub open spec fn fill_deltas(fills: Seq<Fill>, x: OrderSeq, rates: FeeRates, base_scale: u64) -> (nat, nat, nat)
    decreases fills.len(),
{
    if fills.len() == 0 {
        (0, 0, 0)
    } else {
        let d = fill_deltas(fills.drop_last(), x, rates, base_scale);
        let e = fill_share(fills.last(), x, rates, base_scale);
        (d.0 + e.0, d.1 + e.1, d.2 + e.2)
    }
}

/// Whether order `x` takes part in one of the fills.
pub open spec fn in_fills(fills: Seq<Fill>, x: OrderSeq) -> bool {
    exists|i: int| 0 <= i < fills.len() && ((#[trigger] fills[i]).maker_order_seq == x || fills[i].taker_order_seq == x)
}

/// The balance operations of one fill.
pub open spec fn settle_ops(f: Fill, rates: FeeRates, base_scale: u64) -> Seq<BalanceOperation> {
    let v = fee_values(f.maker_price@ as nat, f.quantity@, f.taker_side, rates, base_scale);
    fill_operations(
        f,
        Quantity::from_value(v.0),
        Quantity::from_value(v.1),
        Quantity::from_value(v.2),
        Quantity::from_value(surplus_value(f, base_scale)),
    )
}

/// The balance operations of a list of fills, fill after fill.
pub open spec fn fills_ops(fills: Seq<Fill>, rates: FeeRates, base_scale: u64) -> Seq<BalanceOperation>
    decreases fills.len(),
{
    if fills.len() == 0 {
        Seq::empty()
    } else {
        fills_ops(fills.drop_last(), rates, base_scale) + settle_ops(fills.last(), rates, base_scale)
    }
}

/// The operation that releases a removed order's reservation.
pub open spec fn release_op(e: (OrderSeq, RemovedOrder), base_scale: u64) -> BalanceOperation {
    BalanceOperation::Unreserve {
        order: e.0,
        token: released(e.1, base_scale).0,
        amount: Quantity::from_value(released(e.1, base_scale).1),
    }
}

/// Whether order `x` is among the first `k` killed orders.
pub open spec fn killed_within(expired: Seq<(OrderSeq, RemovedOrder)>, k: int, x: OrderSeq) -> bool {
    exists|e: int| 0 <= e < k && (#[trigger] expired[e]).0 == x
}

/// The terminal status a round gives order `x`: expired over filled over
/// resting.
pub open spec fn round_status(out: MatchingOutput, x: OrderSeq) -> Option<OrderStatus> {
    if killed_within(out.expired_orders@, out.expired_orders@.len() as int, x) {
        Some(OrderStatus::Expired)
    } else if out.filled_orders@.contains(x) {
        Some(OrderStatus::Filled)
    } else if out.resting_orders@.contains(x) {
        Some(OrderStatus::Open)
    } else {
        None
    }
}

/// A round's output can be settled: every fill and every released buy
/// reservation is exact, no order's collected amounts overflow, and the
/// fill sequence has room for every fill.
pub open spec fn round_settles(out: MatchingOutput, rates: FeeRates, base_scale: u64, next_fill_seq: FillSeq) -> bool {
    &&& forall|i: int| 0 <= i < out.fills@.len() ==> fill_settles(#[trigger] out.fills@[i], base_scale)
    &&& forall|i: int| 0 <= i < out.expired_orders@.len() ==> ((#[trigger] out.expired_orders@[i]).1.side == Side::Buy
        ==> settles_exactly(out.expired_orders@[i].1.price@ as nat, out.expired_orders@[i].1.remaining_quantity@, base_scale))
    &&& forall|x: OrderSeq, k: int| 0 <= k <= out.fills@.len() ==> {
        let d = #[trigger] fill_deltas(out.fills@.take(k), x, rates, base_scale);
        d.0 < pow2_256() && d.1 < pow2_256() && d.2 < pow2_256()
    }
    &&& next_fill_seq@ + out.fills@.len() <= u64::MAX
}

proof fn lemma_fill_deltas_step(fills: Seq<Fill>, k: int, x: OrderSeq, rates: FeeRates, base_scale: u64)
    requires
        0 <= k < fills.len(),
    ensures
        fill_deltas(fills.take(k + 1), x, rates, base_scale) == ({
            let d = fill_deltas(fills.take(k), x, rates, base_scale);
            let e = fill_share(fills[k], x, rates, base_scale);
            (d.0 + e.0, d.1 + e.1, d.2 + e.2)
        }),
{
    assert(fills.take(k + 1).drop_last() =~= fills.take(k));
}

proof fn lemma_sorted_unique(s: Seq<(OrderSeq, OrderUpdate)>)
    requires
        seq_sorted(s),
    ensures
        unique_keys(s),
{
}

/// The index of the entry of `seq`, inserted as an empty update if missing.
fn entry_for(updates: &mut Vec<(OrderSeq, OrderUpdate)>, seq: OrderSeq) -> (i: usize)
    requires
        seq_sorted(old(updates)@),
    ensures
        seq_sorted(final(updates)@),
        i < final(updates)@.len(),
        final(updates)@[i as int].0 == seq,
        lookup(final(updates)@, seq) == Some(final(updates)@[i as int].1),
        match lookup(old(updates)@, seq) {
            Some(u) => final(updates)@[i as int].1 == u,
            None => final(updates)@[i as int].1.status is None && deltas_of(final(updates)@, seq) == (0nat, 0nat, 0nat)
                && final(updates)@[i as int].1.canceled_by is None,
        },
        forall|x: OrderSeq| x != seq ==> #[trigger] lookup(final(updates)@, x) == lookup(old(updates)@, x),
{
    let ghost s0 = updates@;
    proof {
        lemma_sorted_unique(s0);
    }
    let mut i: usize = 0;
    while i < updates.len() && updates[i].0.get() < seq.get()
        invariant
            updates@ == s0,
            i <= s0.len(),
            forall|j: int| 0 <= j < i ==> (#[trigger] s0[j]).0@ < seq@,
        decreases s0.len() - i,
    {
        i = i + 1;
    }
    if i < updates.len() && updates[i].0.get() == seq.get() {
        proof {
            lemma_lookup_at(s0, i as int);
        }
        return i;
    }
    proof {
        assert forall|j: int| 0 <= j < s0.len() implies #[trigger] s0[j].0 != seq by {
            if j >= i {
                assert(s0[j].0@ >= s0[i as int].0@);
            }
        }
        lemma_lookup_absent(s0, seq);
    }
    updates.insert(i, (seq, OrderUpdate::none()));
    proof {
        let s = updates@;
        assert(s =~= s0.insert(i as int, (seq, s[i as int].1)));
        lemma_lookup_insert(s0, i as int, seq, s[i as int].1, seq);
        assert forall|x: OrderSeq| x != seq implies #[trigger] lookup(updates@, x) == lookup(s0, x) by {
            lemma_lookup_insert(s0, i as int, seq, s[i as int].1, x);
        }
        assert forall|a: int, b: int| 0 <= a < b < s.len() implies (#[trigger] s[a]).0@ < (#[trigger] s[b]).0@ by {
            if b < i {
                assert(s[a] == s0[a] && s[b] == s0[b]);
            } else if b == i {
                assert(s[a] == s0[a]);
            } else if a < i {
                assert(s[a] == s0[a] && s[b] == s0[b - 1]);
                assert(s0[b - 1].0@ >= s0[i as int].0@ || b - 1 == i);
            } else if a == i {
                assert(s[b] == s0[b - 1]);
                assert(s0[b - 1].0@ >= s0[i as int].0@ || b - 1 == i);
            } else {
                assert(s[a] == s0[a - 1] && s[b] == s0[b - 1]);
            }
        }
    }
    i
}

proof fn lemma_push_contains<A>(s: Seq<A>, a: A, x: A)
    ensures
        s.push(a).contains(x) <==> (s.contains(x) || x == a),
{
    if s.contains(x) {
        let i = choose|i: int| 0 <= i < s.len() && s[i] == x;
        assert(s.push(a)[i] == x);
    }
    if x == a {
        assert(s.push(a)[s.len() as int] == x);
    }
}

/// Replace the update at index `i`, keeping its key.
proof fn lemma_set_entry(s0: Seq<(OrderSeq, OrderUpdate)>, i: int, u: OrderUpdate)
    requires
        seq_sorted(s0),
        0 <= i < s0.len(),
    ensures
        seq_sorted(s0.update(i, (s0[i].0, u))),
        lookup(s0.update(i, (s0[i].0, u)), s0[i].0) == Some(u),
        forall|x: OrderSeq| x != s0[i].0 ==> #[trigger] lookup(s0.update(i, (s0[i].0, u)), x) == lookup(s0, x),
{
    lemma_sorted_unique(s0);
    let s = s0.update(i, (s0[i].0, u));
    assert forall|a: int, b: int| 0 <= a < b < s.len() implies (#[trigger] s[a]).0@ < (#[trigger] s[b]).0@ by {
        assert(s[a].0 == s0[a].0 && s[b].0 == s0[b].0);
    }
    lemma_lookup_update(s0, i, u, s0[i].0);
    assert forall|x: OrderSeq| x != s0[i].0 implies #[trigger] lookup(s, x) == lookup(s0, x) by {
        lemma_lookup_update(s0, i, u, x);
    }
}

/// Add `filled`, `quote` and `fee` to the update of order `seq`.
fn add_to_entry(updates: &mut Vec<(OrderSeq, OrderUpdate)>, seq: OrderSeq, filled: Quantity, quote: Quantity, fee: Quantity)
    requires
        seq_sorted(old(updates)@),
        deltas_of(old(updates)@, seq).0 + filled@ < pow2_256(),
        deltas_of(old(updates)@, seq).1 + quote@ < pow2_256(),
        deltas_of(old(updates)@, seq).2 + fee@ < pow2_256(),
    ensures
        seq_sorted(final(updates)@),
        lookup(final(updates)@, seq) is Some,
        deltas_of(final(updates)@, seq) == (
            deltas_of(old(updates)@, seq).0 + filled@,
            deltas_of(old(updates)@, seq).1 + quote@,
            deltas_of(old(updates)@, seq).2 + fee@,
        ),
        status_of(final(updates)@, seq) == status_of(old(updates)@, seq),
        canceler_of(final(updates)@, seq) == canceler_of(old(updates)@, seq),
        forall|x: OrderSeq| x != seq ==> #[trigger] lookup(final(updates)@, x) == lookup(old(updates)@, x),
{
    let i = entry_for(updates, seq);
    let ghost s1 = updates@;
    let mut u = updates[i].1;
    u.filled_delta = u.filled_delta.checked_add(filled).unwrap();
    u.quote_delta = u.quote_delta.checked_add(quote).unwrap();
    u.fee_delta = u.fee_delta.checked_add(fee).unwrap();
    updates.set(i, (seq, u));
    proof {
        assert(updates@ =~= s1.update(i as int, (s1[i as int].0, u)));
        lemma_set_entry(s1, i as int, u);
    }
}

/// Set the status of order `seq`, creating its update if missing.
fn set_status(updates: &mut Vec<(OrderSeq, OrderUpdate)>, seq: OrderSeq, status: OrderStatus)
    requires
        seq_sorted(old(updates)@),
    ensures
        seq_sorted(final(updates)@),
        lookup(final(updates)@, seq) is Some,
        deltas_of(final(updates)@, seq) == deltas_of(old(updates)@, seq),
        status_of(final(updates)@, seq) == Some(status),
        canceler_of(final(updates)@, seq) == canceler_of(old(updates)@, seq),
        forall|x: OrderSeq| x != seq ==> #[trigger] lookup(final(updates)@, x) == lookup(old(updates)@, x),
{
    let i = entry_for(updates, seq);
    let ghost s1 = updates@;
    let mut u = updates[i].1;
    u.status = Some(status);
    updates.set(i, (seq, u));
    proof {
        assert(updates@ =~= s1.update(i as int, (s1[i as int].0, u)));
        lemma_set_entry(s1, i as int, u);
    }
}

impl FillSettlement {
    /// Add this fill to the updates of its maker and its taker: the fill
    /// quantity, the notional and each one's own fee.
    pub open spec fn share(&self, x: OrderSeq) -> (nat, nat, nat) {
        share_of(self.spec_fill(), self.spec_notional()@, self.spec_taker_fee()@, self.spec_maker_fee()@, x)
    }

    pub fn accrue_fill(&self, updates: &mut Vec<(OrderSeq, OrderUpdate)>)
        requires
            seq_sorted(old(updates)@),
            forall|x: OrderSeq| {
                let d = #[trigger] deltas_of(old(updates)@, x);
                let e = self.share(x);
                d.0 + e.0 < pow2_256() && d.1 + e.1 < pow2_256() && d.2 + e.2 < pow2_256()
            },
        ensures
            seq_sorted(final(updates)@),
            forall|x: OrderSeq| #[trigger] deltas_of(final(updates)@, x) == ({
                let d = deltas_of(old(updates)@, x);
                let e = self.share(x);
                (d.0 + e.0, d.1 + e.1, d.2 + e.2)
            }),
            forall|x: OrderSeq| #[trigger] status_of(final(updates)@, x) == status_of(old(updates)@, x),
            forall|x: OrderSeq| #[trigger] canceler_of(final(updates)@, x) == canceler_of(old(updates)@, x),
            forall|x: OrderSeq| (#[trigger] lookup(final(updates)@, x) is Some) <==> (lookup(old(updates)@, x) is Some
                || x == self.spec_fill().maker_order_seq || x == self.spec_fill().taker_order_seq),
    {
        let ghost s0 = updates@;
        let maker = self.fill().maker_order_seq;
        let taker = self.fill().taker_order_seq;
        proof {
            let d = deltas_of(s0, maker);
            let e = self.share(maker);
            assert(d.0 + e.0 < pow2_256());
        }
        add_to_entry(updates, maker, self.fill().quantity, self.notional(), self.maker_fee());
        let ghost s1 = updates@;
        proof {
            let d = deltas_of(s0, taker);
            let e = self.share(taker);
            assert(d.0 + e.0 < pow2_256());
        }
        add_to_entry(updates, taker, self.fill().quantity, self.notional(), self.taker_fee());
        proof {
            assert forall|x: OrderSeq| #[trigger] deltas_of(updates@, x) == ({
                let d = deltas_of(s0, x);
                let e = self.share(x);
                (d.0 + e.0, d.1 + e.1, d.2 + e.2)
            }) by {
                if x != maker && x != taker {
                    assert(lookup(updates@, x) == lookup(s1, x));
                    assert(lookup(s1, x) == lookup(s0, x));
                } else if x == maker && x != taker {
                    assert(lookup(updates@, x) == lookup(s1, x));
                } else if x != maker {
                    assert(lookup(s1, x) == lookup(s0, x));
                }
            }
            assert forall|x: OrderSeq| #[trigger] status_of(updates@, x) == status_of(s0, x) by {
                if x != maker && x != taker {
                    assert(lookup(updates@, x) == lookup(s1, x));
                    assert(lookup(s1, x) == lookup(s0, x));
                } else if x == maker && x != taker {
                    assert(lookup(updates@, x) == lookup(s1, x));
                } else if x != maker {
                    assert(lookup(s1, x) == lookup(s0, x));
                }
            }
            assert forall|x: OrderSeq| (#[trigger] lookup(updates@, x) is Some) <==> (lookup(s0, x) is Some || x == maker
                || x == taker) by {
                if x != maker && x != taker {
                    assert(lookup(updates@, x) == lookup(s1, x));
                    assert(lookup(s1, x) == lookup(s0, x));
                } else if x == maker && x != taker {
                    assert(lookup(updates@, x) == lookup(s1, x));
                }
            }
        }
    }
}

/// Everything a matching round changes: the balance operations to apply,
/// the update of every order it touched, in ascending order sequence, and
/// the fill events of the settling event.
#[derive(Debug)]
pub struct MatchSettlement {
    pub balance_operations: Vec<BalanceOperation>,
    pub order_updates: Vec<(OrderSeq, OrderUpdate)>,
    pub fills: Vec<FillEvent>,
}

/// The event of the `i`-th fill of a round whose fills are numbered from
/// `first`.
pub open spec fn round_event(f: Fill, first: u64, i: int, rates: FeeRates) -> FillEvent {
    FillEvent {
        fill_seq: FillSeq::spec_new((first + i) as u64),
        taker_order_seq: f.taker_order_seq,
        maker_order_seq: f.maker_order_seq,
        quantity: f.quantity,
        fee_rates: rates,
    }
}

impl MatchSettlement {
    /// Build the state changes of a matching round. Fills are numbered from
    /// `next_fill_seq` on, which is left past the last of them. For each fill:
    /// its balance operations, its amounts added to the maker's and the
    /// taker's update, and its fill event; then, for each killed order, the
    /// operation that releases its reservation. Over the collected amounts
    /// each order gets its terminal status: open if it came to rest, filled
    /// if it was filled, expired if it was killed, the later overriding the
    /// earlier.
    #[verifier::rlimit(30)]
    pub fn from_matching(output: MatchingOutput, fee_rates: FeeRates, base_scale: u64, next_fill_seq: &mut FillSeq) -> (r: MatchSettlement)
        requires
            round_settles(output, fee_rates, base_scale, *old(next_fill_seq)),
        ensures
            final(next_fill_seq)@ == old(next_fill_seq)@ + output.fills@.len(),
            r.balance_operations@ == fills_ops(output.fills@, fee_rates, base_scale) + output.expired_orders@.map_values(
                |e: (OrderSeq, RemovedOrder)| release_op(e, base_scale),
            ),
            r.fills@.len() == output.fills@.len(),
            forall|i: int| 0 <= i < r.fills@.len() ==> #[trigger] r.fills@[i] == round_event(
                output.fills@[i],
                old(next_fill_seq)@,
                i,
                fee_rates,
            ),
            seq_sorted(r.order_updates@),
            forall|x: OrderSeq| #[trigger] deltas_of(r.order_updates@, x) == fill_deltas(output.fills@, x, fee_rates, base_scale),
            forall|x: OrderSeq| #[trigger] status_of(r.order_updates@, x) == round_status(output, x),
            forall|x: OrderSeq| #[trigger] canceler_of(r.order_updates@, x) is None,
            forall|x: OrderSeq| (#[trigger] lookup(r.order_updates@, x) is Some) <==> (in_fills(output.fills@, x) || round_status(
                output,
                x,
            ) is Some),
    {
        let ghost first = next_fill_seq@;
        let ghost start = *next_fill_seq;
        let ghost fills = output.fills@;
        let mut ops: Vec<BalanceOperation> = Vec::new();
        let mut updates: Vec<(OrderSeq, OrderUpdate)> = Vec::new();
        let mut events: Vec<FillEvent> = Vec::new();
        let mut i: usize = 0;
        proof {
            assert(fills.take(0) =~= Seq::<Fill>::empty());
            assert forall|x: OrderSeq| #[trigger] lookup(updates@, x) is None by {
                lemma_lookup_absent(updates@, x);
            }
        }
        while i < output.fills.len()
            invariant
                fills == output.fills@,
                round_settles(output, fee_rates, base_scale, start),
                start@ == first,
                i <= fills.len(),
                next_fill_seq@ == first + i,
                ops@ == fills_ops(fills.take(i as int), fee_rates, base_scale),
                events@.len() == i,
                forall|j: int| 0 <= j < i ==> #[trigger] events@[j] == round_event(fills[j], first, j, fee_rates),
                seq_sorted(updates@),
                forall|x: OrderSeq| #[trigger] deltas_of(updates@, x) == fill_deltas(fills.take(i as int), x, fee_rates, base_scale),
                forall|x: OrderSeq| #[trigger] status_of(updates@, x) is None,
                forall|x: OrderSeq| #[trigger] canceler_of(updates@, x) is None,
                forall|x: OrderSeq| (#[trigger] lookup(updates@, x) is Some) <==> in_fills(fills.take(i as int), x),
            decreases fills.len() - i,
        {
            let fill = output.fills[i];
            proof {
                assert(fill_settles(fills[i as int], base_scale));
            }
            let seq = *next_fill_seq;
            proof {
                Sequence::<FillSeqMarker>::lemma_spec_new((first + i) as u64);
                Sequence::<FillSeqMarker>::lemma_view_injective(seq, FillSeq::spec_new((first + i) as u64));
                assert(seq == FillSeq::spec_new((first + i) as u64));
            }
            let settlement = FillSettlement::new(fill, seq, fee_rates, base_scale);
            let ghost before = ops@;
            settlement.push_balance_operations(&mut ops);
            proof {
                let v = fee_values(fill.maker_price@ as nat, fill.quantity@, fill.taker_side, fee_rates, base_scale);
                Quantity::lemma_from_value(settlement.spec_notional()@);
                Quantity::lemma_from_value(settlement.spec_taker_fee()@);
                Quantity::lemma_from_value(settlement.spec_maker_fee()@);
                Quantity::lemma_from_value(settlement.spec_surplus()@);
                assert(settlement.spec_notional() == Quantity::from_value(v.0));
                assert(settlement.spec_taker_fee() == Quantity::from_value(v.1));
                assert(settlement.spec_maker_fee() == Quantity::from_value(v.2));
                assert(settlement.spec_surplus() == Quantity::from_value(surplus_value(fill, base_scale)));
                assert(fills.take(i + 1).drop_last() =~= fills.take(i as int));
                assert(ops@ == fills_ops(fills.take(i + 1), fee_rates, base_scale));
                assert forall|x: OrderSeq| {
                    let d = #[trigger] deltas_of(updates@, x);
                    let e = settlement.share(x);
                    d.0 + e.0 < pow2_256() && d.1 + e.1 < pow2_256() && d.2 + e.2 < pow2_256()
                } by {
                    lemma_fill_deltas_step(fills, i as int, x, fee_rates, base_scale);
                    let d = fill_deltas(fills.take(i + 1), x, fee_rates, base_scale);
                    assert(d.0 < pow2_256() && d.1 < pow2_256() && d.2 < pow2_256());
                }
            }
            let ghost u0 = updates@;
            settlement.accrue_fill(&mut updates);
            events.push(settlement.fill_event());
            next_fill_seq.increment();
            i = i + 1;
            proof {
                assert forall|x: OrderSeq| #[trigger] deltas_of(updates@, x) == fill_deltas(fills.take(i as int), x, fee_rates, base_scale) by {
                    lemma_fill_deltas_step(fills, i - 1, x, fee_rates, base_scale);
                }
                assert forall|x: OrderSeq| (#[trigger] lookup(updates@, x) is Some) <==> in_fills(fills.take(i as int), x) by {
                    if in_fills(fills.take(i as int), x) {
                        let k = choose|k: int| 0 <= k < fills.take(i as int).len() && ((#[trigger] fills.take(i as int)[k]).maker_order_seq == x
                            || fills.take(i as int)[k].taker_order_seq == x);
                        if k < i - 1 {
                            assert(fills.take(i - 1)[k] == fills.take(i as int)[k]);
                        }
                    }
                    if in_fills(fills.take(i - 1), x) {
                        let k = choose|k: int| 0 <= k < fills.take(i - 1).len() && ((#[trigger] fills.take(i - 1)[k]).maker_order_seq == x
                            || fills.take(i - 1)[k].taker_order_seq == x);
                        assert(fills.take(i as int)[k] == fills.take(i - 1)[k]);
                    }
                    if x == fill.maker_order_seq || x == fill.taker_order_seq {
                        assert(fills.take(i as int)[i - 1] == fill);
                    }
                }
            }
        }
        proof {
            assert(fills.take(i as int) =~= fills);
        }
        let ghost fill_ops = ops@;
        let ghost expired = output.expired_orders@;
        let mut j: usize = 0;
        proof {
            assert(expired.take(0).map_values(|e: (OrderSeq, RemovedOrder)| release_op(e, base_scale)) =~= Seq::<BalanceOperation>::empty());
            assert(ops@ =~= fill_ops + expired.take(0).map_values(|e: (OrderSeq, RemovedOrder)| release_op(e, base_scale)));
        }
        while j < output.expired_orders.len()
            invariant
                expired == output.expired_orders@,
                round_settles(output, fee_rates, base_scale, start),
                start@ == first,
                j <= expired.len(),
                ops@ == fill_ops + expired.take(j as int).map_values(|e: (OrderSeq, RemovedOrder)| release_op(e, base_scale)),
            decreases expired.len() - j,
        {
            let (seq, removed) = output.expired_orders[j];
            proof {
                assert(expired[j as int] == (seq, removed));
            }
            let release = RemovedOrderSettlement::new(seq, &removed, base_scale);
            release.push_balance_operations(&mut ops);
            j = j + 1;
            proof {
                Quantity::lemma_from_value(release.spec_amount()@);
                assert(release.spec_amount() == Quantity::from_value(released(removed, base_scale).1));
                assert(expired.take(j as int).map_values(|e: (OrderSeq, RemovedOrder)| release_op(e, base_scale)) =~= expired.take(
                    j - 1,
                ).map_values(|e: (OrderSeq, RemovedOrder)| release_op(e, base_scale)).push(release_op(expired[j - 1], base_scale)));
            }
        }
        proof {
            assert(expired.take(j as int) =~= expired);
        }
        let ghost after_fills = updates@;
        let ghost resting = output.resting_orders@;
        let mut k: usize = 0;
        while k < output.resting_orders.len()
            invariant
                resting == output.resting_orders@,
                k <= resting.len(),
                seq_sorted(updates@),
                forall|x: OrderSeq| #[trigger] deltas_of(updates@, x) == deltas_of(after_fills, x),
                forall|x: OrderSeq| #[trigger] canceler_of(updates@, x) is None,
                forall|x: OrderSeq| #[trigger] status_of(updates@, x) == if resting.take(k as int).contains(x) {
                    Some(OrderStatus::Open)
                } else {
                    None
                },
                forall|x: OrderSeq| (#[trigger] lookup(updates@, x) is Some) <==> (lookup(after_fills, x) is Some
                    || resting.take(k as int).contains(x)),
                forall|x: OrderSeq| #[trigger] status_of(after_fills, x) is None,
            decreases resting.len() - k,
        {
            let seq = output.resting_orders[k];
            let ghost prev = updates@;
            set_status(&mut updates, seq, OrderStatus::Open);
            k = k + 1;
            proof {
                assert(resting.take(k as int) =~= resting.take(k - 1).push(seq));
                assert forall|x: OrderSeq| x != seq implies #[trigger] deltas_of(updates@, x) == deltas_of(prev, x) && status_of(updates@, x)
                    == status_of(prev, x) && lookup(updates@, x) == lookup(prev, x) by {
                    assert(lookup(updates@, x) == lookup(prev, x));
                }
                assert forall|x: OrderSeq| #[trigger] canceler_of(updates@, x) is None by {
                    if x != seq {
                        assert(lookup(updates@, x) == lookup(prev, x));
                        assert(canceler_of(prev, x) is None);
                    }
                }
                assert forall|x: OrderSeq| #[trigger] resting.take(k as int).contains(x) <==> (resting.take(k - 1).contains(x) || x == seq) by {
                    lemma_push_contains(resting.take(k - 1), seq, x);
                }
                assert forall|x: OrderSeq| #[trigger] status_of(updates@, x) == if resting.take(k as int).contains(x) {
                    Some(OrderStatus::Open)
                } else {
                    None
                } by {
                    lemma_push_contains(resting.take(k - 1), seq, x);
                    if x != seq {
                        assert(lookup(updates@, x) == lookup(prev, x));
                        assert(status_of(updates@, x) == status_of(prev, x));
                    }
                }
            }
        }
        proof {
            assert(resting.take(k as int) =~= resting);
        }
        let ghost after_resting = updates@;
        let ghost filled = output.filled_orders@;
        let mut k: usize = 0;
        while k < output.filled_orders.len()
            invariant
                filled == output.filled_orders@,
                k <= filled.len(),
                seq_sorted(updates@),
                forall|x: OrderSeq| #[trigger] deltas_of(updates@, x) == deltas_of(after_resting, x),
                forall|x: OrderSeq| #[trigger] canceler_of(updates@, x) is None,
                forall|x: OrderSeq| #[trigger] status_of(updates@, x) == if filled.take(k as int).contains(x) {
                    Some(OrderStatus::Filled)
                } else {
                    status_of(after_resting, x)
                },
                forall|x: OrderSeq| (#[trigger] lookup(updates@, x) is Some) <==> (lookup(after_resting, x) is Some
                    || filled.take(k as int).contains(x)),
            decreases filled.len() - k,
        {
            let seq = output.filled_orders[k];
            let ghost prev = updates@;
            set_status(&mut updates, seq, OrderStatus::Filled);
            k = k + 1;
            proof {
                assert(filled.take(k as int) =~= filled.take(k - 1).push(seq));
                assert forall|x: OrderSeq| x != seq implies #[trigger] deltas_of(updates@, x) == deltas_of(prev, x) && status_of(updates@, x)
                    == status_of(prev, x) && lookup(updates@, x) == lookup(prev, x) by {
                    assert(lookup(updates@, x) == lookup(prev, x));
                }
                assert forall|x: OrderSeq| #[trigger] canceler_of(updates@, x) is None by {
                    if x != seq {
                        assert(lookup(updates@, x) == lookup(prev, x));
                        assert(canceler_of(prev, x) is None);
                    }
                }
                assert forall|x: OrderSeq| #[trigger] filled.take(k as int).contains(x) <==> (filled.take(k - 1).contains(x) || x == seq) by {
                    lemma_push_contains(filled.take(k - 1), seq, x);
                }
                assert forall|x: OrderSeq| #[trigger] status_of(updates@, x) == if filled.take(k as int).contains(x) {
                    Some(OrderStatus::Filled)
                } else {
                    status_of(after_resting, x)
                } by {
                    lemma_push_contains(filled.take(k - 1), seq, x);
                    if x != seq {
                        assert(lookup(updates@, x) == lookup(prev, x));
                        assert(status_of(updates@, x) == status_of(prev, x));
                    }
                }
            }
        }
        proof {
            assert(filled.take(k as int) =~= filled);
        }
        let ghost after_filled = updates@;
        let mut k: usize = 0;
        while k < output.expired_orders.len()
            invariant
                expired == output.expired_orders@,
                k <= expired.len(),
                seq_sorted(updates@),
                forall|x: OrderSeq| #[trigger] deltas_of(updates@, x) == deltas_of(after_filled, x),
                forall|x: OrderSeq| #[trigger] canceler_of(updates@, x) is None,
                forall|x: OrderSeq| #[trigger] status_of(updates@, x) == if killed_within(expired, k as int, x) {
                    Some(OrderStatus::Expired)
                } else {
                    status_of(after_filled, x)
                },
                forall|x: OrderSeq| (#[trigger] lookup(updates@, x) is Some) <==> (lookup(after_filled, x) is Some
                    || killed_within(expired, k as int, x)),
            decreases expired.len() - k,
        {
            let seq = output.expired_orders[k].0;
            let ghost prev = updates@;
            set_status(&mut updates, seq, OrderStatus::Expired);
            proof {
                assert(expired[k as int].0 == seq);
                assert forall|x: OrderSeq| x != seq implies #[trigger] deltas_of(updates@, x) == deltas_of(prev, x) && status_of(updates@, x)
                    == status_of(prev, x) && lookup(updates@, x) == lookup(prev, x) by {
                    assert(lookup(updates@, x) == lookup(prev, x));
                }
                assert forall|x: OrderSeq| #[trigger] canceler_of(updates@, x) is None by {
                    if x != seq {
                        assert(lookup(updates@, x) == lookup(prev, x));
                        assert(canceler_of(prev, x) is None);
                    }
                }
                assert forall|x: OrderSeq| #[trigger] killed_within(expired, k + 1, x) <==> (killed_within(expired, k as int, x) || x
                    == seq) by {
                    if x == seq {
                        assert(expired[k as int].0 == x);
                    }
                    if exists|e: int| 0 <= e < k + 1 && (#[trigger] expired[e]).0 == x {
                        let e = choose|e: int| 0 <= e < k + 1 && (#[trigger] expired[e]).0 == x;
                        if e < k {
                            assert(expired[e].0 == x);
                        }
                    }
                }
                assert forall|x: OrderSeq| #[trigger] status_of(updates@, x) == if killed_within(expired, k + 1, x) {
                    Some(OrderStatus::Expired)
                } else {
                    status_of(after_filled, x)
                } by {
                    assert(killed_within(expired, k + 1, x) <==> (killed_within(expired, k as int, x) || x == seq));
                    if x != seq {
                        assert(lookup(updates@, x) == lookup(prev, x));
                        assert(status_of(updates@, x) == status_of(prev, x));
                    }
                }
            }
            k = k + 1;
        }
        MatchSettlement { balance_operations: ops, order_updates: updates, fills: events }
    }
}

} // verus!
