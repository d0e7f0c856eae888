//! Read-only fill plans: the fills an incoming order would make, decided
//! before the book is touched.
use vstd::prelude::*;
use crate::ids::OrderSeq;
use crate::order::{Order, RestingOrder, TimeInForce};
use crate::quantity::Quantity;

verus! {

broadcast use crate::quantity::Quantity::lemma_view_injective;

/// A validated plan of the fills an incoming order will make: the makers it
/// consumes in full, in execution order; the optional last partial fill; and
/// what is left of the taker afterwards.
#[derive(Debug, Clone, PartialEq, Eq)]
pub struct FillPlan {
    taker_order: OrderSeq,
    filled_makers: Vec<OrderSeq>,
    last_partial: Option<(OrderSeq, Quantity)>,
    taker_remaining: Quantity,
}

impl FillPlan {
    pub closed spec fn spec_taker_order(&self) -> OrderSeq {
        self.taker_order
    }

    pub closed spec fn spec_filled_makers(&self) -> Seq<OrderSeq> {
        self.filled_makers@
    }

    pub closed spec fn spec_last_partial(&self) -> Option<(OrderSeq, Quantity)> {
        self.last_partial
    }

    pub closed spec fn spec_taker_remaining(&self) -> Quantity {
        self.taker_remaining
    }

    /// Start accumulating fills for `order`.
    pub fn builder(order: &Order) -> (b: FillPlanBuilder<'_>)
        ensures
            b.spec_order() == *order,
            b.spec_filled_makers() == Seq::<OrderSeq>::empty(),
            b.spec_last_partial() is None,
            b.spec_taker_remaining() == order.spec_remaining(),
    {
        FillPlanBuilder {
            order,
            filled_makers: Vec::new(),
            last_partial: None,
            taker_remaining: *order.remaining_quantity(),
        }
    }

    pub fn taker_order(&self) -> (r: OrderSeq)
        ensures
            r == self.spec_taker_order(),
    {
        self.taker_order
    }

    pub fn filled_makers(&self) -> (r: &[OrderSeq])
        ensures
            r@ == self.spec_filled_makers(),
    {
        self.filled_makers.as_slice()
    }

    pub fn last_partial(&self) -> (r: Option<(OrderSeq, Quantity)>)
        ensures
            r == self.spec_last_partial(),
    {
        self.last_partial
    }

    pub fn taker_remaining(&self) -> (r: Quantity)
        ensures
            r == self.spec_taker_remaining(),
    {
        self.taker_remaining
    }
}

/// Accumulator for a [`FillPlan`]: borrows the incoming order and has no
/// access to the book, so building a plan cannot mutate it.
pub struct FillPlanBuilder<'a> {
    order: &'a Order,
    filled_makers: Vec<OrderSeq>,
    last_partial: Option<(OrderSeq, Quantity)>,
    taker_remaining: Quantity,
}

impl<'a> FillPlanBuilder<'a> {
    pub closed spec fn spec_order(&self) -> Order {
        *self.order
    }

    pub closed spec fn spec_filled_makers(&self) -> Seq<OrderSeq> {
        self.filled_makers@
    }

    pub closed spec fn spec_last_partial(&self) -> Option<(OrderSeq, Quantity)> {
        self.last_partial
    }

    pub closed spec fn spec_taker_remaining(&self) -> Quantity {
        self.taker_remaining
    }

    /// Record a fill of `min(taker_remaining, resting.remaining)` against
    /// `resting`: appended to the consumed makers when it empties the maker,
    /// otherwise recorded as the final partial fill (which uses up the taker).
    /// No fill may follow a partial one, and the maker may not be the taker.
    pub fn add_fill(&mut self, resting: &RestingOrder)
        requires
            old(self).spec_last_partial() is None,
            resting.spec_id() != old(self).spec_order().spec_id(),
        ensures
            final(self).spec_order() == old(self).spec_order(),
            resting.spec_remaining()@ <= old(self).spec_taker_remaining()@ ==> {
                &&& final(self).spec_filled_makers() == old(self).spec_filled_makers().push(resting.spec_id())
                &&& final(self).spec_last_partial() is None
                &&& final(self).spec_taker_remaining()@ == old(self).spec_taker_remaining()@ - resting.spec_remaining()@
            },
            resting.spec_remaining()@ > old(self).spec_taker_remaining()@ ==> {
                &&& final(self).spec_filled_makers() == old(self).spec_filled_makers()
                &&& final(self).spec_last_partial() == Some((resting.spec_id(), old(self).spec_taker_remaining()))
                &&& final(self).spec_taker_remaining()@ == 0
            },
    {
        let maker_seq = resting.id();
        let maker_qty = *resting.remaining_quantity();
        let fill_qty = self.taker_remaining.min(maker_qty);
        self.taker_remaining = self.taker_remaining.checked_sub(fill_qty).unwrap();
        if fill_qty == maker_qty {
            self.filled_makers.push(maker_seq);
        } else {
            self.last_partial = Some((maker_seq, fill_qty));
        }
    }

    pub fn taker_remaining(&self) -> (r: Quantity)
        ensures
            r == self.spec_taker_remaining(),
    {
        self.taker_remaining
    }

    /// Validate the accumulated fills against the order's time-in-force: a
    /// fill-or-kill order with quantity left over is killed; every other
    /// order yields an executable plan.
    pub fn build(self) -> (r: PlanOutcome)
        ensures
            match r {
                PlanOutcome::Kill => self.spec_order().spec_time_in_force() == TimeInForce::FillOrKill
                    && self.spec_taker_remaining()@ != 0,
                PlanOutcome::Execute(plan) => {
                    &&& !(self.spec_order().spec_time_in_force() == TimeInForce::FillOrKill
                        && self.spec_taker_remaining()@ != 0)
                    &&& plan.spec_taker_order() == self.spec_order().spec_id()
                    &&& plan.spec_filled_makers() == self.spec_filled_makers()
                    &&& plan.spec_last_partial() == self.spec_last_partial()
                    &&& plan.spec_taker_remaining() == self.spec_taker_remaining()
                },
            },
    {
        match self.order.time_in_force() {
            TimeInForce::GoodTilCanceled => PlanOutcome::Execute(self.into_plan()),
            TimeInForce::FillOrKill => {
                if !self.taker_remaining.is_zero() {
                    return PlanOutcome::Kill;
                }
                PlanOutcome::Execute(self.into_plan())
            },
        }
    }

    fn into_plan(self) -> (p: FillPlan)
        ensures
            p.spec_taker_order() == self.spec_order().spec_id(),
            p.spec_filled_makers() == self.spec_filled_makers(),
            p.spec_last_partial() == self.spec_last_partial(),
            p.spec_taker_remaining() == self.spec_taker_remaining(),
    {
        FillPlan {
            taker_order: self.order.id(),
            filled_makers: self.filled_makers,
            last_partial: self.last_partial,
            taker_remaining: self.taker_remaining,
        }
    }
}

/// Outcome of validating a plan: execute it, or kill the order untouched.
pub enum PlanOutcome {
    Execute(FillPlan),
    Kill,
}

} // verus!
