//! What is kept of every order from submission through its terminal state,
//! and the combined updates that settle into it.
use vstd::prelude::*;
use candid::Principal;
use crate::order::{CanceledOrderInfo, OrderStatus, Side, TimeInForce};
use crate::quantity::{pow2_256, Price, Quantity};
use crate::scheduler::Timestamp;

verus! {

broadcast use {Quantity::lemma_view_injective, Quantity::lemma_bound};

/// Per-order data, from submission through terminal state. The trading pair
/// is not stored: the order id names its book.
#[derive(Debug, Clone, Copy, PartialEq, Eq)]
pub struct OrderRecord {
    pub owner: Principal,
    pub side: Side,
    pub price: Price,
    pub quantity: Quantity,
    pub status: OrderStatus,
    /// Submission time; shown, never used for matching.
    pub created_at: Timestamp,
    /// Cumulative quantity filled so far; what remains is
    /// `quantity − filled_quantity`.
    pub filled_quantity: Quantity,
    /// Time of the latest change (fill, status transition or cancel); `None`
    /// until the order is first changed.
    pub last_updated_at: Option<Timestamp>,
    pub time_in_force: TimeInForce,
    /// Cumulative quote transacted over the order's fills, at maker prices.
    pub filled_quote: Quantity,
    /// Cumulative fee charged over the order's fills, in the token the order
    /// receives.
    pub filled_fee: Quantity,
    /// The acting caller when it was not the owner.
    pub placed_by: Option<Principal>,
    /// The acting caller that canceled the order, when it was not the owner;
    /// `None` while the order is not canceled.
    pub canceled_by: Option<Principal>,
}

/// A combined update to an order record: an optional status transition plus
/// the amounts to add to the filled quantity, quote and fee, and, for a
/// cancel, who canceled.
#[derive(Debug, Clone, Copy, PartialEq, Eq)]
pub struct OrderUpdate {
    pub status: Option<OrderStatus>,
    pub filled_delta: Quantity,
    pub quote_delta: Quantity,
    pub fee_delta: Quantity,
    /// The acting caller of a cancel when it was not the owner.
    pub canceled_by: Option<Principal>,
}

/// Whether `u` moves `r` to another status, and that status is canceled.
pub open spec fn cancels(r: OrderRecord, u: OrderUpdate) -> bool {
    u.status matches Some(s) && s != r.status && s is Canceled
}

/// Whether applying `u` to `r` changes anything: a different status, or a
/// non-zero amount to add.
pub open spec fn update_changes(r: OrderRecord, u: OrderUpdate) -> bool {
    ||| (u.status matches Some(s) && s != r.status)
    ||| u.filled_delta@ != 0
    ||| u.quote_delta@ != 0
    ||| u.fee_delta@ != 0
}

/// `u` can be applied to `r`: the filled quantity stays within the order's
/// quantity, and the quote and fee totals fit.
pub open spec fn update_applies(r: OrderRecord, u: OrderUpdate) -> bool {
    &&& u.filled_delta@ != 0 ==> r.filled_quantity@ + u.filled_delta@ <= r.quantity@
    &&& r.filled_quote@ + u.quote_delta@ < pow2_256()
    &&& r.filled_fee@ + u.fee_delta@ < pow2_256()
}

/// `after` is `before` with `u` applied: the status set where `u` carries
/// one, the amounts added, everything else kept.
pub open spec fn applied(before: OrderRecord, after: OrderRecord, u: OrderUpdate) -> bool {
    &&& after.status == match u.status {
        Some(s) => s,
        None => before.status,
    }
    &&& after.filled_quantity@ == before.filled_quantity@ + u.filled_delta@
    &&& after.filled_quote@ == before.filled_quote@ + u.quote_delta@
    &&& after.filled_fee@ == before.filled_fee@ + u.fee_delta@
    &&& after.owner == before.owner
    &&& after.side == before.side
    &&& after.price == before.price
    &&& after.quantity == before.quantity
    &&& after.created_at == before.created_at
    &&& after.last_updated_at == before.last_updated_at
    &&& after.time_in_force == before.time_in_force
    &&& after.placed_by == before.placed_by
    &&& after.canceled_by == if cancels(before, u) { u.canceled_by } else { before.canceled_by }
}

impl OrderUpdate {
    /// A status-only update.
    pub fn status(status: OrderStatus) -> (u: OrderUpdate)
        ensures
            u.status == Some(status),
            u.filled_delta@ == 0 && u.quote_delta@ == 0 && u.fee_delta@ == 0,
            u.canceled_by is None,
    {
        OrderUpdate {
            status: Some(status),
            filled_delta: Quantity::zero(),
            quote_delta: Quantity::zero(),
            fee_delta: Quantity::zero(),
            canceled_by: None,
        }
    }

    /// A transition to canceled, recording what was still open and the
    /// acting caller (`None` when the owner canceled the order itself).
    pub fn cancel(info: CanceledOrderInfo, canceled_by: Option<Principal>) -> (u: OrderUpdate)
        ensures
            u.status == Some(OrderStatus::Canceled(info)),
            u.filled_delta@ == 0 && u.quote_delta@ == 0 && u.fee_delta@ == 0,
            u.canceled_by == canceled_by,
    {
        OrderUpdate {
            status: Some(OrderStatus::Canceled(info)),
            filled_delta: Quantity::zero(),
            quote_delta: Quantity::zero(),
            fee_delta: Quantity::zero(),
            canceled_by,
        }
    }

    /// A fill-only update.
    pub fn filled(filled_delta: Quantity) -> (u: OrderUpdate)
        ensures
            u.status is None,
            u.filled_delta == filled_delta,
            u.quote_delta@ == 0 && u.fee_delta@ == 0,
            u.canceled_by is None,
    {
        OrderUpdate {
            status: None,
            filled_delta,
            quote_delta: Quantity::zero(),
            fee_delta: Quantity::zero(),
            canceled_by: None,
        }
    }

    /// An update that changes nothing.
    pub fn none() -> (u: OrderUpdate)
        ensures
            u.status is None,
            u.filled_delta@ == 0 && u.quote_delta@ == 0 && u.fee_delta@ == 0,
            u.canceled_by is None,
    {
        OrderUpdate {
            status: None,
            filled_delta: Quantity::zero(),
            quote_delta: Quantity::zero(),
            fee_delta: Quantity::zero(),
            canceled_by: None,
        }
    }

    /// Apply the update to the order record; returns whether the record
    /// changed. A move to canceled records who canceled. The filled quantity never passes the order's quantity, and the
    /// filled, quote and fee totals never decrease.
    pub fn apply(self, order: &mut OrderRecord) -> (changed: bool)
        requires
            update_applies(*old(order), self),
        ensures
            applied(*old(order), *final(order), self),
            changed == update_changes(*old(order), self),
    {
        let mut changed = false;
        match self.status {
            Some(new_status) => {
                if new_status != order.status {
                    changed = true;
                    order.status = new_status;
                    if let OrderStatus::Canceled(_) = new_status {
                        order.canceled_by = self.canceled_by;
                    }
                }
            },
            None => {},
        }
        if !self.filled_delta.is_zero() {
            changed = true;
            order.filled_quantity = order.filled_quantity.checked_add(self.filled_delta).unwrap();
        }
        if !self.quote_delta.is_zero() {
            changed = true;
            order.filled_quote = order.filled_quote.checked_add(self.quote_delta).unwrap();
        }
        if !self.fee_delta.is_zero() {
            changed = true;
            order.filled_fee = order.filled_fee.checked_add(self.fee_delta).unwrap();
        }
        changed
    }
}

/// Applying an update never lowers any cumulative amount, and never takes
/// the filled quantity past the order's quantity.
pub proof fn lemma_update_monotonic(before: OrderRecord, after: OrderRecord, u: OrderUpdate)
    requires
        update_applies(before, u),
        applied(before, after, u),
    ensures
        before.filled_quantity@ <= after.filled_quantity@,
        u.filled_delta@ != 0 || before.filled_quantity@ <= before.quantity@ ==> after.filled_quantity@ <= after.quantity@,
        before.filled_quote@ <= after.filled_quote@,
        before.filled_fee@ <= after.filled_fee@,
{
}

} // verus!
