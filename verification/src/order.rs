//! Order-level value types: sides, statuses, pending/resting orders.
use vstd::prelude::*;
use crate::ids::OrderSeq;
use crate::quantity::{Price, Quantity};

verus! {

/// Selector for the base or quote token of a trading pair.
#[derive(Clone, Copy, PartialEq, Eq, Debug, Structural)]
pub enum PairToken {
    Base,
    Quote,
}

#[derive(Debug, Clone, Copy, PartialEq, Eq, Hash, Structural)]
pub enum Side {
    Buy,
    Sell,
}

impl Side {
    /// The other side of the book.
    pub fn opposite(self) -> (r: Side)
        ensures
            r != self,
    {
        match self {
            Side::Buy => Side::Sell,
            Side::Sell => Side::Buy,
        }
    }
}

/// How long an order may stay on the book.
#[derive(Debug, Clone, Copy, PartialEq, Eq, Structural)]
pub enum TimeInForce {
    /// Rests on the book until filled or canceled.
    GoodTilCanceled,
    /// Must fill completely on arrival or is killed without touching the book.
    FillOrKill,
}

/// Fill information captured when an order transitions to `Canceled`.
#[derive(Debug, Clone, Copy, PartialEq, Eq, Structural)]
pub struct CanceledOrderInfo {
    /// Quantity still open at the moment of cancel; it will never be filled.
    pub remaining_quantity: Quantity,
}

/// Lifecycle state of an order.
#[derive(Debug, Clone, Copy, PartialEq, Eq, Structural)]
pub enum OrderStatus {
    Pending,
    Open,
    Filled,
    Canceled(CanceledOrderInfo),
    /// A fill-or-kill order that could not fill completely.
    Expired,
}

/// Symbol and decimals of a token.
#[derive(Debug, Clone, PartialEq, Eq)]
pub struct TokenMetadata {
    pub symbol: String,
    pub decimals: u8,
}

/// A `Nat` value exceeded the 256-bit capacity of a quantity.
#[derive(Debug, Clone, PartialEq, Eq, Structural)]
pub struct QuantityOverflowError;

/// An order as submitted, before it is assigned a sequence number.
#[derive(Debug, Clone, Copy, PartialEq, Eq, Structural)]
pub struct PendingOrder {
    pub side: Side,
    pub price: Price,
    pub quantity: Quantity,
    pub time_in_force: TimeInForce,
}

impl PendingOrder {
    pub fn into_order(self, id: OrderSeq) -> (o: Order)
        ensures
            o.spec_id() == id,
            o.spec_side() == self.side,
            o.spec_price() == self.price,
            o.spec_remaining() == self.quantity,
            o.spec_time_in_force() == self.time_in_force,
    {
        Order {
            id,
            side: self.side,
            price: self.price,
            remaining_quantity: self.quantity,
            time_in_force: self.time_in_force,
        }
    }
}

/// An order with its sequence number and remaining (unfilled) quantity.
#[derive(Clone, Copy, Debug, PartialEq, Eq, Structural)]
pub struct Order {
    id: OrderSeq,
    side: Side,
    price: Price,
    remaining_quantity: Quantity,
    time_in_force: TimeInForce,
}

impl Order {
    pub closed spec fn spec_id(&self) -> OrderSeq {
        self.id
    }

    pub closed spec fn spec_side(&self) -> Side {
        self.side
    }

    pub closed spec fn spec_price(&self) -> Price {
        self.price
    }

    pub closed spec fn spec_remaining(&self) -> Quantity {
        self.remaining_quantity
    }

    pub closed spec fn spec_time_in_force(&self) -> TimeInForce {
        self.time_in_force
    }

    /// The same order with its remaining quantity replaced.
    pub closed spec fn with_remaining(&self, q: Quantity) -> Order {
        Order { remaining_quantity: q, ..*self }
    }

    pub broadcast proof fn lemma_with_remaining(o: Order, q: Quantity)
        ensures
            #[trigger] o.with_remaining(q).spec_remaining() == q,
            o.with_remaining(q).spec_id() == o.spec_id(),
            o.with_remaining(q).spec_side() == o.spec_side(),
            o.with_remaining(q).spec_price() == o.spec_price(),
            o.with_remaining(q).spec_time_in_force() == o.spec_time_in_force(),
    {
    }

    pub fn id(&self) -> (r: OrderSeq)
        ensures
            r == self.spec_id(),
    {
        self.id
    }

    pub fn side(&self) -> (r: Side)
        ensures
            r == self.spec_side(),
    {
        self.side
    }

    pub fn price(&self) -> (r: Price)
        ensures
            r == self.spec_price(),
    {
        self.price
    }

    pub fn remaining_quantity(&self) -> (r: &Quantity)
        ensures
            *r == self.spec_remaining(),
    {
        &self.remaining_quantity
    }

    pub fn time_in_force(&self) -> (r: TimeInForce)
        ensures
            r == self.spec_time_in_force(),
    {
        self.time_in_force
    }

    /// Reduce the remaining quantity by `amount`, which must not exceed it.
    pub fn reduce_quantity(&mut self, amount: &Quantity)
        requires
            amount@ <= old(self).spec_remaining()@,
        ensures
            final(self).spec_remaining()@ == old(self).spec_remaining()@ - amount@,
            final(self).spec_id() == old(self).spec_id(),
            final(self).spec_side() == old(self).spec_side(),
            final(self).spec_price() == old(self).spec_price(),
            final(self).spec_time_in_force() == old(self).spec_time_in_force(),
    {
        self.remaining_quantity = self.remaining_quantity.checked_sub(*amount).unwrap();
    }
}

/// An order resting in the book: only its sequence and remaining quantity;
/// side and price are implied by where it rests.
#[derive(Clone, Copy, Debug, PartialEq, Eq, Structural)]
pub struct RestingOrder {
    id: OrderSeq,
    remaining_quantity: Quantity,
}

impl RestingOrder {
    pub closed spec fn spec_id(&self) -> OrderSeq {
        self.id
    }

    pub closed spec fn spec_remaining(&self) -> Quantity {
        self.remaining_quantity
    }

    pub closed spec fn spec_new(id: OrderSeq, remaining: Quantity) -> RestingOrder {
        RestingOrder { id, remaining_quantity: remaining }
    }

    pub broadcast proof fn lemma_spec_new(id: OrderSeq, remaining: Quantity)
        ensures
            #![trigger RestingOrder::spec_new(id, remaining)]
            RestingOrder::spec_new(id, remaining).spec_id() == id,
            RestingOrder::spec_new(id, remaining).spec_remaining() == remaining,
    {
    }

    pub broadcast proof fn lemma_ext(a: RestingOrder, b: RestingOrder)
        ensures
            (#[trigger] a.spec_id() == #[trigger] b.spec_id() && a.spec_remaining() == b.spec_remaining()) ==> a == b,
    {
    }

    /// The resting part of an order.
    pub fn from_order(order: Order) -> (r: RestingOrder)
        ensures
            r.spec_id() == order.spec_id(),
            r.spec_remaining() == order.spec_remaining(),
    {
        RestingOrder { id: order.id, remaining_quantity: order.remaining_quantity }
    }

    /// A resting order with the given sequence and remaining quantity.
    pub fn new(id: OrderSeq, remaining_quantity: Quantity) -> (r: RestingOrder)
        ensures
            r.spec_id() == id,
            r.spec_remaining() == remaining_quantity,
    {
        RestingOrder { id, remaining_quantity }
    }

    /// The full order reconstructed from its side and price.
    pub closed spec fn to_order_spec(&self, side: Side, price: Price) -> Order {
        Order {
            id: self.id,
            side,
            price,
            remaining_quantity: self.remaining_quantity,
            time_in_force: TimeInForce::GoodTilCanceled,
        }
    }

    /// The order reconstructed from a resting order keeps its sequence and
    /// remaining quantity, takes the given side and price, and is
    /// good-til-canceled.
    pub broadcast proof fn lemma_to_order_spec(r: RestingOrder, side: Side, price: Price)
        ensures
            #[trigger] r.to_order_spec(side, price).spec_id() == r.spec_id(),
            r.to_order_spec(side, price).spec_side() == side,
            r.to_order_spec(side, price).spec_price() == price,
            r.to_order_spec(side, price).spec_remaining() == r.spec_remaining(),
            r.to_order_spec(side, price).spec_time_in_force() == TimeInForce::GoodTilCanceled,
    {
    }

    /// Reconstruct the full order from its side and price (good-til-canceled,
    /// as every resting order is).
    pub fn to_order(&self, side: Side, price: Price) -> (o: Order)
        ensures
            o == self.to_order_spec(side, price),
            o.spec_id() == self.spec_id(),
            o.spec_side() == side,
            o.spec_price() == price,
            o.spec_remaining() == self.spec_remaining(),
            o.spec_time_in_force() == TimeInForce::GoodTilCanceled,
    {
        Order {
            id: self.id,
            side,
            price,
            remaining_quantity: self.remaining_quantity,
            time_in_force: TimeInForce::GoodTilCanceled,
        }
    }

    pub fn id(&self) -> (r: OrderSeq)
        ensures
            r == self.spec_id(),
    {
        self.id
    }

    pub fn remaining_quantity(&self) -> (r: &Quantity)
        ensures
            *r == self.spec_remaining(),
    {
        &self.remaining_quantity
    }

    /// Reduce the remaining quantity by `amount`, which must not exceed it.
    pub fn reduce_quantity(&mut self, amount: &Quantity)
        requires
            amount@ <= old(self).spec_remaining()@,
        ensures
            final(self).spec_remaining()@ == old(self).spec_remaining()@ - amount@,
            final(self).spec_id() == old(self).spec_id(),
    {
        self.remaining_quantity = self.remaining_quantity.checked_sub(*amount).unwrap();
    }
}

} // verus!
