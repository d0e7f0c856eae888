//! Settling fills and removed orders: the notional and fees of a fill, the
//! balance operations it settles into, and the two trade legs it leaves.
use vstd::prelude::*;
use crate::book::{Fill, RemovedOrder};
use crate::fees::{fee_ceil, FeeRates};
use crate::ids::{FillSeq, OrderBookId, OrderId, OrderSeq, TradeId};
use crate::order::{PairToken, Side};
use crate::quantity::{pow2_256, Price, Quantity};
use crate::scheduler::Timestamp;

verus! {

broadcast use {Quantity::lemma_view_injective, Quantity::lemma_bound};

/// A balance change a settlement asks for, addressed by order.
#[derive(Debug, Clone, Copy, PartialEq, Eq, Structural)]
pub enum BalanceOperation {
    /// Move `amount` of `token` from the reserved funds of `from_order`'s
    /// owner to the free funds of `to_order`'s owner, less `fee` when charged.
    Transfer { from_order: OrderSeq, to_order: OrderSeq, token: PairToken, amount: Quantity, fee: Option<Quantity> },
    /// Release `amount` of `token` reserved for `order` back to its owner.
    Unreserve { order: OrderSeq, token: PairToken, amount: Quantity },
}

/// `price × quantity` is below 2^256 and divisible by `base_scale`: the
/// quote amount `price × quantity / base_scale` is exact.
pub open spec fn settles_exactly(price: nat, quantity: nat, base_scale: u64) -> bool {
    &&& base_scale != 0
    &&& price * quantity < pow2_256()
    &&& (price * quantity) % (base_scale as nat) == 0
}

/// The quote amount of `quantity` base units at `price`.
pub open spec fn notional_value(price: nat, quantity: nat, base_scale: u64) -> nat {
    price * quantity / (base_scale as nat)
}

/// A fill's `(notional, taker_fee, maker_fee)`: each side pays its rate in the
/// token it receives (the buyer in base, the seller in quote), rounded up.
pub open spec fn fee_values(price: nat, quantity: nat, taker_side: Side, rates: FeeRates, base_scale: u64) -> (nat, nat, nat) {
    let (buyer_rate, seller_rate) = match taker_side {
        Side::Buy => (rates.taker@ as nat, rates.maker@ as nat),
        Side::Sell => (rates.maker@ as nat, rates.taker@ as nat),
    };
    let notional = notional_value(price, quantity, base_scale);
    let quote_fee = fee_ceil(notional, seller_rate);
    let base_fee = fee_ceil(quantity, buyer_rate);
    match taker_side {
        Side::Buy => (notional, base_fee, quote_fee),
        Side::Sell => (notional, quote_fee, base_fee),
    }
}

/// A fill's notional and the fees of its two orders.
fn fees(maker_price: Price, quantity: Quantity, taker_side: Side, fee_rates: FeeRates, base_scale: u64) -> (r: (Quantity, Quantity, Quantity))
    requires
        settles_exactly(maker_price@ as nat, quantity@, base_scale),
    ensures
        (r.0@, r.1@, r.2@) == fee_values(maker_price@ as nat, quantity@, taker_side, fee_rates, base_scale),
{
    let (buyer_rate, seller_rate) = match taker_side {
        Side::Buy => (fee_rates.taker, fee_rates.maker),
        Side::Sell => (fee_rates.maker, fee_rates.taker),
    };
    let notional = maker_price.checked_mul_quantity_scaled(&quantity, base_scale).unwrap();
    let quote_fee = seller_rate.mul_ceil(notional);
    let base_fee = buyer_rate.mul_ceil(quantity);
    match taker_side {
        Side::Buy => (notional, base_fee, quote_fee),
        Side::Sell => (notional, quote_fee, base_fee),
    }
}

/// The quote a buy taker reserved beyond what it paid: `(limit − price) × quantity / base_scale`
/// when it bought below its limit, zero otherwise.
pub open spec fn surplus_value(fill: Fill, base_scale: u64) -> nat {
    if fill.taker_side == Side::Buy && fill.taker_price@ > fill.maker_price@ {
        notional_value((fill.taker_price@ - fill.maker_price@) as nat, fill.quantity@, base_scale)
    } else {
        0
    }
}

/// What a fill needs to settle exactly: its notional, and for a buy taker
/// below its limit also the released surplus.
pub open spec fn fill_settles(fill: Fill, base_scale: u64) -> bool {
    &&& settles_exactly(fill.maker_price@ as nat, fill.quantity@, base_scale)
    &&& (fill.taker_side == Side::Buy && fill.taker_price@ > fill.maker_price@) ==> settles_exactly(
        (fill.taker_price@ - fill.maker_price@) as nat,
        fill.quantity@,
        base_scale,
    )
}

/// `None` for a zero fee.
pub open spec fn nonzero_fee(q: Quantity) -> Option<Quantity> {
    if q@ == 0 { None } else { Some(q) }
}

fn nonzero(q: Quantity) -> (r: Option<Quantity>)
    ensures
        r == nonzero_fee(q),
{
    if q.is_zero() { None } else { Some(q) }
}

/// A fill together with the values derived from it: the quote notional, the
/// fee of each order in its receive token, and the surplus released to a buy
/// taker that crossed below its limit.
#[derive(Debug)]
pub struct FillSettlement {
    fill: Fill,
    fill_seq: FillSeq,
    notional: Quantity,
    taker_fee: Quantity,
    maker_fee: Quantity,
    surplus: Quantity,
    fee_rates: FeeRates,
}

/// The balance operations a settled fill makes, in order: the quote paid by
/// the buyer to the seller, the surplus released to a buy taker (if any),
/// and the base delivered by the seller to the buyer.
pub open spec fn fill_operations(fill: Fill, notional: Quantity, taker_fee: Quantity, maker_fee: Quantity, surplus: Quantity) -> Seq<BalanceOperation> {
    let (buyer, seller) = match fill.taker_side {
        Side::Buy => (fill.taker_order_seq, fill.maker_order_seq),
        Side::Sell => (fill.maker_order_seq, fill.taker_order_seq),
    };
    let (quote_fee, base_fee) = match fill.taker_side {
        Side::Buy => (maker_fee, taker_fee),
        Side::Sell => (taker_fee, maker_fee),
    };
    let quote = BalanceOperation::Transfer {
        from_order: buyer,
        to_order: seller,
        token: PairToken::Quote,
        amount: notional,
        fee: nonzero_fee(quote_fee),
    };
    let base = BalanceOperation::Transfer {
        from_order: seller,
        to_order: buyer,
        token: PairToken::Base,
        amount: fill.quantity,
        fee: nonzero_fee(base_fee),
    };
    if surplus@ == 0 {
        seq![quote, base]
    } else {
        seq![quote, BalanceOperation::Unreserve { order: fill.taker_order_seq, token: PairToken::Quote, amount: surplus }, base]
    }
}

/// The fee a balance operation withholds: the fee of a transfer, nothing
/// for a release.
pub open spec fn withheld_fee(op: BalanceOperation) -> nat {
    match op {
        BalanceOperation::Transfer { fee: Some(f), .. } => f@,
        _ => 0,
    }
}

/// The fees a list of balance operations withholds in all.
pub open spec fn fees_withheld(ops: Seq<BalanceOperation>) -> nat
    decreases ops.len(),
{
    if ops.len() == 0 {
        0
    } else {
        fees_withheld(ops.drop_last()) + withheld_fee(ops.last())
    }
}

proof fn lemma_fees_withheld_append(a: Seq<BalanceOperation>, b: Seq<BalanceOperation>)
    ensures
        fees_withheld(a + b) == fees_withheld(a) + fees_withheld(b),
    decreases b.len(),
{
    if b.len() == 0 {
        assert(a + b =~= a);
    } else {
        lemma_fees_withheld_append(a, b.drop_last());
        assert((a + b).drop_last() =~= a + b.drop_last());
    }
}

/// The fee rate of the order that buys in a fill: the taker's when the taker
/// buys, the maker's when the taker sells.
pub open spec fn buyer_rate(taker_side: Side, rates: FeeRates) -> nat {
    match taker_side {
        Side::Buy => rates.taker@ as nat,
        Side::Sell => rates.maker@ as nat,
    }
}

/// The fee rate of the order that sells in a fill.
pub open spec fn seller_rate(taker_side: Side, rates: FeeRates) -> nat {
    match taker_side {
        Side::Buy => rates.maker@ as nat,
        Side::Sell => rates.taker@ as nat,
    }
}

impl FillSettlement {
    pub closed spec fn spec_fill(&self) -> Fill {
        self.fill
    }

    pub closed spec fn spec_fill_seq(&self) -> FillSeq {
        self.fill_seq
    }

    pub closed spec fn spec_notional(&self) -> Quantity {
        self.notional
    }

    pub closed spec fn spec_taker_fee(&self) -> Quantity {
        self.taker_fee
    }

    pub closed spec fn spec_maker_fee(&self) -> Quantity {
        self.maker_fee
    }

    pub closed spec fn spec_surplus(&self) -> Quantity {
        self.surplus
    }

    pub closed spec fn spec_fee_rates(&self) -> FeeRates {
        self.fee_rates
    }

    /// The fill.
    pub fn fill(&self) -> (r: &Fill)
        ensures
            *r == self.spec_fill(),
    {
        &self.fill
    }

    /// The fill's quote notional.
    pub fn notional(&self) -> (r: Quantity)
        ensures
            r == self.spec_notional(),
    {
        self.notional
    }

    /// The taker's fee, in the token the taker receives.
    pub fn taker_fee(&self) -> (r: Quantity)
        ensures
            r == self.spec_taker_fee(),
    {
        self.taker_fee
    }

    /// The maker's fee, in the token the maker receives.
    pub fn maker_fee(&self) -> (r: Quantity)
        ensures
            r == self.spec_maker_fee(),
    {
        self.maker_fee
    }

    /// Compute the values of fill number `fill_seq` once.
    pub fn new(fill: Fill, fill_seq: FillSeq, fee_rates: FeeRates, base_scale: u64) -> (r: FillSettlement)
        requires
            fill_settles(fill, base_scale),
        ensures
            r.spec_fill() == fill,
            r.spec_fill_seq() == fill_seq,
            r.spec_fee_rates() == fee_rates,
            (r.spec_notional()@, r.spec_taker_fee()@, r.spec_maker_fee()@) == fee_values(
                fill.maker_price@ as nat,
                fill.quantity@,
                fill.taker_side,
                fee_rates,
                base_scale,
            ),
            r.spec_surplus()@ == surplus_value(fill, base_scale),
    {
        let (notional, taker_fee, maker_fee) = fees(fill.maker_price, fill.quantity, fill.taker_side, fee_rates, base_scale);
        let surplus = match fill.taker_side {
            Side::Buy => match fill.taker_price.checked_sub(fill.maker_price) {
                Some(diff) => if !diff.is_zero() {
                    diff.checked_mul_quantity_scaled(&fill.quantity, base_scale).unwrap()
                } else {
                    Quantity::zero()
                },
                None => Quantity::zero(),
            },
            Side::Sell => Quantity::zero(),
        };
        FillSettlement { fill, fill_seq, notional, taker_fee, maker_fee, surplus, fee_rates }
    }

    /// Append the balance operations of this fill to `ops`.
    pub fn push_balance_operations(&self, ops: &mut Vec<BalanceOperation>)
        ensures
            final(ops)@ == old(ops)@ + fill_operations(
                self.spec_fill(),
                self.spec_notional(),
                self.spec_taker_fee(),
                self.spec_maker_fee(),
                self.spec_surplus(),
            ),
            fees_withheld(final(ops)@) == fees_withheld(old(ops)@) + self.spec_taker_fee()@ + self.spec_maker_fee()@,
            ({
                let fill = self.spec_fill();
                let (buyer, seller, buyer_fee, seller_fee) = match fill.taker_side {
                    Side::Buy => (fill.taker_order_seq, fill.maker_order_seq, self.spec_taker_fee()@, self.spec_maker_fee()@),
                    Side::Sell => (fill.maker_order_seq, fill.taker_order_seq, self.spec_maker_fee()@, self.spec_taker_fee()@),
                };
                let n = old(ops)@.len() as int;
                let added = final(ops)@.len() - n;
                &&& added == if self.spec_surplus()@ == 0 { 2int } else { 3int }
                &&& final(ops)@[n] matches BalanceOperation::Transfer { from_order, to_order, token, amount, .. }
                    && from_order == buyer && to_order == seller && token == PairToken::Quote && amount == self.spec_notional()
                &&& withheld_fee(final(ops)@[n]) == seller_fee
                &&& self.spec_surplus()@ != 0 ==> final(ops)@[n + 1] == (BalanceOperation::Unreserve {
                    order: fill.taker_order_seq,
                    token: PairToken::Quote,
                    amount: self.spec_surplus(),
                })
                &&& final(ops)@.last() matches BalanceOperation::Transfer { from_order, to_order, token, amount, .. }
                    && from_order == seller && to_order == buyer && token == PairToken::Base && amount == fill.quantity
                &&& withheld_fee(final(ops)@.last()) == buyer_fee
            }),
    {
        let fill = &self.fill;
        let (buyer_seq, seller_seq) = match fill.taker_side {
            Side::Buy => (fill.taker_order_seq, fill.maker_order_seq),
            Side::Sell => (fill.maker_order_seq, fill.taker_order_seq),
        };
        let (quote_fee, base_fee) = match fill.taker_side {
            Side::Buy => (self.maker_fee, self.taker_fee),
            Side::Sell => (self.taker_fee, self.maker_fee),
        };
        let ghost before = ops@;
        ops.push(BalanceOperation::Transfer {
            from_order: buyer_seq,
            to_order: seller_seq,
            token: PairToken::Quote,
            amount: self.notional,
            fee: nonzero(quote_fee),
        });
        if !self.surplus.is_zero() {
            ops.push(BalanceOperation::Unreserve { order: fill.taker_order_seq, token: PairToken::Quote, amount: self.surplus });
        }
        ops.push(BalanceOperation::Transfer {
            from_order: seller_seq,
            to_order: buyer_seq,
            token: PairToken::Base,
            amount: fill.quantity,
            fee: nonzero(base_fee),
        });
        proof {
            let ops_spec = fill_operations(self.fill, self.notional, self.taker_fee, self.maker_fee, self.surplus);
            assert(ops@ =~= before + ops_spec);
            lemma_fees_withheld_append(before, ops_spec);
            lemma_fill_operations_fees(self.fill, self.notional, self.taker_fee, self.maker_fee, self.surplus);
        }
    }

    /// The record persisted for this fill: its identity, quantity and the fee rates.
    pub fn fill_event(&self) -> (e: FillEvent)
        ensures
            e == (FillEvent {
                fill_seq: self.spec_fill_seq(),
                taker_order_seq: self.spec_fill().taker_order_seq,
                maker_order_seq: self.spec_fill().maker_order_seq,
                quantity: self.spec_fill().quantity,
                fee_rates: self.spec_fee_rates(),
            }),
    {
        FillEvent {
            fill_seq: self.fill_seq,
            taker_order_seq: self.fill.taker_order_seq,
            maker_order_seq: self.fill.maker_order_seq,
            quantity: self.fill.quantity,
            fee_rates: self.fee_rates,
        }
    }
}

/// What a fill's operations withhold, whatever their amounts.
proof fn lemma_fill_operations_fees(fill: Fill, notional: Quantity, taker_fee: Quantity, maker_fee: Quantity, surplus: Quantity)
    ensures
        ({
            let ops = fill_operations(fill, notional, taker_fee, maker_fee, surplus);
            let (buyer, seller, buyer_fee, seller_fee) = match fill.taker_side {
                Side::Buy => (fill.taker_order_seq, fill.maker_order_seq, taker_fee@, maker_fee@),
                Side::Sell => (fill.maker_order_seq, fill.taker_order_seq, maker_fee@, taker_fee@),
            };
            &&& ops.len() >= 2
            &&& fees_withheld(ops) == taker_fee@ + maker_fee@
            &&& ops[0] matches BalanceOperation::Transfer { from_order, to_order, token, amount, .. }
                && from_order == buyer && to_order == seller && token == PairToken::Quote && amount == notional
            &&& withheld_fee(ops[0]) == seller_fee
            &&& ops.last() matches BalanceOperation::Transfer { from_order, to_order, token, amount, .. }
                && from_order == seller && to_order == buyer && token == PairToken::Base && amount == fill.quantity
            &&& withheld_fee(ops.last()) == buyer_fee
        }),
{
    let ops = fill_operations(fill, notional, taker_fee, maker_fee, surplus);
    reveal_with_fuel(fees_withheld, 4);
    if surplus@ == 0 {
        assert(ops.drop_last().drop_last() =~= Seq::<BalanceOperation>::empty());
    } else {
        assert(ops.drop_last().drop_last().drop_last() =~= Seq::<BalanceOperation>::empty());
    }
}

/// The fees a settled fill withholds are exactly the two fees of its orders,
/// each charged at its order's rate in the token the order receives: the
/// base delivered by the seller to the buyer carries the buyer's fee,
/// `⌈quantity × buyer rate / 10 000⌉`, and the quote paid by the buyer to
/// the seller carries the seller's fee, `⌈notional × seller rate / 10 000⌉`,
/// where the buyer's rate is the taker's when the taker buys and the
/// maker's when it sells. Between the two transfers stands a release of
/// quote to the taker exactly when a buy taker's limit left a nonzero
/// surplus, `(limit − price) × quantity / base_scale`.
pub proof fn lemma_fill_fees_withheld(s: FillSettlement, base_scale: u64)
    requires
        fill_settles(s.spec_fill(), base_scale),
        (s.spec_notional()@, s.spec_taker_fee()@, s.spec_maker_fee()@) == fee_values(
            s.spec_fill().maker_price@ as nat,
            s.spec_fill().quantity@,
            s.spec_fill().taker_side,
            s.spec_fee_rates(),
            base_scale,
        ),
        s.spec_surplus()@ == surplus_value(s.spec_fill(), base_scale),
    ensures
        ({
            let fill = s.spec_fill();
            let rates = s.spec_fee_rates();
            let ops = fill_operations(fill, s.spec_notional(), s.spec_taker_fee(), s.spec_maker_fee(), s.spec_surplus());
            let notional = fill.maker_price@ as nat * fill.quantity@ / (base_scale as nat);
            let buyer_fee = (fill.quantity@ * buyer_rate(fill.taker_side, rates) + 9999) / 10000;
            let seller_fee = (notional * seller_rate(fill.taker_side, rates) + 9999) / 10000;
            let released = if fill.taker_side == Side::Buy && fill.taker_price@ > fill.maker_price@ {
                (fill.taker_price@ - fill.maker_price@) as nat * fill.quantity@ / (base_scale as nat)
            } else {
                0
            };
            &&& ops.last() matches BalanceOperation::Transfer { token, amount, .. } && token == PairToken::Base
                && amount == fill.quantity
            &&& withheld_fee(ops.last()) == buyer_fee
            &&& ops[0] matches BalanceOperation::Transfer { token, amount, .. } && token == PairToken::Quote
                && amount@ == notional
            &&& withheld_fee(ops[0]) == seller_fee
            &&& fees_withheld(ops) == buyer_fee + seller_fee
            &&& if released != 0 {
                &&& ops.len() == 3
                &&& ops[1] matches BalanceOperation::Unreserve { order, token, amount } && order == fill.taker_order_seq
                    && token == PairToken::Quote && amount@ == released
            } else {
                ops.len() == 2
            }
        }),
{
    lemma_fill_operations_fees(s.spec_fill(), s.spec_notional(), s.spec_taker_fee(), s.spec_maker_fee(), s.spec_surplus());
}

/// One order's view of an execution.
#[derive(Debug, Clone, Copy, PartialEq, Eq, Structural)]
pub struct TradeRecord {
    pub side: Side,
    pub price: Price,
    pub quantity: Quantity,
    pub notional: Quantity,
    pub fee: Quantity,
    pub fee_token: PairToken,
    pub is_maker: bool,
    pub timestamp: Timestamp,
}

/// The lean per-fill record: the fill's identity, the matched quantity and
/// the fee rates at match time.
#[derive(Debug, Clone, Copy, PartialEq, Eq, Structural)]
pub struct FillEvent {
    pub fill_seq: FillSeq,
    pub taker_order_seq: OrderSeq,
    pub maker_order_seq: OrderSeq,
    pub quantity: Quantity,
    pub fee_rates: FeeRates,
}

/// The token a side's fee is charged in: a buyer pays in base, a seller in quote.
pub open spec fn fee_token_of(side: Side) -> PairToken {
    match side {
        Side::Buy => PairToken::Base,
        Side::Sell => PairToken::Quote,
    }
}

fn fee_token(side: Side) -> (r: PairToken)
    ensures
        r == fee_token_of(side),
{
    match side {
        Side::Buy => PairToken::Base,
        Side::Sell => PairToken::Quote,
    }
}

impl FillEvent {
    /// The taker leg and the maker leg of this fill, each keyed by its
    /// order's trade id: both at the maker price, with the recomputed
    /// notional and each order's fee in its receive token.
    pub fn trade_legs(
        &self,
        book_id: OrderBookId,
        taker_side: Side,
        maker_price: Price,
        base_scale: u64,
        timestamp: Timestamp,
    ) -> (legs: [(TradeId, TradeRecord); 2])
        requires
            settles_exactly(maker_price@ as nat, self.quantity@, base_scale),
        ensures
            ({
                let v = fee_values(maker_price@ as nat, self.quantity@, taker_side, self.fee_rates, base_scale);
                let maker_side = match taker_side {
                    Side::Buy => Side::Sell,
                    Side::Sell => Side::Buy,
                };
                &&& legs@[0].0.spec_order_id().spec_book_id() == book_id
                &&& legs@[0].0.spec_order_id().spec_seq() == self.taker_order_seq
                &&& legs@[0].0.spec_seq() == self.fill_seq
                &&& legs@[1].0.spec_order_id().spec_book_id() == book_id
                &&& legs@[1].0.spec_order_id().spec_seq() == self.maker_order_seq
                &&& legs@[1].0.spec_seq() == self.fill_seq
                &&& legs@[0].1.side == taker_side
                &&& legs@[1].1.side == maker_side
                &&& legs@[0].1.price == maker_price && legs@[1].1.price == maker_price
                &&& legs@[0].1.quantity == self.quantity && legs@[1].1.quantity == self.quantity
                &&& legs@[0].1.notional@ == v.0 && legs@[1].1.notional@ == v.0
                &&& legs@[0].1.fee@ == v.1 && legs@[1].1.fee@ == v.2
                &&& legs@[0].1.fee_token == fee_token_of(taker_side)
                &&& legs@[1].1.fee_token == fee_token_of(maker_side)
                &&& !legs@[0].1.is_maker && legs@[1].1.is_maker
                &&& legs@[0].1.timestamp == timestamp && legs@[1].1.timestamp == timestamp
            }),
    {
        let (notional, taker_fee, maker_fee) = fees(maker_price, self.quantity, taker_side, self.fee_rates, base_scale);
        let maker_side = taker_side.opposite();
        let taker_id = TradeId::new(OrderId::new(book_id, self.taker_order_seq), self.fill_seq);
        let taker_leg = TradeRecord {
            side: taker_side,
            price: maker_price,
            quantity: self.quantity,
            notional,
            fee: taker_fee,
            fee_token: fee_token(taker_side),
            is_maker: false,
            timestamp,
        };
        let maker_id = TradeId::new(OrderId::new(book_id, self.maker_order_seq), self.fill_seq);
        let maker_leg = TradeRecord {
            side: maker_side,
            price: maker_price,
            quantity: self.quantity,
            notional,
            fee: maker_fee,
            fee_token: fee_token(maker_side),
            is_maker: true,
            timestamp,
        };
        proof {
            assert(maker_side == match taker_side {
                Side::Buy => Side::Sell,
                Side::Sell => Side::Buy,
            });
        }
        [(taker_id, taker_leg), (maker_id, maker_leg)]
    }
}

/// The reservation an order held, by side: quote `price × remaining / base_scale`
/// for a buy, base `remaining` for a sell.
pub open spec fn released(removed: RemovedOrder, base_scale: u64) -> (PairToken, nat) {
    match removed.side {
        Side::Buy => (PairToken::Quote, notional_value(removed.price@ as nat, removed.remaining_quantity@, base_scale)),
        Side::Sell => (PairToken::Base, removed.remaining_quantity@),
    }
}

/// The settlement of a removed (canceled or killed) order: the reservation
/// released back to its owner.
#[derive(Debug)]
pub struct RemovedOrderSettlement {
    order_seq: OrderSeq,
    token: PairToken,
    amount: Quantity,
}

impl RemovedOrderSettlement {
    pub closed spec fn spec_order_seq(&self) -> OrderSeq {
        self.order_seq
    }

    pub closed spec fn spec_token(&self) -> PairToken {
        self.token
    }

    pub closed spec fn spec_amount(&self) -> Quantity {
        self.amount
    }

    /// Compute the reservation released by removing an order.
    pub fn new(order_seq: OrderSeq, removed: &RemovedOrder, base_scale: u64) -> (r: RemovedOrderSettlement)
        requires
            removed.side == Side::Buy ==> settles_exactly(removed.price@ as nat, removed.remaining_quantity@, base_scale),
        ensures
            r.spec_order_seq() == order_seq,
            (r.spec_token(), r.spec_amount()@) == released(*removed, base_scale),
    {
        let (token, amount) = match removed.side {
            Side::Buy => (
                PairToken::Quote,
                removed.price.checked_mul_quantity_scaled(&removed.remaining_quantity, base_scale).unwrap(),
            ),
            Side::Sell => (PairToken::Base, removed.remaining_quantity),
        };
        RemovedOrderSettlement { order_seq, token, amount }
    }

    /// Append the single operation that releases the reservation.
    pub fn push_balance_operations(&self, ops: &mut Vec<BalanceOperation>)
        ensures
            final(ops)@ == old(ops)@.push(
                BalanceOperation::Unreserve { order: self.spec_order_seq(), token: self.spec_token(), amount: self.spec_amount() },
            ),
    {
        ops.push(BalanceOperation::Unreserve { order: self.order_seq, token: self.token, amount: self.amount });
    }
}

/// A fill's fees never exceed what each side receives: the taker's and the
/// maker's fee are each at most the amount of the token they are charged in.
pub proof fn lemma_fees_bounded(price: nat, quantity: nat, taker_side: Side, rates: FeeRates, base_scale: u64)
    requires
        rates.maker@ <= 10_000,
        rates.taker@ <= 10_000,
    ensures
        ({
            let v = fee_values(price, quantity, taker_side, rates, base_scale);
            match taker_side {
                Side::Buy => v.1 <= quantity && v.2 <= v.0,
                Side::Sell => v.1 <= v.0 && v.2 <= quantity,
            }
        }),
{
    let n = notional_value(price, quantity, base_scale);
    lemma_fee_ceil_bounded(n, rates.maker@ as nat);
    lemma_fee_ceil_bounded(n, rates.taker@ as nat);
    lemma_fee_ceil_bounded(quantity, rates.maker@ as nat);
    lemma_fee_ceil_bounded(quantity, rates.taker@ as nat);
}

proof fn lemma_fee_ceil_bounded(amount: nat, bps: nat)
    ensures
        bps <= 10_000 ==> fee_ceil(amount, bps) <= amount,
{
    if bps <= 10_000 {
        assert((amount * bps + 9999) / 10000 <= amount) by (nonlinear_arith)
            requires bps <= 10000;
    }
}

} // verus!
