//! Central limit order book for one trading pair: price-time priority
//! matching, resting, cancellation and depth queries.
//!
//! Each side is kept as one sequence of resting orders in priority order:
//! bids by price descending, asks by price ascending, and FIFO within a price.
use vstd::prelude::*;
use crate::fees::FeeRates;
use crate::ids::{OrderBookId, OrderSeq};
use crate::order::{Order, RestingOrder, Side, TimeInForce};
use crate::plan::{FillPlan, PlanOutcome};
use crate::quantity::{pow2_256, LotSize, Price, Quantity, TickSize};

verus! {

broadcast use {
    Quantity::lemma_from_value,
    Quantity::lemma_bound,
    Quantity::lemma_view_injective,
    Order::lemma_with_remaining,
    OrderSeq::lemma_view_injective,
    Price::lemma_view_injective,
    RestingOrder::lemma_spec_new,
    RestingOrder::lemma_ext,
    RestingOrder::lemma_to_order_spec,
};

/// A resting order together with the price it rests at.
#[derive(Clone, Copy, Debug, PartialEq, Eq, Structural)]
pub struct BookEntry {
    pub price: Price,
    pub order: RestingOrder,
}

/// A single fill produced when an incoming order matches a resting order.
#[derive(Debug, Clone, Copy, PartialEq, Eq, Structural)]
pub struct Fill {
    /// The sequence of the incoming (taker) order.
    pub taker_order_seq: OrderSeq,
    /// The side of the taker order.
    pub taker_side: Side,
    /// The limit price of the taker order.
    pub taker_price: Price,
    /// The sequence of the resting (maker) order that was matched.
    pub maker_order_seq: OrderSeq,
    /// The price at which the fill occurred (always the maker's price).
    pub maker_price: Price,
    /// The quantity filled.
    pub quantity: Quantity,
}

/// Why an order was rejected by the book.
#[derive(Debug, Clone, Copy, PartialEq, Eq, Structural)]
pub enum MatchOrderError {
    /// Price is not a positive multiple of the tick size.
    InvalidTickSize { price: Price, tick_size: TickSize },
    /// Quantity is not a positive multiple of the lot size.
    InvalidLotSize { quantity: Quantity, lot_size: LotSize },
}

/// The order notional lies outside the book's `[min_notional, max_notional]` bounds.
#[derive(Debug, Clone, Copy, PartialEq, Eq, Structural)]
pub struct NotionalError {
    pub notional: Quantity,
    pub min: Quantity,
    pub max: Option<Quantity>,
}

/// An order removed from the book (canceled, or killed unfilled).
#[derive(Debug, Clone, Copy, PartialEq, Eq, Structural)]
pub struct RemovedOrder {
    pub side: Side,
    pub price: Price,
    pub remaining_quantity: Quantity,
}

/// The result of matching an incoming order against the book.
#[derive(Debug, PartialEq, Eq)]
pub enum MatchResult {
    /// The order was fully filled and does not rest in the book.
    Filled { fills: Vec<Fill> },
    /// The order was partially filled and the remainder now rests in the book.
    PartiallyFilled { fills: Vec<Fill>, resting_order_seq: OrderSeq },
    /// No match was found; the order rests in the book.
    Resting { resting_order_seq: OrderSeq },
    /// A fill-or-kill order that could not fill completely; the book is untouched.
    Killed { killed_order_seq: OrderSeq },
}

impl MatchResult {
    /// The fills carried by the result (none for `Resting` and `Killed`).
    pub open spec fn spec_fills(&self) -> Seq<Fill> {
        match self {
            MatchResult::Filled { fills } => fills@,
            MatchResult::PartiallyFilled { fills, .. } => fills@,
            _ => Seq::empty(),
        }
    }

    pub fn fills(&self) -> (r: &[Fill])
        ensures
            r@ == self.spec_fills(),
    {
        match self {
            MatchResult::Filled { fills } => fills.as_slice(),
            MatchResult::PartiallyFilled { fills, .. } => fills.as_slice(),
            _ => &[],
        }
    }

    /// The sequence of the order left resting, if any.
    pub fn resting_order_seq(&self) -> (r: Option<OrderSeq>)
        ensures
            r == match self {
                MatchResult::PartiallyFilled { resting_order_seq, .. } => Some(*resting_order_seq),
                MatchResult::Resting { resting_order_seq } => Some(*resting_order_seq),
                _ => None::<OrderSeq>,
            },
    {
        match self {
            MatchResult::PartiallyFilled { resting_order_seq, .. } => Some(*resting_order_seq),
            MatchResult::Resting { resting_order_seq } => Some(*resting_order_seq),
            _ => None,
        }
    }

    pub fn into_fills(self) -> (r: Vec<Fill>)
        ensures
            r@ == self.spec_fills(),
    {
        match self {
            MatchResult::Filled { fills } => fills,
            MatchResult::PartiallyFilled { fills, .. } => fills,
            _ => Vec::new(),
        }
    }
}

impl Fill {
    /// The amount of quote tokens exchanged: `maker_price × quantity / base_scale`.
    pub fn quote_amount(&self, base_scale: u64) -> (r: Quantity)
        requires
            base_scale != 0,
            self.maker_price@ * self.quantity@ < pow2_256(),
            (self.maker_price@ * self.quantity@) % (base_scale as int) == 0,
        ensures
            r@ == self.maker_price@ * self.quantity@ / (base_scale as int),
    {
        self.maker_price.checked_mul_quantity_scaled(&self.quantity, base_scale).unwrap()
    }

    /// The amount of base tokens exchanged (same as quantity).
    pub fn base_amount(&self) -> (r: &Quantity)
        ensures
            *r == self.quantity,
    {
        &self.quantity
    }
}

// ---------------------------------------------------------------------------
// Specification of price-time priority matching
// ---------------------------------------------------------------------------

/// Whether a resting order at `maker_price` is acceptable to a taker on
/// `taker_side` with limit `limit`.
pub open spec fn crosses(taker_side: Side, limit: Price, maker_price: Price) -> bool {
    match taker_side {
        Side::Buy => maker_price@ <= limit@,
        Side::Sell => maker_price@ >= limit@,
    }
}

/// Whether `p` has strictly better priority than `q` on `side`
/// (higher for bids, lower for asks).
pub open spec fn better(side: Side, p: Price, q: Price) -> bool {
    match side {
        Side::Buy => p@ > q@,
        Side::Sell => p@ < q@,
    }
}

/// Entries are in priority order for `side`.
pub open spec fn sorted_side(s: Seq<BookEntry>, side: Side) -> bool {
    forall|i: int, j: int| 0 <= i < j < s.len() ==> !better(side, #[trigger] s[j].price, #[trigger] s[i].price)
}

/// Remaining quantity of an entry.
pub open spec fn qty(e: BookEntry) -> nat {
    e.order.spec_remaining()@
}

/// Sequence of an entry.
pub open spec fn eseq(e: BookEntry) -> OrderSeq {
    e.order.spec_id()
}

/// Walking the makers best-first, a taker with `rem` left consumes makers in
/// full while they cross and fit; the result is `(k, p, r)`: `k` makers
/// consumed in full, then a partial fill of `p` (zero if none) against maker
/// `k`, leaving `r` of the taker unfilled.
pub open spec fn sweep(makers: Seq<BookEntry>, taker_side: Side, limit: Price, rem: nat) -> (nat, nat, nat)
    decreases makers.len(),
{
    if rem == 0 || makers.len() == 0 || !crosses(taker_side, limit, makers[0].price) {
        (0, 0, rem)
    } else if qty(makers[0]) <= rem {
        let r = sweep(makers.drop_first(), taker_side, limit, (rem - qty(makers[0])) as nat);
        (r.0 + 1, r.1, r.2)
    } else {
        (0, rem, 0)
    }
}

/// The fill of `q` between `taker` and the resting `maker`.
pub open spec fn fill_of(taker: Order, maker: BookEntry, q: nat) -> Fill {
    Fill {
        taker_order_seq: taker.spec_id(),
        taker_side: taker.spec_side(),
        taker_price: taker.spec_price(),
        maker_order_seq: eseq(maker),
        maker_price: maker.price,
        quantity: Quantity::from_value(q),
    }
}

/// The fills a taker makes against `makers`, in execution order.
pub open spec fn sweep_fills(makers: Seq<BookEntry>, taker: Order) -> Seq<Fill> {
    let s = sweep(makers, taker.spec_side(), taker.spec_price(), taker.spec_remaining()@);
    Seq::new(s.0, |i: int| fill_of(taker, makers[i], qty(makers[i])))
        + if s.1 > 0 { seq![fill_of(taker, makers[s.0 as int], s.1)] } else { Seq::empty() }
}

/// The entry with `p` taken off its remaining quantity.
pub open spec fn reduced(e: BookEntry, p: nat) -> BookEntry {
    BookEntry {
        price: e.price,
        order: RestingOrder::spec_new(eseq(e), Quantity::from_value((qty(e) - p) as nat)),
    }
}

/// The makers' side after the sweep: `k` consumed, maker `k` reduced by `p`.
pub open spec fn swept(makers: Seq<BookEntry>, k: nat, p: nat) -> Seq<BookEntry> {
    if p > 0 {
        makers.skip(k as int).update(0, reduced(makers[k as int], p))
    } else {
        makers.skip(k as int)
    }
}

/// Where a new order at `price` goes on `side`: after every entry it does
/// not strictly beat (so FIFO within a price).
pub open spec fn insert_pos(s: Seq<BookEntry>, side: Side, price: Price) -> nat
    decreases s.len(),
{
    if s.len() == 0 || better(side, price, s[0].price) {
        0
    } else {
        1 + insert_pos(s.drop_first(), side, price)
    }
}

/// Index of the entry with sequence `seq`, if any.
pub open spec fn find_seq(s: Seq<BookEntry>, seq: OrderSeq) -> Option<nat>
    decreases s.len(),
{
    if s.len() == 0 {
        None
    } else if eseq(s[0]) == seq {
        Some(0)
    } else {
        match find_seq(s.drop_first(), seq) {
            Some(i) => Some(i + 1),
            None => None,
        }
    }
}

/// The sequences of a side's entries.
pub open spec fn seqs_of(s: Seq<BookEntry>) -> Seq<OrderSeq> {
    s.map_values(|e: BookEntry| eseq(e))
}

/// The sequences of pending orders.
pub open spec fn order_seqs(s: Seq<Order>) -> Seq<OrderSeq> {
    s.map_values(|o: Order| o.spec_id())
}

/// A price and quantity are acceptable for a book with these constraints.
pub open spec fn order_valid(price: Price, quantity: Quantity, tick_size: TickSize, lot_size: LotSize) -> bool {
    &&& price@ != 0
    &&& price@ % tick_size@ == 0
    &&& quantity@ != 0
    &&& quantity@ % (lot_size@ as nat) == 0
}

/// Why an order is refused: its price first, then its quantity.
pub open spec fn order_error(price: Price, quantity: Quantity, tick_size: TickSize, lot_size: LotSize) -> MatchOrderError {
    if price@ == 0 || price@ % tick_size@ != 0 {
        MatchOrderError::InvalidTickSize { price, tick_size }
    } else {
        MatchOrderError::InvalidLotSize { quantity, lot_size }
    }
}

/// Central limit order book for a single trading pair.
#[derive(Clone, Debug, PartialEq, Eq)]
pub struct OrderBook {
    /// Immutable identifier assigned at registration time.
    id: OrderBookId,
    /// Per-book sequence counter for generating order ids.
    next_seq: OrderSeq,
    /// Minimum price increment; every order price is a multiple of it.
    tick_size: TickSize,
    /// Minimum order quantity; every order quantity is a multiple of it.
    lot_size: LotSize,
    /// Minimum order notional (quote smallest units).
    min_notional: Quantity,
    /// Maximum order notional, if any.
    max_notional: Option<Quantity>,
    /// Maker/taker fee rates applied at fill time.
    fee_rates: FeeRates,
    /// Orders awaiting matching, in arrival order.
    pending_orders: Vec<Order>,
    /// Buy side in priority order (price descending, FIFO within a price).
    bids: Vec<BookEntry>,
    /// Sell side in priority order (price ascending, FIFO within a price).
    asks: Vec<BookEntry>,
    /// Orders fully filled since the last drain.
    filled_orders: Vec<OrderSeq>,
}

impl OrderBook {
    pub closed spec fn spec_id(&self) -> OrderBookId {
        self.id
    }

    pub closed spec fn spec_next_seq(&self) -> OrderSeq {
        self.next_seq
    }

    pub closed spec fn spec_tick_size(&self) -> TickSize {
        self.tick_size
    }

    pub closed spec fn spec_lot_size(&self) -> LotSize {
        self.lot_size
    }

    pub closed spec fn spec_min_notional(&self) -> Quantity {
        self.min_notional
    }

    pub closed spec fn spec_max_notional(&self) -> Option<Quantity> {
        self.max_notional
    }

    pub closed spec fn spec_fee_rates(&self) -> FeeRates {
        self.fee_rates
    }

    pub closed spec fn spec_pending(&self) -> Seq<Order> {
        self.pending_orders@
    }

    pub closed spec fn spec_bids(&self) -> Seq<BookEntry> {
        self.bids@
    }

    pub closed spec fn spec_asks(&self) -> Seq<BookEntry> {
        self.asks@
    }

    pub closed spec fn spec_filled(&self) -> Seq<OrderSeq> {
        self.filled_orders@
    }

    /// The entries of one side.
    pub open spec fn spec_side(&self, side: Side) -> Seq<BookEntry> {
        match side {
            Side::Buy => self.spec_bids(),
            Side::Sell => self.spec_asks(),
        }
    }

    /// Every order sequence the book holds, resting or pending.
    pub open spec fn spec_all_seqs(&self) -> Seq<OrderSeq> {
        seqs_of(self.spec_bids()) + seqs_of(self.spec_asks()) + order_seqs(self.spec_pending())
    }

    /// Well-formedness: both sides in priority order, resting orders have
    /// something left, pending orders are valid, and every order sequence is
    /// held at most once and is below the next sequence to be minted.
    pub open spec fn wf(&self) -> bool {
        &&& sorted_side(self.spec_bids(), Side::Buy)
        &&& sorted_side(self.spec_asks(), Side::Sell)
        &&& forall|i: int| 0 <= i < self.spec_bids().len() ==> qty(#[trigger] self.spec_bids()[i]) > 0
        &&& forall|i: int| 0 <= i < self.spec_asks().len() ==> qty(#[trigger] self.spec_asks()[i]) > 0
        &&& forall|i: int| 0 <= i < self.spec_pending().len() ==> #[trigger] order_valid(
            self.spec_pending()[i].spec_price(),
            self.spec_pending()[i].spec_remaining(),
            self.spec_tick_size(),
            self.spec_lot_size(),
        )
        &&& seqs_of(self.spec_bids()).no_duplicates()
        &&& seqs_of(self.spec_asks()).no_duplicates()
        &&& order_seqs(self.spec_pending()).no_duplicates()
        &&& forall|s: OrderSeq| #[trigger] seqs_of(self.spec_bids()).contains(s) ==> !seqs_of(self.spec_asks()).contains(s)
            && !order_seqs(self.spec_pending()).contains(s)
        &&& forall|s: OrderSeq| #[trigger] seqs_of(self.spec_asks()).contains(s) ==> !order_seqs(self.spec_pending()).contains(s)
        &&& forall|s: OrderSeq| #[trigger] self.spec_all_seqs().contains(s) ==> s@ < self.spec_next_seq()@
    }

    /// Whether `seq` is resting or pending in the book.
    pub open spec fn holds(&self, seq: OrderSeq) -> bool {
        self.spec_all_seqs().contains(seq)
    }

    /// Creates an empty order book with the given constraints.
    pub fn new(
        id: OrderBookId,
        tick_size: TickSize,
        lot_size: LotSize,
        min_notional: Quantity,
        max_notional: Option<Quantity>,
        fee_rates: FeeRates,
    ) -> (book: OrderBook)
        ensures
            book.wf(),
            book.spec_id() == id,
            book.spec_next_seq()@ == 0,
            book.spec_tick_size() == tick_size,
            book.spec_lot_size() == lot_size,
            book.spec_min_notional() == min_notional,
            book.spec_max_notional() == max_notional,
            book.spec_fee_rates() == fee_rates,
            book.spec_pending() == Seq::<Order>::empty(),
            book.spec_bids() == Seq::<BookEntry>::empty(),
            book.spec_asks() == Seq::<BookEntry>::empty(),
            book.spec_filled() == Seq::<OrderSeq>::empty(),
    {
        let book = OrderBook {
            id,
            next_seq: OrderSeq::zero(),
            tick_size,
            lot_size,
            min_notional,
            max_notional,
            fee_rates,
            pending_orders: Vec::new(),
            bids: Vec::new(),
            asks: Vec::new(),
            filled_orders: Vec::new(),
        };
        proof {
            assert(book.spec_all_seqs() =~= Seq::<OrderSeq>::empty());
            assert(seqs_of(book.spec_bids()) =~= Seq::<OrderSeq>::empty());
            assert(seqs_of(book.spec_asks()) =~= Seq::<OrderSeq>::empty());
            assert(order_seqs(book.spec_pending()) =~= Seq::<OrderSeq>::empty());
        }
        book
    }

    pub fn id(&self) -> (r: OrderBookId)
        ensures
            r == self.spec_id(),
    {
        self.id
    }

    pub fn next_seq(&self) -> (r: OrderSeq)
        ensures
            r == self.spec_next_seq(),
    {
        self.next_seq
    }

    /// Whether the book holds no resting and no pending orders.
    pub fn is_empty(&self) -> (r: bool)
        ensures
            r <==> (self.spec_bids().len() == 0 && self.spec_asks().len() == 0 && self.spec_pending().len() == 0),
    {
        self.bids.len() == 0 && self.asks.len() == 0 && self.pending_orders.len() == 0
    }

    pub fn tick_size(&self) -> (r: TickSize)
        ensures
            r == self.spec_tick_size(),
    {
        self.tick_size
    }

    pub fn lot_size(&self) -> (r: LotSize)
        ensures
            r == self.spec_lot_size(),
    {
        self.lot_size
    }

    pub fn min_notional(&self) -> (r: Quantity)
        ensures
            r == self.spec_min_notional(),
    {
        self.min_notional
    }

    pub fn max_notional(&self) -> (r: Option<Quantity>)
        ensures
            r == self.spec_max_notional(),
    {
        self.max_notional
    }

    pub fn fee_rates(&self) -> (r: FeeRates)
        ensures
            r == self.spec_fee_rates(),
    {
        self.fee_rates
    }

    /// The bid side in priority order, as full orders.
    pub fn bids_iter(&self) -> (r: Vec<Order>)
        ensures
            r@.len() == self.spec_bids().len(),
            forall|i: int| 0 <= i < r@.len() ==> #[trigger] r@[i] == self.spec_bids()[i].order.to_order_spec(
                Side::Buy,
                self.spec_bids()[i].price,
            ),
            forall|i: int| 0 <= i < r@.len() ==> (#[trigger] r@[i]).spec_side() == Side::Buy
                && r@[i].spec_price() == self.spec_bids()[i].price && r@[i].spec_id() == self.spec_bids()[i].order.spec_id()
                && r@[i].spec_remaining() == self.spec_bids()[i].order.spec_remaining(),
    {
        let r = side_orders(&self.bids, Side::Buy);
        proof {
            assert forall|i: int| 0 <= i < r@.len() implies (#[trigger] r@[i]).spec_side() == Side::Buy
                && r@[i].spec_price() == self.spec_bids()[i].price && r@[i].spec_id() == self.spec_bids()[i].order.spec_id()
                && r@[i].spec_remaining() == self.spec_bids()[i].order.spec_remaining() by {
                assert(r@[i] == self.spec_bids()[i].order.to_order_spec(Side::Buy, self.spec_bids()[i].price));
                RestingOrder::lemma_to_order_spec(self.spec_bids()[i].order, Side::Buy, self.spec_bids()[i].price);
            }
        }
        r
    }

    /// The ask side in priority order, as full orders.
    pub fn asks_iter(&self) -> (r: Vec<Order>)
        ensures
            r@.len() == self.spec_asks().len(),
            forall|i: int| 0 <= i < r@.len() ==> #[trigger] r@[i] == self.spec_asks()[i].order.to_order_spec(
                Side::Sell,
                self.spec_asks()[i].price,
            ),
            forall|i: int| 0 <= i < r@.len() ==> (#[trigger] r@[i]).spec_side() == Side::Sell
                && r@[i].spec_price() == self.spec_asks()[i].price && r@[i].spec_id() == self.spec_asks()[i].order.spec_id()
                && r@[i].spec_remaining() == self.spec_asks()[i].order.spec_remaining(),
    {
        let r = side_orders(&self.asks, Side::Sell);
        proof {
            assert forall|i: int| 0 <= i < r@.len() implies (#[trigger] r@[i]).spec_side() == Side::Sell
                && r@[i].spec_price() == self.spec_asks()[i].price && r@[i].spec_id() == self.spec_asks()[i].order.spec_id()
                && r@[i].spec_remaining() == self.spec_asks()[i].order.spec_remaining() by {
                assert(r@[i] == self.spec_asks()[i].order.to_order_spec(Side::Sell, self.spec_asks()[i].price));
                RestingOrder::lemma_to_order_spec(self.spec_asks()[i].order, Side::Sell, self.spec_asks()[i].price);
            }
        }
        r
    }

    /// The best (highest price, earliest) bid, or `None` if there are no bids.
    pub fn best_bid(&self) -> (r: Option<Order>)
        ensures
            self.spec_bids().len() == 0 ==> r is None,
            self.spec_bids().len() > 0 ==> r == Some(
                self.spec_bids()[0].order.to_order_spec(Side::Buy, self.spec_bids()[0].price),
            ),
            self.spec_bids().len() > 0 ==> (r matches Some(o) && o.spec_side() == Side::Buy
                && o.spec_price() == self.spec_bids()[0].price && o.spec_id() == self.spec_bids()[0].order.spec_id()
                && o.spec_remaining() == self.spec_bids()[0].order.spec_remaining()),
            self.wf() ==> (r matches Some(o) ==> forall|i: int| 0 <= i < self.spec_bids().len()
                ==> (#[trigger] self.spec_bids()[i]).price@ <= o.spec_price()@),
    {
        if self.bids.len() == 0 {
            return None;
        }
        Some(self.bids[0].order.to_order(Side::Buy, self.bids[0].price))
    }

    /// The best (lowest price, earliest) ask, or `None` if there are no asks.
    pub fn best_ask(&self) -> (r: Option<Order>)
        ensures
            self.spec_asks().len() == 0 ==> r is None,
            self.spec_asks().len() > 0 ==> r == Some(
                self.spec_asks()[0].order.to_order_spec(Side::Sell, self.spec_asks()[0].price),
            ),
            self.spec_asks().len() > 0 ==> (r matches Some(o) && o.spec_side() == Side::Sell
                && o.spec_price() == self.spec_asks()[0].price && o.spec_id() == self.spec_asks()[0].order.spec_id()
                && o.spec_remaining() == self.spec_asks()[0].order.spec_remaining()),
            self.wf() ==> (r matches Some(o) ==> forall|i: int| 0 <= i < self.spec_asks().len()
                ==> (#[trigger] self.spec_asks()[i]).price@ >= o.spec_price()@),
    {
        if self.asks.len() == 0 {
            return None;
        }
        Some(self.asks[0].order.to_order(Side::Sell, self.asks[0].price))
    }

    /// Reject a zero or off-tick price, and a zero or off-lot quantity.
    pub fn validate_order(&self, price: Price, quantity: &Quantity) -> (r: Result<(), MatchOrderError>)
        ensures
            r is Ok <==> order_valid(price, *quantity, self.spec_tick_size(), self.spec_lot_size()),
            (price@ == 0 || price@ % self.spec_tick_size()@ != 0) ==> r == Err::<(), MatchOrderError>(
                MatchOrderError::InvalidTickSize { price, tick_size: self.spec_tick_size() },
            ),
            (price@ != 0 && price@ % self.spec_tick_size()@ == 0 && (quantity@ == 0 || quantity@ % (
            self.spec_lot_size()@ as nat) != 0)) ==> r == Err::<(), MatchOrderError>(
                MatchOrderError::InvalidLotSize { quantity: *quantity, lot_size: self.spec_lot_size() },
            ),
    {
        if price.is_zero() || !price.is_multiple_of(self.tick_size) {
            return Err(MatchOrderError::InvalidTickSize { price, tick_size: self.tick_size });
        }
        if quantity.is_zero() || !quantity.is_multiple_of(self.lot_size) {
            return Err(MatchOrderError::InvalidLotSize { quantity: *quantity, lot_size: self.lot_size });
        }
        Ok(())
    }

    /// Check that `notional` lies within `[min_notional, max_notional]`.
    pub fn check_notional(&self, notional: &Quantity) -> (r: Result<(), NotionalError>)
        ensures
            r is Ok <==> (notional@ >= self.spec_min_notional()@ && match self.spec_max_notional() {
                Some(max) => notional@ <= max@,
                None => true,
            }),
            r is Err ==> r == Err::<(), NotionalError>(NotionalError {
                notional: *notional,
                min: self.spec_min_notional(),
                max: self.spec_max_notional(),
            }),
    {
        let too_large = match self.max_notional {
            Some(max) => max.lt(notional),
            None => false,
        };
        if notional.lt(&self.min_notional) || too_large {
            return Err(NotionalError { notional: *notional, min: self.min_notional, max: self.max_notional });
        }
        Ok(())
    }

    pub fn pending_orders_len(&self) -> (r: usize)
        ensures
            r == self.spec_pending().len(),
    {
        self.pending_orders.len()
    }

    /// Sequences of the orders waiting to be matched, in arrival order.
    pub fn pending_order_seqs(&self) -> (r: Vec<OrderSeq>)
        ensures
            r@ == order_seqs(self.spec_pending()),
    {
        order_seq_list(&self.pending_orders)
    }

    /// Number of resting orders.
    pub fn resting_orders_len(&self) -> (r: usize)
        requires
            self.spec_bids().len() + self.spec_asks().len() <= usize::MAX,
        ensures
            r == self.spec_bids().len() + self.spec_asks().len(),
    {
        self.bids.len() + self.asks.len()
    }

    /// Enqueue a valid order minted with the book's next sequence.
    pub fn add_pending_order(&mut self, order: Order)
        requires
            old(self).wf(),
            order_valid(order.spec_price(), order.spec_remaining(), old(self).spec_tick_size(), old(self).spec_lot_size()),
            order.spec_id() == old(self).spec_next_seq(),
            old(self).spec_next_seq()@ < u64::MAX,
        ensures
            final(self).wf(),
            final(self).spec_pending() == old(self).spec_pending().push(order),
            final(self).spec_next_seq()@ == old(self).spec_next_seq()@ + 1,
            final(self).spec_bids() == old(self).spec_bids(),
            final(self).spec_asks() == old(self).spec_asks(),
            final(self).spec_filled() == old(self).spec_filled(),
            final(self).same_config(*old(self)),
    {
        let ghost before = self.spec_all_seqs();
        self.pending_orders.push(order);
        self.next_seq.increment();
        proof {
            assert(order_seqs(self.pending_orders@) =~= order_seqs(old(self).pending_orders@).push(order.spec_id()));
            assert(self.spec_all_seqs() =~= before.push(order.spec_id()));
            assert(!before.contains(order.spec_id()));
            lemma_concat3_contains(seqs_of(old(self).spec_bids()), seqs_of(old(self).spec_asks()),
                order_seqs(old(self).spec_pending()));
            lemma_concat3_contains(seqs_of(self.spec_bids()), seqs_of(self.spec_asks()),
                order_seqs(self.spec_pending()));
            lemma_push_fresh(order_seqs(old(self).pending_orders@), order.spec_id());
            assert forall|i: int| 0 <= i < self.spec_pending().len() implies #[trigger] order_valid(
                self.spec_pending()[i].spec_price(),
                self.spec_pending()[i].spec_remaining(),
                self.spec_tick_size(),
                self.spec_lot_size(),
            ) by {
                if i < old(self).spec_pending().len() {
                    assert(self.spec_pending()[i] == old(self).spec_pending()[i]);
                }
            }
            assert forall|x: OrderSeq| #[trigger] self.spec_all_seqs().contains(x) implies x@ < self.spec_next_seq()@ by {
                if x != order.spec_id() {
                    assert(before.contains(x));
                }
            }
            assert forall|x: OrderSeq| #[trigger] seqs_of(self.spec_bids()).contains(x) implies !order_seqs(self.spec_pending()).contains(x) by {
                assert(before.contains(x));
            }
            assert forall|x: OrderSeq| #[trigger] seqs_of(self.spec_asks()).contains(x) implies !order_seqs(self.spec_pending()).contains(x) by {
                assert(before.contains(x));
            }
        }
    }

    /// The matching-relevant state.
    pub open spec fn state(&self) -> BookState {
        BookState { bids: self.spec_bids(), asks: self.spec_asks(), filled: self.spec_filled() }
    }

    /// The immutable configuration (id, tick, lot, notional bounds, fees) is unchanged.
    pub open spec fn same_config(&self, other: OrderBook) -> bool {
        &&& self.spec_id() == other.spec_id()
        &&& self.spec_tick_size() == other.spec_tick_size()
        &&& self.spec_lot_size() == other.spec_lot_size()
        &&& self.spec_min_notional() == other.spec_min_notional()
        &&& self.spec_max_notional() == other.spec_max_notional()
        &&& self.spec_fee_rates() == other.spec_fee_rates()
    }
}

/// The full orders of one side, in priority order.
fn side_orders(entries: &Vec<BookEntry>, side: Side) -> (r: Vec<Order>)
    ensures
        r@.len() == entries@.len(),
        forall|i: int| 0 <= i < r@.len() ==> #[trigger] r@[i] == entries@[i].order.to_order_spec(side, entries@[i].price),
{
    let mut out: Vec<Order> = Vec::new();
    let mut i: usize = 0;
    while i < entries.len()
        invariant
            i <= entries@.len(),
            out@.len() == i,
            forall|j: int| 0 <= j < i ==> #[trigger] out@[j] == entries@[j].order.to_order_spec(side, entries@[j].price),
        decreases entries@.len() - i,
    {
        out.push(entries[i].order.to_order(side, entries[i].price));
        i = i + 1;
    }
    out
}

/// Membership in a three-way concatenation.
pub proof fn lemma_concat3_contains<A>(a: Seq<A>, b: Seq<A>, c: Seq<A>)
    ensures
        forall|x: A| #[trigger] (a + b + c).contains(x) <==> (a.contains(x) || b.contains(x) || c.contains(x)),
{
    assert forall|x: A| #[trigger] (a + b + c).contains(x) <==> (a.contains(x) || b.contains(x) || c.contains(x)) by {
        let t = a + b + c;
        if t.contains(x) {
            let i = choose|i: int| 0 <= i < t.len() && t[i] == x;
            if i < a.len() {
                assert(a[i] == x);
            } else if i < a.len() + b.len() {
                assert(b[i - a.len()] == x);
            } else {
                assert(c[i - a.len() - b.len()] == x);
            }
        }
        if a.contains(x) {
            let i = choose|i: int| 0 <= i < a.len() && a[i] == x;
            assert(t[i] == x);
        }
        if b.contains(x) {
            let i = choose|i: int| 0 <= i < b.len() && b[i] == x;
            assert(t[a.len() + i] == x);
        }
        if c.contains(x) {
            let i = choose|i: int| 0 <= i < c.len() && c[i] == x;
            assert(t[a.len() + b.len() + i] == x);
        }
    }
}

/// Pushing an element not yet present keeps a sequence duplicate-free.
pub proof fn lemma_push_fresh<A>(s: Seq<A>, x: A)
    requires
        s.no_duplicates(),
        !s.contains(x),
    ensures
        s.push(x).no_duplicates(),
        forall|y: A| #[trigger] s.push(x).contains(y) <==> (s.contains(y) || y == x),
{
    assert forall|y: A| #[trigger] s.push(x).contains(y) <==> (s.contains(y) || y == x) by {
        if s.push(x).contains(y) {
            let i = choose|i: int| 0 <= i < s.push(x).len() && s.push(x)[i] == y;
            if i < s.len() {
                assert(s[i] == y);
            }
        }
        if s.contains(y) {
            let i = choose|i: int| 0 <= i < s.len() && s[i] == y;
            assert(s.push(x)[i] == y);
        }
        if y == x {
            assert(s.push(x)[s.len() as int] == x);
        }
    }
}

/// Unfolding `sweep` at a consumed-in-full maker.
proof fn lemma_sweep_step(makers: Seq<BookEntry>, i: int, taker_side: Side, limit: Price, rem: nat)
    requires
        0 <= i < makers.len(),
        rem > 0,
        crosses(taker_side, limit, makers[i].price),
    ensures
        qty(makers[i]) <= rem ==> sweep(makers.skip(i), taker_side, limit, rem) == ({
            let t = sweep(makers.skip(i + 1), taker_side, limit, (rem - qty(makers[i])) as nat);
            (t.0 + 1, t.1, t.2)
        }),
        qty(makers[i]) > rem ==> sweep(makers.skip(i), taker_side, limit, rem) == (0nat, rem, 0nat),
{
    assert(makers.skip(i).drop_first() =~= makers.skip(i + 1));
    assert(makers.skip(i)[0] == makers[i]);
}

/// Where a linear scan stops is the insertion position.
proof fn lemma_insert_pos_scan(s: Seq<BookEntry>, side: Side, price: Price, i: int)
    requires
        0 <= i <= s.len(),
        forall|j: int| 0 <= j < i ==> !better(side, price, #[trigger] s[j].price),
        i == s.len() || better(side, price, s[i].price),
    ensures
        insert_pos(s, side, price) == i,
    decreases s.len(),
{
    if s.len() > 0 && i > 0 {
        assert forall|j: int| 0 <= j < i - 1 implies !better(side, price, #[trigger] s.drop_first()[j].price) by {
            assert(s.drop_first()[j] == s[j + 1]);
        }
        lemma_insert_pos_scan(s.drop_first(), side, price, i - 1);
    }
}

proof fn lemma_insert_pos_bound(s: Seq<BookEntry>, side: Side, price: Price)
    ensures
        insert_pos(s, side, price) <= s.len(),
    decreases s.len(),
{
    if s.len() > 0 {
        lemma_insert_pos_bound(s.drop_first(), side, price);
    }
}

/// Inserting at the insertion position keeps a side in priority order.
proof fn lemma_insert_sorted(s: Seq<BookEntry>, side: Side, e: BookEntry, pos: int)
    requires
        sorted_side(s, side),
        0 <= pos <= s.len(),
        forall|j: int| 0 <= j < pos ==> !better(side, e.price, #[trigger] s[j].price),
        pos == s.len() || better(side, e.price, s[pos].price),
    ensures
        sorted_side(s.insert(pos, e), side),
{
    let t = s.insert(pos, e);
    assert forall|i: int, j: int| 0 <= i < j < t.len() implies !better(side, #[trigger] t[j].price, #[trigger] t[i].price) by {
        if j < pos {
            assert(t[i] == s[i] && t[j] == s[j]);
        } else if j == pos {
            assert(t[i] == s[i]);
            assert(t[j] == e);
        } else if i == pos {
            assert(t[j] == s[j - 1]);
            assert(!better(side, s[j - 1].price, s[pos].price) || j - 1 == pos);
        } else if i < pos {
            assert(t[i] == s[i] && t[j] == s[j - 1]);
        } else {
            assert(t[i] == s[i - 1] && t[j] == s[j - 1]);
        }
    }
}

/// The sequences of a side after dropping its first `k` entries.
proof fn lemma_seqs_skip(s: Seq<BookEntry>, k: int)
    requires
        0 <= k <= s.len(),
    ensures
        seqs_of(s.skip(k)) == seqs_of(s).skip(k),
        seqs_of(s).no_duplicates() ==> seqs_of(s.skip(k)).no_duplicates(),
        forall|x: OrderSeq| #[trigger] seqs_of(s.skip(k)).contains(x) ==> seqs_of(s).contains(x),
        seqs_of(s.take(k)) == seqs_of(s).take(k),
{
    assert(seqs_of(s.skip(k)) =~= seqs_of(s).skip(k));
    assert(seqs_of(s.take(k)) =~= seqs_of(s).take(k));
    assert forall|x: OrderSeq| #[trigger] seqs_of(s.skip(k)).contains(x) implies seqs_of(s).contains(x) by {
        let i = choose|i: int| 0 <= i < seqs_of(s.skip(k)).len() && seqs_of(s.skip(k))[i] == x;
        assert(seqs_of(s)[i + k] == x);
    }
}

/// Replacing an entry by one with the same sequence keeps the sequences.
proof fn lemma_seqs_update(s: Seq<BookEntry>, i: int, e: BookEntry)
    requires
        0 <= i < s.len(),
        eseq(e) == eseq(s[i]),
    ensures
        seqs_of(s.update(i, e)) == seqs_of(s),
{
    assert(seqs_of(s.update(i, e)) =~= seqs_of(s));
}

/// The sequences after an insertion.
proof fn lemma_seqs_insert(s: Seq<BookEntry>, pos: int, e: BookEntry)
    requires
        0 <= pos <= s.len(),
    ensures
        seqs_of(s.insert(pos, e)) == seqs_of(s).insert(pos, eseq(e)),
        forall|x: OrderSeq| #[trigger] seqs_of(s.insert(pos, e)).contains(x) <==> (seqs_of(s).contains(x) || x == eseq(e)),
        (seqs_of(s).no_duplicates() && !seqs_of(s).contains(eseq(e))) ==> seqs_of(s.insert(pos, e)).no_duplicates(),
{
    let a = seqs_of(s);
    let b = seqs_of(s.insert(pos, e));
    assert(b =~= a.insert(pos, eseq(e)));
    assert forall|x: OrderSeq| #[trigger] b.contains(x) <==> (a.contains(x) || x == eseq(e)) by {
        if b.contains(x) {
            let i = choose|i: int| 0 <= i < b.len() && b[i] == x;
            if i < pos {
                assert(a[i] == x);
            } else if i > pos {
                assert(a[i - 1] == x);
            }
        }
        if a.contains(x) {
            let i = choose|i: int| 0 <= i < a.len() && a[i] == x;
            if i < pos {
                assert(b[i] == x);
            } else {
                assert(b[i + 1] == x);
            }
        }
        if x == eseq(e) {
            assert(b[pos] == x);
        }
    }
    if a.no_duplicates() && !a.contains(eseq(e)) {
        assert forall|i: int, j: int| 0 <= i < b.len() && 0 <= j < b.len() && i != j implies b[i] != b[j] by {
            if i == pos {
                if j < pos {
                    assert(b[j] == a[j]);
                } else {
                    assert(b[j] == a[j - 1]);
                }
            } else if j == pos {
                if i < pos {
                    assert(b[i] == a[i]);
                } else {
                    assert(b[i] == a[i - 1]);
                }
            } else {
                let ii = if i < pos { i } else { i - 1 };
                let jj = if j < pos { j } else { j - 1 };
                assert(b[i] == a[ii]);
                assert(b[j] == a[jj]);
            }
        }
    }
}

/// Read-only walk of the crossing makers, best first, recording the fills
/// the incoming `order` would make and validating the plan against its
/// time-in-force.
pub fn plan_fills(makers: &Vec<BookEntry>, order: &Order) -> (r: PlanOutcome)
    requires
        forall|i: int| 0 <= i < makers@.len() ==> qty(#[trigger] makers@[i]) > 0,
        forall|i: int| 0 <= i < makers@.len() ==> eseq(#[trigger] makers@[i]) != order.spec_id(),
    ensures
        ({
            let s = sweep(makers@, order.spec_side(), order.spec_price(), order.spec_remaining()@);
            match r {
                PlanOutcome::Kill => order.spec_time_in_force() == TimeInForce::FillOrKill && s.2 > 0,
                PlanOutcome::Execute(plan) => {
                    &&& !(order.spec_time_in_force() == TimeInForce::FillOrKill && s.2 > 0)
                    &&& plan.spec_taker_order() == order.spec_id()
                    &&& plan.spec_filled_makers() == seqs_of(makers@.take(s.0 as int))
                    &&& plan.spec_last_partial() == (if s.1 > 0 {
                        Some((eseq(makers@[s.0 as int]), Quantity::from_value(s.1)))
                    } else {
                        None
                    })
                    &&& plan.spec_taker_remaining()@ == s.2
                },
            }
        }),
{
    let ghost total = sweep(makers@, order.spec_side(), order.spec_price(), order.spec_remaining()@);
    let side = order.side();
    let limit = order.price();
    let mut b = FillPlan::builder(order);
    let mut i: usize = 0;
    proof {
        assert(makers@.skip(0) =~= makers@);
        assert(seqs_of(makers@.take(0)) =~= Seq::<OrderSeq>::empty());
    }
    while i < makers.len()
        invariant_except_break
            i <= makers@.len(),
            b.spec_last_partial() is None,
            b.spec_filled_makers() == seqs_of(makers@.take(i as int)),
            total == ({
                let t = sweep(makers@.skip(i as int), side, limit, b.spec_taker_remaining()@);
                ((i + t.0) as nat, t.1, t.2)
            }),
        invariant
            forall|j: int| 0 <= j < makers@.len() ==> qty(#[trigger] makers@[j]) > 0,
            forall|j: int| 0 <= j < makers@.len() ==> eseq(#[trigger] makers@[j]) != order.spec_id(),
            side == order.spec_side(),
            limit == order.spec_price(),
            b.spec_order() == *order,
            total == sweep(makers@, order.spec_side(), order.spec_price(), order.spec_remaining()@),
        ensures
            b.spec_order() == *order,
            b.spec_filled_makers() == seqs_of(makers@.take(total.0 as int)),
            b.spec_last_partial() == (if total.1 > 0 {
                Some((eseq(makers@[total.0 as int]), Quantity::from_value(total.1)))
            } else {
                None
            }),
            b.spec_taker_remaining()@ == total.2,
        decreases makers@.len() - i,
    {
        let e = &makers[i];
        let crossing = match side {
            Side::Buy => e.price.get() <= limit.get(),
            Side::Sell => e.price.get() >= limit.get(),
        };
        if b.taker_remaining().is_zero() || !crossing {
            proof {
                assert(total.0 == i && total.1 == 0 && total.2 == b.spec_taker_remaining()@);
            }
            break;
        }
        let ghost rem = b.spec_taker_remaining()@;
        proof {
            lemma_sweep_step(makers@, i as int, side, limit, rem);
        }
        b.add_fill(&e.order);
        if b.taker_remaining().is_zero() {
            proof {
                if qty(makers@[i as int]) <= rem {
                    assert(makers@.take(i + 1) =~= makers@.take(i as int).push(makers@[i as int]));
                    assert(seqs_of(makers@.take(i + 1)) =~= seqs_of(makers@.take(i as int)).push(eseq(makers@[i as int])));
                    assert(sweep(makers@.skip(i + 1), side, limit, 0) == (0nat, 0nat, 0nat));
                } else {
                    assert(total == (i as nat, rem, 0nat));
                    assert(Quantity::from_value(rem)@ == rem);
                }
            }
            break;
        }
        proof {
            assert(qty(makers@[i as int]) <= rem);
            assert(makers@.take(i + 1) =~= makers@.take(i as int).push(makers@[i as int]));
            assert(seqs_of(makers@.take(i + 1)) =~= seqs_of(makers@.take(i as int)).push(eseq(makers@[i as int])));
        }
        i = i + 1;
    }
    proof {
        if b.spec_last_partial() is None && i == makers@.len() {
            assert(makers@.skip(i as int) =~= Seq::<BookEntry>::empty());
        }
    }
    b.build()
}

/// Replay a plan against the makers' side: pop each maker it consumes in
/// full, reduce the last partially filled maker, reduce the taker by every
/// fill, and record the fills and the emptied makers.
fn apply_plan(
    makers: &mut Vec<BookEntry>,
    plan: &FillPlan,
    order: &mut Order,
    fills: &mut Vec<Fill>,
    filled: &mut Vec<OrderSeq>,
)
    requires
        forall|i: int| 0 <= i < old(makers)@.len() ==> qty(#[trigger] old(makers)@[i]) > 0,
        ({
            let s = sweep(old(makers)@, old(order).spec_side(), old(order).spec_price(), old(order).spec_remaining()@);
            &&& plan.spec_filled_makers() == seqs_of(old(makers)@.take(s.0 as int))
            &&& plan.spec_last_partial() == (if s.1 > 0 {
                Some((eseq(old(makers)@[s.0 as int]), Quantity::from_value(s.1)))
            } else {
                None
            })
        }),
    ensures
        ({
            let s = sweep(old(makers)@, old(order).spec_side(), old(order).spec_price(), old(order).spec_remaining()@);
            &&& final(makers)@ == swept(old(makers)@, s.0, s.1)
            &&& final(order).spec_remaining()@ == s.2
            &&& final(order).spec_id() == old(order).spec_id()
            &&& final(order).spec_side() == old(order).spec_side()
            &&& final(order).spec_price() == old(order).spec_price()
            &&& final(order).spec_time_in_force() == old(order).spec_time_in_force()
            &&& final(fills)@ == old(fills)@ + sweep_fills(old(makers)@, *old(order))
            &&& final(filled)@ == old(filled)@ + seqs_of(old(makers)@.take(s.0 as int))
        }),
{
    let ghost m0 = makers@;
    let ghost o0 = *order;
    let ghost f0 = fills@;
    let ghost d0 = filled@;
    let ghost total = sweep(m0, o0.spec_side(), o0.spec_price(), o0.spec_remaining()@);
    let ghost all_fills = sweep_fills(m0, o0);
    let n = plan.filled_makers().len();
    proof {
        lemma_sweep_bounds(m0, o0.spec_side(), o0.spec_price(), o0.spec_remaining()@);
        assert(seqs_of(m0.take(total.0 as int)).len() == total.0);
        assert(m0.skip(0) =~= m0);
        assert(seqs_of(m0.take(0)) =~= Seq::<OrderSeq>::empty());
        assert(f0 + all_fills.take(0) =~= f0);
        assert(d0 + seqs_of(m0.take(0)) =~= d0);
    }
    let mut j: usize = 0;
    while j < n
        invariant
            j <= n,
            n == total.0,
            total.0 <= m0.len(),
            total.1 > 0 ==> total.0 < m0.len(),
            forall|i: int| 0 <= i < m0.len() ==> qty(#[trigger] m0[i]) > 0,
            plan.spec_filled_makers() == seqs_of(m0.take(total.0 as int)),
            total == sweep(m0, o0.spec_side(), o0.spec_price(), o0.spec_remaining()@),
            all_fills == sweep_fills(m0, o0),
            makers@ == m0.skip(j as int),
            order.spec_id() == o0.spec_id(),
            order.spec_side() == o0.spec_side(),
            order.spec_price() == o0.spec_price(),
            order.spec_time_in_force() == o0.spec_time_in_force(),
            total == ({
                let t = sweep(m0.skip(j as int), o0.spec_side(), o0.spec_price(), order.spec_remaining()@);
                ((j + t.0) as nat, t.1, t.2)
            }),
            fills@ == f0 + all_fills.take(j as int),
            filled@ == d0 + seqs_of(m0.take(j as int)),
        decreases n - j,
    {
        let ghost rem = order.spec_remaining()@;
        proof {
            let t = sweep(m0.skip(j as int), o0.spec_side(), o0.spec_price(), rem);
            assert(t.0 > 0);
            assert(m0.skip(j as int)[0] == m0[j as int]);
            lemma_sweep_step(m0, j as int, o0.spec_side(), o0.spec_price(), rem);
            assert(plan.spec_filled_makers()[j as int] == eseq(m0[j as int]));
        }
        let front = makers.remove(0);
        let fill_qty = *front.order.remaining_quantity();
        order.reduce_quantity(&fill_qty);
        let fill = Fill {
            taker_order_seq: order.id(),
            taker_side: order.side(),
            taker_price: order.price(),
            maker_order_seq: front.order.id(),
            maker_price: front.price,
            quantity: fill_qty,
        };
        fills.push(fill);
        filled.push(front.order.id());
        proof {
            assert(Quantity::from_value(fill_qty@)@ == fill_qty@);
            assert(Quantity::from_value(fill_qty@) == fill_qty);
            assert(fill == fill_of(o0, m0[j as int], qty(m0[j as int])));
            assert(all_fills[j as int] == fill_of(o0, m0[j as int], qty(m0[j as int])));
            assert(all_fills.take(j + 1) =~= all_fills.take(j as int).push(all_fills[j as int]));
            assert(makers@ =~= m0.skip(j + 1));
            assert(m0.take(j + 1) =~= m0.take(j as int).push(m0[j as int]));
            assert(seqs_of(m0.take(j + 1)) =~= seqs_of(m0.take(j as int)).push(eseq(m0[j as int])));
        }
        j = j + 1;
    }
    match plan.last_partial() {
        Some((maker_seq, q)) => {
            let ghost rem = order.spec_remaining()@;
            proof {
                assert(total.1 > 0);
                assert(m0.skip(j as int)[0] == m0[j as int]);
                lemma_sweep_step(m0, j as int, o0.spec_side(), o0.spec_price(), rem);
                assert(q@ == total.1);
                assert(rem == total.1);
            }
            let mut front = makers[0];
            front.order.reduce_quantity(&q);
            order.reduce_quantity(&q);
            let fill = Fill {
                taker_order_seq: order.id(),
                taker_side: order.side(),
                taker_price: order.price(),
                maker_order_seq: front.order.id(),
                maker_price: front.price,
                quantity: q,
            };
            fills.push(fill);
            makers.set(0, front);
            proof {
                let red = reduced(m0[j as int], total.1);
                RestingOrder::lemma_spec_new(eseq(m0[j as int]), Quantity::from_value((qty(m0[j as int]) - total.1) as nat));
                assert(Quantity::from_value((qty(m0[j as int]) - total.1) as nat)@ == front.order.spec_remaining()@);
                assert(red.order.spec_remaining() == front.order.spec_remaining());
                assert(red.order.spec_id() == front.order.spec_id());
                assert(front == red);
                assert(Quantity::from_value(q@) == q);
                assert(fill == fill_of(o0, m0[j as int], total.1));
                assert(all_fills =~= all_fills.take(j as int).push(fill));
                assert(makers@ =~= swept(m0, total.0, total.1));
            }
        },
        None => {
            proof {
                assert(all_fills =~= all_fills.take(j as int));
                assert(makers@ =~= swept(m0, total.0, total.1));
                let t = sweep(m0.skip(j as int), o0.spec_side(), o0.spec_price(), order.spec_remaining()@);
                assert(t.0 == 0 && t.1 == 0);
            }
        },
    }
}

/// Basic facts about a sweep: it consumes at most all makers, a partial
/// fill needs a further maker and is smaller than it, and what is left of the
/// taker is at most what it started with.
proof fn lemma_sweep_bounds(makers: Seq<BookEntry>, taker_side: Side, limit: Price, rem: nat)
    ensures
        ({
            let s = sweep(makers, taker_side, limit, rem);
            &&& s.0 <= makers.len()
            &&& s.1 > 0 ==> s.0 < makers.len() && s.1 < qty(makers[s.0 as int]) && s.2 == 0
                && crosses(taker_side, limit, makers[s.0 as int].price)
            &&& s.2 <= rem
            &&& forall|i: int| 0 <= i < s.0 ==> crosses(taker_side, limit, #[trigger] makers[i].price)
        }),
    decreases makers.len(),
{
    if rem == 0 || makers.len() == 0 || !crosses(taker_side, limit, makers[0].price) {
    } else if qty(makers[0]) <= rem {
        lemma_sweep_bounds(makers.drop_first(), taker_side, limit, (rem - qty(makers[0])) as nat);
        let s = sweep(makers, taker_side, limit, rem);
        assert forall|i: int| 0 <= i < s.0 implies crosses(taker_side, limit, #[trigger] makers[i].price) by {
            if i > 0 {
                assert(makers[i] == makers.drop_first()[i - 1]);
            }
        }
        if s.1 > 0 {
            assert(makers[s.0 as int] == makers.drop_first()[s.0 - 1]);
        }
    } else {
    }
}

/// The other side of the book.
pub open spec fn opposite(side: Side) -> Side {
    match side {
        Side::Buy => Side::Sell,
        Side::Sell => Side::Buy,
    }
}

/// The entry an order leaves on the book with `rem` remaining.
pub open spec fn resting_entry(order: Order, rem: nat) -> BookEntry {
    BookEntry {
        price: order.spec_price(),
        order: RestingOrder::spec_new(order.spec_id(), Quantity::from_value(rem)),
    }
}

/// The matching-relevant state of a book: both sides and the orders filled
/// since the last drain.
#[verifier::ext_equal]
pub struct BookState {
    pub bids: Seq<BookEntry>,
    pub asks: Seq<BookEntry>,
    pub filled: Seq<OrderSeq>,
}

/// The effect of matching one valid order against a book state: the new
/// state, the fills in execution order, the order if it came to rest, and the
/// order with what it asked for if it was killed.
pub open spec fn step(st: BookState, o: Order) -> (BookState, Seq<Fill>, Seq<OrderSeq>, Seq<(OrderSeq, RemovedOrder)>) {
    let side = o.spec_side();
    let makers = if side == Side::Buy { st.asks } else { st.bids };
    let own = if side == Side::Buy { st.bids } else { st.asks };
    let s = sweep(makers, side, o.spec_price(), o.spec_remaining()@);
    if o.spec_time_in_force() == TimeInForce::FillOrKill && s.2 > 0 {
        (
            st,
            Seq::empty(),
            Seq::empty(),
            seq![(o.spec_id(), RemovedOrder { side, price: o.spec_price(), remaining_quantity: o.spec_remaining() })],
        )
    } else {
        let new_makers = swept(makers, s.0, s.1);
        let new_own = if s.2 == 0 {
            own
        } else {
            own.insert(insert_pos(own, side, o.spec_price()) as int, resting_entry(o, s.2))
        };
        let new_filled = st.filled + seqs_of(makers.take(s.0 as int)) + if s.2 == 0 {
            seq![o.spec_id()]
        } else {
            Seq::empty()
        };
        let st2 = if side == Side::Buy {
            BookState { bids: new_own, asks: new_makers, filled: new_filled }
        } else {
            BookState { bids: new_makers, asks: new_own, filled: new_filled }
        };
        (st2, sweep_fills(makers, o), if s.2 > 0 { seq![o.spec_id()] } else { Seq::empty() }, Seq::empty())
    }
}

/// Matching orders one after another, accumulating fills, rested orders and
/// killed orders.
pub open spec fn process_fold(st: BookState, orders: Seq<Order>) -> (BookState, Seq<Fill>, Seq<OrderSeq>, Seq<(OrderSeq, RemovedOrder)>)
    decreases orders.len(),
{
    if orders.len() == 0 {
        (st, Seq::empty(), Seq::empty(), Seq::empty())
    } else {
        let prev = process_fold(st, orders.drop_last());
        let next = step(prev.0, orders.last());
        (next.0, prev.1 + next.1, prev.2 + next.2, prev.3 + next.3)
    }
}

/// The order a result left resting, as a zero- or one-element sequence.
pub open spec fn result_rested(r: MatchResult) -> Seq<OrderSeq> {
    match r {
        MatchResult::Resting { resting_order_seq } => seq![resting_order_seq],
        MatchResult::PartiallyFilled { resting_order_seq, .. } => seq![resting_order_seq],
        _ => Seq::empty(),
    }
}

/// The killed order of a result with what it asked for, as a zero- or one-element sequence.
pub open spec fn result_killed(r: MatchResult, o: Order) -> Seq<(OrderSeq, RemovedOrder)> {
    match r {
        MatchResult::Killed { killed_order_seq } => seq![
            (killed_order_seq, RemovedOrder { side: o.spec_side(), price: o.spec_price(), remaining_quantity: o.spec_remaining() }),
        ],
        _ => Seq::empty(),
    }
}

/// Insert `e` at its priority position on `side`.
fn rest(entries: &mut Vec<BookEntry>, side: Side, e: BookEntry)
    ensures
        final(entries)@ == old(entries)@.insert(insert_pos(old(entries)@, side, e.price) as int, e),
        insert_pos(old(entries)@, side, e.price) <= old(entries)@.len(),
        sorted_side(old(entries)@, side) ==> sorted_side(final(entries)@, side),
{
    let mut i: usize = 0;
    while i < entries.len()
        invariant
            i <= entries@.len(),
            entries@ == old(entries)@,
            forall|j: int| 0 <= j < i ==> !better(side, e.price, #[trigger] entries@[j].price),
        ensures
            i <= entries@.len(),
            i == entries@.len() || better(side, e.price, entries@[i as int].price),
        decreases entries@.len() - i,
    {
        let beats = match side {
            Side::Buy => e.price.get() > entries[i].price.get(),
            Side::Sell => e.price.get() < entries[i].price.get(),
        };
        if beats {
            break;
        }
        i = i + 1;
    }
    proof {
        lemma_insert_pos_scan(entries@, side, e.price, i as int);
        if sorted_side(entries@, side) {
            lemma_insert_sorted(entries@, side, e, i as int);
        }
    }
    entries.insert(i, e);
}

impl OrderBook {
    /// Match an incoming order against the book, best price first and FIFO
    /// within a price. A zero or off-tick price, or a zero or off-lot
    /// quantity, is rejected with the book untouched. A fill-or-kill order that
    /// cannot fill completely is killed with the book untouched. Otherwise
    /// the fills are executed and any remainder rests on the order's side.
    pub fn match_order(&mut self, order: Order) -> (r: Result<MatchResult, MatchOrderError>)
        requires
            old(self).wf(),
            order_valid(order.spec_price(), order.spec_remaining(), old(self).spec_tick_size(), old(self).spec_lot_size())
                ==> !old(self).holds(order.spec_id()) && order.spec_id()@ < old(self).spec_next_seq()@,
        ensures
            final(self).wf(),
            final(self).same_config(*old(self)),
            final(self).spec_next_seq() == old(self).spec_next_seq(),
            final(self).spec_pending() == old(self).spec_pending(),
            order_valid(order.spec_price(), order.spec_remaining(), old(self).spec_tick_size(), old(self).spec_lot_size()) ==> {
                &&& r is Ok
                &&& step(old(self).state(), order) == (
                    final(self).state(),
                    r->Ok_0.spec_fills(),
                    result_rested(r->Ok_0),
                    result_killed(r->Ok_0, order),
                )
            },
            !order_valid(order.spec_price(), order.spec_remaining(), old(self).spec_tick_size(), old(self).spec_lot_size()) ==> {
                &&& r == Err::<MatchResult, MatchOrderError>(
                    order_error(order.spec_price(), order.spec_remaining(), old(self).spec_tick_size(), old(self).spec_lot_size()),
                )
                &&& *final(self) == *old(self)
                &&& final(self).spec_bids() == old(self).spec_bids()
                &&& final(self).spec_asks() == old(self).spec_asks()
                &&& final(self).spec_filled() == old(self).spec_filled()
            },
            order_valid(order.spec_price(), order.spec_remaining(), old(self).spec_tick_size(), old(self).spec_lot_size()) ==> ({
                let side = order.spec_side();
                let makers = old(self).spec_side(opposite(side));
                let own = old(self).spec_side(side);
                let s = sweep(makers, side, order.spec_price(), order.spec_remaining()@);
                if order.spec_time_in_force() == TimeInForce::FillOrKill && s.2 > 0 {
                    &&& r == Ok::<MatchResult, MatchOrderError>(MatchResult::Killed { killed_order_seq: order.spec_id() })
                    &&& final(self).spec_bids() == old(self).spec_bids()
                    &&& final(self).spec_asks() == old(self).spec_asks()
                    &&& final(self).spec_filled() == old(self).spec_filled()
                } else {
                    &&& r is Ok
                    &&& r->Ok_0.spec_fills() == sweep_fills(makers, order)
                    &&& final(self).spec_side(opposite(side)) == swept(makers, s.0, s.1)
                    &&& s.2 == 0 ==> {
                        &&& r->Ok_0 is Filled
                        &&& final(self).spec_side(side) == own
                        &&& final(self).spec_filled() == old(self).spec_filled() + seqs_of(makers.take(s.0 as int)).push(order.spec_id())
                    }
                    &&& s.2 > 0 ==> {
                        &&& final(self).spec_side(side) == own.insert(
                            insert_pos(own, side, order.spec_price()) as int,
                            resting_entry(order, s.2),
                        )
                        &&& final(self).spec_filled() == old(self).spec_filled() + seqs_of(makers.take(s.0 as int))
                        &&& (s.0 == 0 && s.1 == 0) ==> r == Ok::<MatchResult, MatchOrderError>(MatchResult::Resting { resting_order_seq: order.spec_id() })
                        &&& !(s.0 == 0 && s.1 == 0) ==> (r->Ok_0 matches MatchResult::PartiallyFilled { resting_order_seq, .. } && resting_order_seq == order.spec_id())
                    }
                }
            }),
    {
        match self.validate_order(order.price(), order.remaining_quantity()) {
            Ok(()) => {},
            Err(e) => {
                return Err(e);
            },
        }
        let side = order.side();
        proof {
            lemma_concat3_contains(seqs_of(self.spec_bids()), seqs_of(self.spec_asks()), order_seqs(self.spec_pending()));
            assert forall|i: int| 0 <= i < self.spec_bids().len() implies eseq(#[trigger] self.spec_bids()[i]) != order.spec_id() by {
                assert(seqs_of(self.spec_bids())[i] == eseq(self.spec_bids()[i]));
            }
            assert forall|i: int| 0 <= i < self.spec_asks().len() implies eseq(#[trigger] self.spec_asks()[i]) != order.spec_id() by {
                assert(seqs_of(self.spec_asks())[i] == eseq(self.spec_asks()[i]));
            }
        }
        let outcome = match side {
            Side::Buy => plan_fills(&self.asks, &order),
            Side::Sell => plan_fills(&self.bids, &order),
        };
        let plan = match outcome {
            PlanOutcome::Kill => {
                proof {
                    assert(self.state() =~= old(self).state());
                }
                return Ok(MatchResult::Killed { killed_order_seq: order.id() });
            },
            PlanOutcome::Execute(plan) => plan,
        };
        let ghost makers = self.spec_side(opposite(side));
        let ghost own = self.spec_side(side);
        let ghost sw = sweep(makers, side, order.spec_price(), order.spec_remaining()@);
        let ghost old_filled = self.spec_filled();
        let mut order = order;
        let ghost o0 = order;
        let mut fills: Vec<Fill> = Vec::new();
        match side {
            Side::Buy => apply_plan(&mut self.asks, &plan, &mut order, &mut fills, &mut self.filled_orders),
            Side::Sell => apply_plan(&mut self.bids, &plan, &mut order, &mut fills, &mut self.filled_orders),
        }
        proof {
            lemma_sweep_bounds(makers, side, o0.spec_price(), o0.spec_remaining()@);
            lemma_seqs_skip(makers, sw.0 as int);
            if sw.1 > 0 {
                lemma_seqs_update(makers.skip(sw.0 as int), 0, reduced(makers[sw.0 as int], sw.1));
                assert(makers.skip(sw.0 as int)[0] == makers[sw.0 as int]);
            }
            let sw_side = swept(makers, sw.0, sw.1);
            assert forall|i: int| 0 <= i < makers.len() implies qty(#[trigger] makers[i]) > 0 by {
                match side {
                    Side::Buy => { assert(makers[i] == old(self).spec_asks()[i]); },
                    Side::Sell => { assert(makers[i] == old(self).spec_bids()[i]); },
                }
            }
            if sw.1 > 0 {
                let red = reduced(makers[sw.0 as int], sw.1);
                assert(qty(red) == qty(makers[sw.0 as int]) - sw.1);
            }
            assert(seqs_of(sw_side) == seqs_of(makers.skip(sw.0 as int)));
            assert forall|i: int| 0 <= i < sw_side.len() implies qty(#[trigger] sw_side[i]) > 0 by {
                if sw.1 > 0 && i == 0 {
                } else {
                    assert(sw_side[i] == makers[i + sw.0]);
                }
            }
            assert(sorted_side(sw_side, opposite(side))) by {
                assert forall|i: int, j: int| 0 <= i < j < sw_side.len() implies !better(opposite(side), #[trigger] sw_side[j].price, #[trigger] sw_side[i].price) by {
                    assert(sw_side[j].price == makers[j + sw.0].price);
                    assert(sw_side[i].price == makers[i + sw.0].price);
                }
            }
        }
        if order.remaining_quantity().is_zero() {
            self.filled_orders.push(order.id());
            proof {
                lemma_concat3_contains(seqs_of(self.spec_bids()), seqs_of(self.spec_asks()), order_seqs(self.spec_pending()));
                lemma_concat3_contains(seqs_of(old(self).spec_bids()), seqs_of(old(self).spec_asks()), order_seqs(old(self).spec_pending()));
                assert(sorted_side(self.spec_bids(), Side::Buy));
                assert(sorted_side(self.spec_asks(), Side::Sell));
                assert(forall|i: int| 0 <= i < self.spec_bids().len() ==> qty(#[trigger] self.spec_bids()[i]) > 0);
                assert(forall|i: int| 0 <= i < self.spec_asks().len() ==> qty(#[trigger] self.spec_asks()[i]) > 0);
                assert(seqs_of(self.spec_bids()).no_duplicates());
                assert(seqs_of(self.spec_asks()).no_duplicates());
                assert(forall|x: OrderSeq| #[trigger] seqs_of(self.spec_bids()).contains(x) ==> !seqs_of(self.spec_asks()).contains(x)
                    && !order_seqs(self.spec_pending()).contains(x));
                assert(forall|x: OrderSeq| #[trigger] seqs_of(self.spec_asks()).contains(x) ==> !order_seqs(self.spec_pending()).contains(x));
                assert forall|x: OrderSeq| #[trigger] self.spec_all_seqs().contains(x) implies x@ < self.spec_next_seq()@ by {
                    assert(seqs_of(self.spec_bids()).contains(x) || seqs_of(self.spec_asks()).contains(x)
                        || order_seqs(self.spec_pending()).contains(x));
                    if x != o0.spec_id() {
                        if seqs_of(self.spec_bids()).contains(x) {
                            assert(seqs_of(old(self).spec_bids()).contains(x));
                        } else if seqs_of(self.spec_asks()).contains(x) {
                            assert(seqs_of(old(self).spec_asks()).contains(x));
                        }
                        assert(old(self).spec_all_seqs().contains(x));
                    }
                }
            }
            proof {
                let st = step(old(self).state(), o0);
                assert(st.0.filled =~= self.spec_filled());
                assert(st.0 =~= self.state());
                assert(st.2 =~= Seq::<OrderSeq>::empty());
            }
            Ok(MatchResult::Filled { fills })
        } else {
            let resting_order_seq = order.id();
            let entry = BookEntry { price: order.price(), order: RestingOrder::from_order(order) };
            proof {
                lemma_insert_pos_bound(own, side, o0.spec_price());
                let re = resting_entry(o0, sw.2);
                assert(re.order.spec_remaining()@ == sw.2);
                assert(re.order.spec_remaining() == entry.order.spec_remaining());
                assert(entry == re);
                lemma_seqs_insert(own, insert_pos(own, side, o0.spec_price()) as int, entry);
                lemma_concat3_contains(seqs_of(old(self).spec_bids()), seqs_of(old(self).spec_asks()), order_seqs(old(self).spec_pending()));
            }
            match side {
                Side::Buy => rest(&mut self.bids, Side::Buy, entry),
                Side::Sell => rest(&mut self.asks, Side::Sell, entry),
            }
            proof {
                lemma_concat3_contains(seqs_of(self.spec_bids()), seqs_of(self.spec_asks()), order_seqs(self.spec_pending()));
                assert(sorted_side(self.spec_bids(), Side::Buy));
                assert(sorted_side(self.spec_asks(), Side::Sell));
                assert(forall|i: int| 0 <= i < self.spec_bids().len() ==> qty(#[trigger] self.spec_bids()[i]) > 0);
                assert(forall|i: int| 0 <= i < self.spec_asks().len() ==> qty(#[trigger] self.spec_asks()[i]) > 0);
                assert(seqs_of(self.spec_bids()).no_duplicates());
                assert(seqs_of(self.spec_asks()).no_duplicates());
                assert(forall|x: OrderSeq| #[trigger] seqs_of(self.spec_bids()).contains(x) ==> !seqs_of(self.spec_asks()).contains(x)
                    && !order_seqs(self.spec_pending()).contains(x));
                assert(forall|x: OrderSeq| #[trigger] seqs_of(self.spec_asks()).contains(x) ==> !order_seqs(self.spec_pending()).contains(x));
                assert forall|x: OrderSeq| #[trigger] self.spec_all_seqs().contains(x) implies x@ < self.spec_next_seq()@ by {
                    assert(seqs_of(self.spec_bids()).contains(x) || seqs_of(self.spec_asks()).contains(x)
                        || order_seqs(self.spec_pending()).contains(x));
                    if x != o0.spec_id() {
                        if seqs_of(self.spec_bids()).contains(x) {
                            assert(seqs_of(old(self).spec_bids()).contains(x));
                        } else if seqs_of(self.spec_asks()).contains(x) {
                            assert(seqs_of(old(self).spec_asks()).contains(x));
                        }
                        assert(old(self).spec_all_seqs().contains(x));
                    }
                }
            }
            proof {
                let st = step(old(self).state(), o0);
                assert(st.0.filled =~= self.spec_filled());
                assert(st.0 =~= self.state());
            }
            if fills.len() == 0 {
                Ok(MatchResult::Resting { resting_order_seq })
            } else {
                Ok(MatchResult::PartiallyFilled { fills, resting_order_seq })
            }
        }
    }
}

/// Output of a matching round: the fills produced, the orders that came to
/// rest and are still resting, the orders fully filled, and the fill-or-kill
/// orders killed, with what they asked for.
#[derive(Debug, Clone, PartialEq, Eq)]
pub struct MatchingOutput {
    /// Fills executed during this round, in execution order.
    pub fills: Vec<Fill>,
    /// Orders that were not fully filled and now rest in the book.
    pub resting_orders: Vec<OrderSeq>,
    /// Orders that were fully filled and removed from the book.
    pub filled_orders: Vec<OrderSeq>,
    /// Fill-or-kill orders that could not fill completely.
    pub expired_orders: Vec<(OrderSeq, RemovedOrder)>,
}

/// The elements of `s` not in `drop`, in order.
pub open spec fn without(s: Seq<OrderSeq>, drop: Seq<OrderSeq>) -> Seq<OrderSeq> {
    s.filter(|x: OrderSeq| !drop.contains(x))
}

/// Strictly ascending by sequence number.
pub open spec fn increasing(s: Seq<OrderSeq>) -> bool {
    forall|i: int, j: int| 0 <= i < j < s.len() ==> (#[trigger] s[i])@ < (#[trigger] s[j])@
}

/// `out` lists the orders of `s` once each, in ascending order.
pub open spec fn lists_set(out: Seq<OrderSeq>, s: Seq<OrderSeq>) -> bool {
    &&& increasing(out)
    &&& forall|x: OrderSeq| #[trigger] out.contains(x) <==> s.contains(x)
}

/// The orders of `v` once each, in ascending order.
fn ascending_set(v: &Vec<OrderSeq>) -> (r: Vec<OrderSeq>)
    ensures
        lists_set(r@, v@),
{
    let mut out: Vec<OrderSeq> = Vec::new();
    let mut i: usize = 0;
    while i < v.len()
        invariant
            i <= v@.len(),
            increasing(out@),
            forall|x: OrderSeq| #[trigger] out@.contains(x) <==> v@.take(i as int).contains(x),
        decreases v@.len() - i,
    {
        let x = v[i];
        let mut j: usize = 0;
        while j < out.len() && out[j].get() < x.get()
            invariant
                j <= out@.len(),
                forall|k: int| 0 <= k < j ==> (#[trigger] out@[k])@ < x@,
            decreases out@.len() - j,
        {
            j = j + 1;
        }
        let ghost before = out@;
        let present = j < out.len() && out[j].get() == x.get();
        if !present {
            out.insert(j, x);
            proof {
                assert forall|a: int, b: int| 0 <= a < b < out@.len() implies (#[trigger] out@[a])@ < (#[trigger] out@[b])@ by {
                    if b < j {
                        assert(out@[a] == before[a] && out@[b] == before[b]);
                    } else if b == j {
                        assert(out@[a] == before[a]);
                    } else if a == j {
                        assert(out@[b] == before[b - 1]);
                        assert(before[j as int]@ >= x@);
                        assert(before[j as int]@ != x@ || before[j as int] == x);
                        if b - 1 > j {
                            assert(before[j as int]@ < before[b - 1]@);
                        }
                    } else if a < j {
                        assert(out@[a] == before[a] && out@[b] == before[b - 1]);
                        if b - 1 > j {
                            assert(before[j as int]@ < before[b - 1]@);
                        }
                    } else {
                        assert(out@[a] == before[a - 1] && out@[b] == before[b - 1]);
                    }
                }
            }
        }
        proof {
            assert(v@.take(i + 1) =~= v@.take(i as int).push(x));
            assert forall|y: OrderSeq| #[trigger] out@.contains(y) <==> v@.take(i + 1).contains(y) by {
                let t = v@.take(i as int);
                if t.push(x).contains(y) {
                    let k = choose|k: int| 0 <= k < t.push(x).len() && t.push(x)[k] == y;
                    if k < t.len() {
                        assert(t[k] == y);
                    }
                }
                if t.contains(y) {
                    let k = choose|k: int| 0 <= k < t.len() && t[k] == y;
                    assert(t.push(x)[k] == y);
                }
                assert(t.push(x)[t.len() as int] == x);
                if present {
                    assert(out@[j as int] == x);
                    if before.contains(y) {
                        let k = choose|k: int| 0 <= k < before.len() && before[k] == y;
                        assert(out@[k] == y);
                    }
                } else {
                    assert(out@[j as int] == x);
                    if before.contains(y) {
                        let k = choose|k: int| 0 <= k < before.len() && before[k] == y;
                        if k < j {
                            assert(out@[k] == y);
                        } else {
                            assert(out@[k + 1] == y);
                        }
                    }
                    if out@.contains(y) {
                        let k = choose|k: int| 0 <= k < out@.len() && out@[k] == y;
                        if k < j {
                            assert(before[k] == y);
                        } else if k > j {
                            assert(before[k - 1] == y);
                        }
                    }
                }
            }
        }
        i = i + 1;
    }
    proof {
        assert(v@.take(i as int) =~= v@);
    }
    out
}

/// The state with its filled orders replaced by `filled`.
pub open spec fn with_filled(st: BookState, filled: Seq<OrderSeq>) -> BookState {
    BookState { bids: st.bids, asks: st.asks, filled }
}

/// What a step does to the sides, and what it reports, does not depend on
/// the orders filled before; it adds its own filled orders after them.
proof fn lemma_step_filled_independent(st: BookState, f: Seq<OrderSeq>, o: Order)
    ensures
        ({
            let x = step(with_filled(st, f), o);
            let y = step(with_filled(st, Seq::empty()), o);
            &&& x.0 == with_filled(y.0, f + y.0.filled)
            &&& x.1 == y.1
            &&& x.2 == y.2
            &&& x.3 == y.3
        }),
{
    let x = step(with_filled(st, f), o);
    let y = step(with_filled(st, Seq::empty()), o);
    let side = o.spec_side();
    let makers = if side == Side::Buy { st.asks } else { st.bids };
    let s = sweep(makers, side, o.spec_price(), o.spec_remaining()@);
    if o.spec_time_in_force() == TimeInForce::FillOrKill && s.2 > 0 {
        assert(f + Seq::<OrderSeq>::empty() =~= f);
        assert(x.0 =~= with_filled(y.0, f + y.0.filled));
    } else {
        let tail: Seq<OrderSeq> = if s.2 == 0 { seq![o.spec_id()] } else { Seq::empty() };
        let taken = seqs_of(makers.take(s.0 as int));
        assert(Seq::<OrderSeq>::empty() + taken + tail =~= taken + tail);
        assert(f + taken + tail =~= f + (taken + tail));
        assert(x.0 =~= with_filled(y.0, f + y.0.filled));
    }
}

/// Matching a list of orders does the same from any filled orders, adding
/// its own after them.
proof fn lemma_fold_filled_independent(st: BookState, f: Seq<OrderSeq>, os: Seq<Order>)
    ensures
        ({
            let x = process_fold(with_filled(st, f), os);
            let y = process_fold(with_filled(st, Seq::empty()), os);
            &&& x.0 == with_filled(y.0, f + y.0.filled)
            &&& x.1 == y.1
            &&& x.2 == y.2
            &&& x.3 == y.3
        }),
    decreases os.len(),
{
    if os.len() == 0 {
        assert(f + Seq::<OrderSeq>::empty() =~= f);
        assert(with_filled(st, f) =~= with_filled(with_filled(st, Seq::empty()), f + Seq::<OrderSeq>::empty()));
    } else {
        lemma_fold_filled_independent(st, f, os.drop_last());
        let px = process_fold(with_filled(st, f), os.drop_last());
        let py = process_fold(with_filled(st, Seq::empty()), os.drop_last());
        assert(px.0 =~= with_filled(py.0, f + py.0.filled));
        lemma_step_filled_independent(py.0, f + py.0.filled, os.last());
        lemma_step_filled_independent(py.0, py.0.filled, os.last());
        assert(with_filled(py.0, py.0.filled) =~= py.0);
        let sx = step(px.0, os.last());
        let sy = step(py.0, os.last());
        let e = step(with_filled(py.0, Seq::empty()), os.last());
        assert(sx.0 =~= with_filled(e.0, (f + py.0.filled) + e.0.filled));
        assert(sy.0 =~= with_filled(e.0, py.0.filled + e.0.filled));
        assert((f + py.0.filled) + e.0.filled =~= f + (py.0.filled + e.0.filled));
    }
}

/// Matching `a` then `b` is matching `a + b`.
proof fn lemma_fold_split(st: BookState, a: Seq<Order>, b: Seq<Order>)
    ensures
        ({
            let x = process_fold(st, a);
            let y = process_fold(x.0, b);
            let z = process_fold(st, a + b);
            &&& z.0 == y.0
            &&& z.1 == x.1 + y.1
            &&& z.2 == x.2 + y.2
            &&& z.3 == x.3 + y.3
        }),
    decreases b.len(),
{
    let x = process_fold(st, a);
    if b.len() == 0 {
        assert(a + b =~= a);
        assert(x.1 + Seq::<Fill>::empty() =~= x.1);
        assert(x.2 + Seq::<OrderSeq>::empty() =~= x.2);
        assert(x.3 + Seq::<(OrderSeq, RemovedOrder)>::empty() =~= x.3);
    } else {
        lemma_fold_split(st, a, b.drop_last());
        assert((a + b).drop_last() =~= a + b.drop_last());
        assert((a + b).last() == b.last());
        let y0 = process_fold(x.0, b.drop_last());
        let n = step(y0.0, b.last());
        assert((x.1 + y0.1) + n.1 =~= x.1 + (y0.1 + n.1));
        assert((x.2 + y0.2) + n.2 =~= x.2 + (y0.2 + n.2));
        assert((x.3 + y0.3) + n.3 =~= x.3 + (y0.3 + n.3));
    }
}

/// Matching pending orders in chunks, each chunk starting from the sides
/// the one before left and reporting (and clearing) its own filled orders,
/// ends where one run over all of them ends: the same sides, the same fills
/// and killed orders in the same order, and the filled orders of the one run
/// are those of the first chunk followed by those of the second.
pub proof fn lemma_chunked_matching(st: BookState, a: Seq<Order>, b: Seq<Order>)
    requires
        st.filled == Seq::<OrderSeq>::empty(),
    ensures
        ({
            let one = process_fold(st, a + b);
            let first = process_fold(st, a);
            let second = process_fold(with_filled(first.0, Seq::empty()), b);
            &&& one.0.bids == second.0.bids
            &&& one.0.asks == second.0.asks
            &&& one.0.filled == first.0.filled + second.0.filled
            &&& one.1 == first.1 + second.1
            &&& one.2 == first.2 + second.2
            &&& one.3 == first.3 + second.3
        }),
{
    let first = process_fold(st, a);
    lemma_fold_split(st, a, b);
    assert(with_filled(first.0, first.0.filled) =~= first.0);
    lemma_fold_filled_independent(first.0, first.0.filled, b);
}

/// Order `x` is on one side of the state or among its filled orders.
pub open spec fn kept_in(st: BookState, x: OrderSeq) -> bool {
    seqs_of(st.bids).contains(x) || seqs_of(st.asks).contains(x) || st.filled.contains(x)
}

proof fn lemma_seqs_member(s: Seq<BookEntry>, x: OrderSeq) -> (i: int)
    requires
        seqs_of(s).contains(x),
    ensures
        0 <= i < s.len(),
        eseq(s[i]) == x,
{
    let i = choose|i: int| 0 <= i < seqs_of(s).len() && seqs_of(s)[i] == x;
    i
}

proof fn lemma_seqs_at(s: Seq<BookEntry>, i: int)
    requires
        0 <= i < s.len(),
    ensures
        seqs_of(s).contains(eseq(s[i])),
{
    assert(seqs_of(s)[i] == eseq(s[i]));
}

/// A maker is either consumed in full or still on its side after a sweep.
proof fn lemma_swept_keeps(makers: Seq<BookEntry>, k: nat, p: nat, x: OrderSeq)
    requires
        k <= makers.len(),
        p > 0 ==> k < makers.len(),
        seqs_of(makers).contains(x),
    ensures
        seqs_of(makers.take(k as int)).contains(x) || seqs_of(swept(makers, k, p)).contains(x),
{
    let i = lemma_seqs_member(makers, x);
    if i < k {
        assert(makers.take(k as int)[i] == makers[i]);
        lemma_seqs_at(makers.take(k as int), i);
    } else {
        let j = i - k;
        let w = swept(makers, k, p);
        if p > 0 && j == 0 {
            RestingOrder::lemma_spec_new(eseq(makers[k as int]), Quantity::from_value((qty(makers[k as int]) - p) as nat));
            assert(w[0] == reduced(makers[k as int], p));
            assert(eseq(w[0]) == x);
            lemma_seqs_at(w, 0);
        } else {
            assert(w[j] == makers[i]);
            lemma_seqs_at(w, j);
        }
    }
}

/// Inserting into a side keeps what was there and adds the new entry.
proof fn lemma_insert_keeps(own: Seq<BookEntry>, pos: int, e: BookEntry, x: OrderSeq)
    requires
        0 <= pos <= own.len(),
    ensures
        seqs_of(own).contains(x) ==> seqs_of(own.insert(pos, e)).contains(x),
        seqs_of(own.insert(pos, e)).contains(eseq(e)),
{
    let t = own.insert(pos, e);
    if seqs_of(own).contains(x) {
        let i = lemma_seqs_member(own, x);
        if i < pos {
            assert(t[i] == own[i]);
            lemma_seqs_at(t, i);
        } else {
            assert(t[i + 1] == own[i]);
            lemma_seqs_at(t, i + 1);
        }
    }
    assert(t[pos] == e);
    lemma_seqs_at(t, pos);
}

proof fn lemma_concat_contains(a: Seq<OrderSeq>, b: Seq<OrderSeq>, x: OrderSeq)
    ensures
        a.contains(x) ==> (a + b).contains(x),
        b.contains(x) ==> (a + b).contains(x),
{
    if a.contains(x) {
        let i = choose|i: int| 0 <= i < a.len() && a[i] == x;
        assert((a + b)[i] == x);
    }
    if b.contains(x) {
        let i = choose|i: int| 0 <= i < b.len() && b[i] == x;
        assert((a + b)[a.len() + i] == x);
    }
}

/// One matching step loses no order: an order on a side or filled before
/// is on a side or filled after, and an order the step leaves resting is on
/// its side.
proof fn lemma_step_tracks(st: BookState, o: Order, x: OrderSeq)
    ensures
        kept_in(st, x) ==> kept_in(step(st, o).0, x),
        step(st, o).2.contains(x) ==> kept_in(step(st, o).0, x),
{
    let side = o.spec_side();
    let makers = if side == Side::Buy { st.asks } else { st.bids };
    let own = if side == Side::Buy { st.bids } else { st.asks };
    let s = sweep(makers, side, o.spec_price(), o.spec_remaining()@);
    if !(o.spec_time_in_force() == TimeInForce::FillOrKill && s.2 > 0) {
        lemma_sweep_bounds(makers, side, o.spec_price(), o.spec_remaining()@);
        lemma_insert_pos_bound(own, side, o.spec_price());
        let pos = insert_pos(own, side, o.spec_price()) as int;
        let e = resting_entry(o, s.2);
        RestingOrder::lemma_spec_new(o.spec_id(), Quantity::from_value(s.2));
        lemma_insert_keeps(own, pos, e, x);
        let tail: Seq<OrderSeq> = if s.2 == 0 { seq![o.spec_id()] } else { Seq::empty() };
        let taken = seqs_of(makers.take(s.0 as int));
        lemma_concat_contains(st.filled, taken, x);
        lemma_concat_contains(st.filled + taken, tail, x);
        if seqs_of(makers).contains(x) {
            lemma_swept_keeps(makers, s.0, s.1, x);
        }
        if step(st, o).2.contains(x) {
            assert(step(st, o).2 == seq![o.spec_id()]);
            assert(x == o.spec_id());
        }
    }
}

/// Matching orders one after another loses no order, and every order that
/// came to rest is on a side or among the filled orders at the end.
proof fn lemma_fold_tracks(st: BookState, orders: Seq<Order>, x: OrderSeq)
    ensures
        kept_in(st, x) ==> kept_in(process_fold(st, orders).0, x),
        process_fold(st, orders).2.contains(x) ==> kept_in(process_fold(st, orders).0, x),
    decreases orders.len(),
{
    if orders.len() > 0 {
        let prev = process_fold(st, orders.drop_last());
        lemma_fold_tracks(st, orders.drop_last(), x);
        lemma_step_tracks(prev.0, orders.last(), x);
        lemma_concat_contains(prev.2, step(prev.0, orders.last()).2, x);
        if (prev.2 + step(prev.0, orders.last()).2).contains(x) {
            let t = prev.2 + step(prev.0, orders.last()).2;
            let i = choose|i: int| 0 <= i < t.len() && t[i] == x;
            if i < prev.2.len() {
                assert(prev.2[i] == x);
            } else {
                assert(step(prev.0, orders.last()).2[i - prev.2.len()] == x);
            }
        }
    }
}

/// Every order a matching round reports as resting rests on a side of the
/// book afterwards.
pub proof fn lemma_reported_resting_rests(st: BookState, orders: Seq<Order>, x: OrderSeq)
    ensures
        ({
            let r = process_fold(st, orders);
            without(r.2, r.0.filled).contains(x) ==> seqs_of(r.0.bids).contains(x) || seqs_of(r.0.asks).contains(x)
        }),
{
    let r = process_fold(st, orders);
    lemma_fold_tracks(st, orders, x);
    lemma_resting_and_filled_disjoint(r.2, r.0.filled, x);
    if without(r.2, r.0.filled).contains(x) {
        let filled = r.0.filled;
        let pred = |y: OrderSeq| !filled.contains(y);
        r.2.lemma_filter_contains_rev(pred, x);
    }
}

/// In a matching round's output no order is reported both as resting and as
/// filled: an order that came to rest and was then filled in the same round
/// is reported as filled only.
pub proof fn lemma_resting_and_filled_disjoint(rested: Seq<OrderSeq>, filled: Seq<OrderSeq>, x: OrderSeq)
    ensures
        without(rested, filled).contains(x) ==> !filled.contains(x),
        (rested.contains(x) && !filled.contains(x)) ==> without(rested, filled).contains(x),
{
    let pred = |y: OrderSeq| !filled.contains(y);
    if without(rested, filled).contains(x) {
        let i = choose|i: int| 0 <= i < without(rested, filled).len() && without(rested, filled)[i] == x;
        rested.lemma_filter_pred(pred, i);
    }
    if rested.contains(x) && !filled.contains(x) {
        let i = choose|i: int| 0 <= i < rested.len() && rested[i] == x;
        rested.lemma_filter_contains(pred, i);
    }
}

/// Whether `x` occurs in `s` (linear scan).
fn contains_seq(s: &Vec<OrderSeq>, x: OrderSeq) -> (r: bool)
    ensures
        r == s@.contains(x),
{
    let mut i: usize = 0;
    while i < s.len()
        invariant
            i <= s@.len(),
            forall|j: int| 0 <= j < i ==> s@[j] != x,
        decreases s@.len() - i,
    {
        if s[i] == x {
            return true;
        }
        i = i + 1;
    }
    false
}

impl OrderBook {
    /// Match exactly the given pending-order sequences, in order, against the
    /// book. They must be the sequences at the head of the pending queue.
    pub fn process_pending_orders(&mut self, expected_seqs: &[OrderSeq]) -> (out: MatchingOutput)
        requires
            old(self).wf(),
            expected_seqs@.len() <= old(self).spec_pending().len(),
            forall|i: int| 0 <= i < expected_seqs@.len() ==> #[trigger] expected_seqs@[i] == old(self).spec_pending()[i].spec_id(),
        ensures
            final(self).wf(),
            final(self).same_config(*old(self)),
            final(self).spec_next_seq() == old(self).spec_next_seq(),
            final(self).spec_pending() == old(self).spec_pending().skip(expected_seqs@.len() as int),
            ({
                let r = process_fold(old(self).state(), old(self).spec_pending().take(expected_seqs@.len() as int));
                &&& final(self).spec_bids() == r.0.bids
                &&& final(self).spec_asks() == r.0.asks
                &&& final(self).spec_filled() == Seq::<OrderSeq>::empty()
                &&& out.fills@ == r.1
                &&& lists_set(out.filled_orders@, r.0.filled)
                &&& lists_set(out.resting_orders@, without(r.2, r.0.filled))
                &&& out.expired_orders@ == r.3
            }),
            forall|x: OrderSeq| #[trigger] out.resting_orders@.contains(x) ==> seqs_of(final(self).spec_bids()).contains(x)
                || seqs_of(final(self).spec_asks()).contains(x),
    {
        let ghost st0 = self.state();
        let ghost p0 = self.spec_pending();
        let n = expected_seqs.len();
        let mut fills: Vec<Fill> = Vec::new();
        let mut rested: Vec<OrderSeq> = Vec::new();
        let mut expired: Vec<(OrderSeq, RemovedOrder)> = Vec::new();
        let mut j: usize = 0;
        proof {
            assert(p0.take(0) =~= Seq::<Order>::empty());
            assert(p0.skip(0) =~= p0);
        }
        while j < n
            invariant
                j <= n,
                n == expected_seqs@.len(),
                n <= p0.len(),
                forall|i: int| 0 <= i < n ==> #[trigger] expected_seqs@[i] == p0[i].spec_id(),
                self.wf(),
                self.same_config(*old(self)),
                self.spec_next_seq() == old(self).spec_next_seq(),
                self.spec_pending() == p0.skip(j as int),
                ({
                    let r = process_fold(st0, p0.take(j as int));
                    &&& self.state() == r.0
                    &&& fills@ == r.1
                    &&& rested@ == r.2
                    &&& expired@ == r.3
                }),
            decreases n - j,
        {
            let ghost before = *self;
            let order = self.pending_orders.remove(0);
            proof {
                assert(order == p0[j as int]);
                assert(self.spec_pending() =~= p0.skip(j + 1));
                assert(self.spec_pending() =~= before.spec_pending().drop_first());
                lemma_pending_pop(before, *self);
            }
            let result = self.match_order(order);
            proof {
                assert(p0.take(j + 1).drop_last() =~= p0.take(j as int));
                assert(p0.take(j + 1).last() == order);
            }
            match result {
                Ok(result) => {
                    let ghost rr = result_rested(result);
                    let ghost kk = result_killed(result, order);
                    match result.resting_order_seq() {
                        Some(seq) => {
                            rested.push(seq);
                        },
                        None => {},
                    }
                    match result {
                        MatchResult::Killed { killed_order_seq } => {
                            expired.push((killed_order_seq, RemovedOrder {
                                side: order.side(),
                                price: order.price(),
                                remaining_quantity: *order.remaining_quantity(),
                            }));
                        },
                        _ => {},
                    }
                    let mut new_fills = result.into_fills();
                    fills.append(&mut new_fills);
                    proof {
                        assert(rested@ =~= process_fold(st0, p0.take(j as int)).2 + rr);
                        assert(expired@ =~= process_fold(st0, p0.take(j as int)).3 + kk);
                    }
                },
                Err(_) => {
                    proof {
                        assert(false);
                    }
                },
            }
            j = j + 1;
        }
        let mut filled: Vec<OrderSeq> = Vec::new();
        let ghost mid = *self;
        std::mem::swap(&mut filled, &mut self.filled_orders);
        proof {
            assert(self.spec_bids() == mid.spec_bids());
            assert(self.spec_asks() == mid.spec_asks());
            assert(self.spec_pending() == mid.spec_pending());
            assert(self.spec_all_seqs() == mid.spec_all_seqs());
            assert(self.wf());
        }
        let mut resting: Vec<OrderSeq> = Vec::new();
        let mut i: usize = 0;
        while i < rested.len()
            invariant
                i <= rested@.len(),
                resting@ == without(rested@.subrange(0, i as int), filled@),
                self.wf(),
            decreases rested@.len() - i,
        {
            let x = rested[i];
            let keep = !contains_seq(&filled, x);
            if keep {
                resting.push(x);
            }
            proof {
                let pre = rested@.subrange(0, i as int);
                assert(rested@.subrange(0, i + 1) =~= pre.push(x));
                reveal(Seq::filter);
                assert(pre.push(x).drop_last() =~= pre);
            }
            i = i + 1;
        }
        proof {
            assert(rested@.subrange(0, rested@.len() as int) =~= rested@);
            assert(self.spec_filled() =~= Seq::<OrderSeq>::empty());
            assert forall|x: OrderSeq| #[trigger] resting@.contains(x) implies seqs_of(self.spec_bids()).contains(x)
                || seqs_of(self.spec_asks()).contains(x) by {
                lemma_reported_resting_rests(st0, p0.take(n as int), x);
            }
        }
        let resting = ascending_set(&resting);
        let filled = ascending_set(&filled);
        MatchingOutput { fills, resting_orders: resting, filled_orders: filled, expired_orders: expired }
    }
}

/// Taking the head order off the pending queue keeps the book well formed
/// and leaves that order held nowhere in it.
proof fn lemma_pending_pop(before: OrderBook, after: OrderBook)
    requires
        before.wf(),
        before.spec_pending().len() > 0,
        after.spec_pending() == before.spec_pending().drop_first(),
        after.spec_bids() == before.spec_bids(),
        after.spec_asks() == before.spec_asks(),
        after.spec_next_seq() == before.spec_next_seq(),
        after.spec_tick_size() == before.spec_tick_size(),
        after.spec_lot_size() == before.spec_lot_size(),
    ensures
        after.wf(),
        !after.holds(before.spec_pending()[0].spec_id()),
        before.spec_pending()[0].spec_id()@ < after.spec_next_seq()@,
{
    let o = before.spec_pending()[0];
    let p = order_seqs(before.spec_pending());
    let q = order_seqs(after.spec_pending());
    assert(q =~= p.drop_first());
    assert(p[0] == o.spec_id());
    assert forall|x: OrderSeq| #[trigger] q.contains(x) implies p.contains(x) && x != o.spec_id() by {
        let i = choose|i: int| 0 <= i < q.len() && q[i] == x;
        assert(p[i + 1] == x);
    }
    assert forall|i: int, j: int| 0 <= i < q.len() && 0 <= j < q.len() && i != j implies q[i] != q[j] by {
        assert(q[i] == p[i + 1] && q[j] == p[j + 1]);
    }
    lemma_concat3_contains(seqs_of(before.spec_bids()), seqs_of(before.spec_asks()), p);
    lemma_concat3_contains(seqs_of(after.spec_bids()), seqs_of(after.spec_asks()), q);
    assert(p.contains(o.spec_id()));
    assert(before.spec_all_seqs().contains(o.spec_id()));
    assert forall|x: OrderSeq| #[trigger] after.spec_all_seqs().contains(x) implies x@ < after.spec_next_seq()@ by {
        assert(before.spec_all_seqs().contains(x));
    }
    assert forall|x: OrderSeq| #[trigger] seqs_of(after.spec_bids()).contains(x) implies !seqs_of(after.spec_asks()).contains(x)
        && !order_seqs(after.spec_pending()).contains(x) by {
        assert(seqs_of(before.spec_bids()).contains(x));
    }
    assert forall|x: OrderSeq| #[trigger] seqs_of(after.spec_asks()).contains(x) implies !order_seqs(after.spec_pending()).contains(x) by {
        assert(seqs_of(before.spec_asks()).contains(x));
    }
    assert(q.no_duplicates());
    assert forall|i: int| 0 <= i < after.spec_pending().len() implies #[trigger] order_valid(
        after.spec_pending()[i].spec_price(),
        after.spec_pending()[i].spec_remaining(),
        after.spec_tick_size(),
        after.spec_lot_size(),
    ) by {
        assert(after.spec_pending()[i] == before.spec_pending()[i + 1]);
    }
}

/// Index of the pending order with sequence `seq`, if any.
pub open spec fn find_pending(s: Seq<Order>, seq: OrderSeq) -> Option<nat>
    decreases s.len(),
{
    if s.len() == 0 {
        None
    } else if s[0].spec_id() == seq {
        Some(0)
    } else {
        match find_pending(s.drop_first(), seq) {
            Some(i) => Some(i + 1),
            None => None,
        }
    }
}

proof fn lemma_find_seq_scan(s: Seq<BookEntry>, seq: OrderSeq, i: int)
    requires
        0 <= i <= s.len(),
        forall|j: int| 0 <= j < i ==> eseq(#[trigger] s[j]) != seq,
    ensures
        i < s.len() && eseq(s[i]) == seq ==> find_seq(s, seq) == Some(i as nat),
        i == s.len() ==> find_seq(s, seq) is None,
    decreases i,
{
    if s.len() > 0 && i > 0 {
        assert forall|j: int| 0 <= j < i - 1 implies eseq(#[trigger] s.drop_first()[j]) != seq by {
            assert(s.drop_first()[j] == s[j + 1]);
        }
        lemma_find_seq_scan(s.drop_first(), seq, i - 1);
    }
}

proof fn lemma_find_pending_scan(s: Seq<Order>, seq: OrderSeq, i: int)
    requires
        0 <= i <= s.len(),
        forall|j: int| 0 <= j < i ==> (#[trigger] s[j]).spec_id() != seq,
    ensures
        i < s.len() && s[i].spec_id() == seq ==> find_pending(s, seq) == Some(i as nat),
        i == s.len() ==> find_pending(s, seq) is None,
    decreases i,
{
    if s.len() > 0 && i > 0 {
        assert forall|j: int| 0 <= j < i - 1 implies (#[trigger] s.drop_first()[j]).spec_id() != seq by {
            assert(s.drop_first()[j] == s[j + 1]);
        }
        lemma_find_pending_scan(s.drop_first(), seq, i - 1);
    }
}

/// Position of the entry with sequence `seq`.
fn find_entry(entries: &Vec<BookEntry>, seq: OrderSeq) -> (r: Option<usize>)
    ensures
        match r {
            Some(i) => find_seq(entries@, seq) == Some(i as nat) && i < entries@.len(),
            None => find_seq(entries@, seq) is None,
        },
{
    let mut i: usize = 0;
    while i < entries.len()
        invariant
            i <= entries@.len(),
            forall|j: int| 0 <= j < i ==> eseq(#[trigger] entries@[j]) != seq,
        decreases entries@.len() - i,
    {
        if entries[i].order.id() == seq {
            proof { lemma_find_seq_scan(entries@, seq, i as int); }
            return Some(i);
        }
        i = i + 1;
    }
    proof { lemma_find_seq_scan(entries@, seq, i as int); }
    None
}

/// Removing an entry keeps a side sorted, positive and duplicate-free.
proof fn lemma_remove_entry(s: Seq<BookEntry>, side: Side, i: int)
    requires
        0 <= i < s.len(),
    ensures
        sorted_side(s, side) ==> sorted_side(s.remove(i), side),
        (forall|j: int| 0 <= j < s.len() ==> qty(#[trigger] s[j]) > 0) ==> (forall|j: int|
            0 <= j < s.remove(i).len() ==> qty(#[trigger] s.remove(i)[j]) > 0),
        seqs_of(s).no_duplicates() ==> seqs_of(s.remove(i)).no_duplicates(),
        forall|x: OrderSeq| #[trigger] seqs_of(s.remove(i)).contains(x) ==> seqs_of(s).contains(x),
{
    let t = s.remove(i);
    assert forall|j: int| 0 <= j < t.len() implies #[trigger] t[j] == s[if j < i { j } else { j + 1 }] by {}
    assert(seqs_of(t) =~= seqs_of(s).remove(i));
    assert forall|x: OrderSeq| #[trigger] seqs_of(t).contains(x) implies seqs_of(s).contains(x) by {
        let k = choose|k: int| 0 <= k < seqs_of(t).len() && seqs_of(t)[k] == x;
        assert(seqs_of(s)[if k < i { k } else { k + 1 }] == x);
    }
    if sorted_side(s, side) {
        assert forall|a: int, b: int| 0 <= a < b < t.len() implies !better(side, #[trigger] t[b].price, #[trigger] t[a].price) by {
            assert(t[a] == s[if a < i { a } else { a + 1 }]);
            assert(t[b] == s[if b < i { b } else { b + 1 }]);
        }
    }
    if seqs_of(s).no_duplicates() {
        assert forall|a: int, b: int| 0 <= a < t.len() && 0 <= b < t.len() && a != b implies seqs_of(t)[a] != seqs_of(t)[b] by {
            assert(seqs_of(t)[a] == seqs_of(s)[if a < i { a } else { a + 1 }]);
            assert(seqs_of(t)[b] == seqs_of(s)[if b < i { b } else { b + 1 }]);
        }
    }
}


// ---------------------------------------------------------------------------
// Depth: aggregated price levels
// ---------------------------------------------------------------------------

/// `a + b`, capped at the largest quantity.
pub open spec fn sat_add(a: nat, b: nat) -> nat {
    if a + b >= pow2_256() { (pow2_256() - 1) as nat } else { a + b }
}

/// The price levels of a side, in the side's order: each distinct price
/// once, with the running sum of the remaining quantities resting there
/// (capped at the largest quantity).
pub open spec fn levels(s: Seq<BookEntry>) -> Seq<(Price, nat)>
    decreases s.len(),
{
    if s.len() == 0 {
        Seq::empty()
    } else {
        let pre = levels(s.drop_last());
        let e = s.last();
        if pre.len() > 0 && pre.last().0 == e.price {
            pre.update(pre.len() - 1, (e.price, sat_add(pre.last().1, qty(e))))
        } else {
            pre.push((e.price, qty(e)))
        }
    }
}

/// The last level is the price of the last entry; levels never outnumber entries.
proof fn lemma_levels_basic(s: Seq<BookEntry>)
    ensures
        levels(s).len() <= s.len(),
        s.len() > 0 ==> levels(s).len() > 0 && levels(s).last().0 == s.last().price,
        forall|k: int| 0 <= k < levels(s).len() ==> (#[trigger] levels(s)[k]).1 < pow2_256(),
    decreases s.len(),
{
    if s.len() > 0 {
        lemma_levels_basic(s.drop_last());
        Quantity::lemma_bound(s.last().order.spec_remaining());
    }
}

/// Levels split where the price changes.
proof fn lemma_levels_split(s: Seq<BookEntry>, i: int)
    requires
        0 < i <= s.len(),
        i < s.len() ==> s[i].price != s[i - 1].price,
    ensures
        levels(s) == levels(s.take(i)) + levels(s.skip(i)),
    decreases s.len(),
{
    if i == s.len() {
        assert(s.take(i) =~= s);
        assert(s.skip(i) =~= Seq::<BookEntry>::empty());
        assert(levels(s) + Seq::<(Price, nat)>::empty() =~= levels(s));
    } else {
        let t = s.drop_last();
        if i < t.len() {
            assert(t[i] == s[i] && t[i - 1] == s[i - 1]);
        }
        lemma_levels_split(t, i);
        assert(t.take(i) =~= s.take(i));
        assert(t.skip(i) =~= s.skip(i).drop_last());
        let a = levels(s.take(i));
        let b = levels(s.skip(i).drop_last());
        let e = s.last();
        assert(s.skip(i).last() == e);
        lemma_levels_basic(s.take(i));
        assert(s.take(i).last() == s[i - 1]);
        if b.len() == 0 {
            assert(s.skip(i).drop_last().len() == 0);
            assert(e == s[i]);
            assert((a + b) =~= a);
            assert(levels(s.skip(i)) =~= seq![(e.price, qty(e))]);
            assert(a.push((e.price, qty(e))) =~= a + seq![(e.price, qty(e))]);
        } else {
            assert((a + b).last() == b.last());
            if b.last().0 == e.price {
                assert((a + b).update((a + b).len() - 1, (e.price, sat_add(b.last().1, qty(e)))) =~= a + b.update(
                    b.len() - 1,
                    (e.price, sat_add(b.last().1, qty(e))),
                ));
            } else {
                assert((a + b).push((e.price, qty(e))) =~= a + b.push((e.price, qty(e))));
            }
        }
    }
}

/// The entries `0..i+1` have the levels of `0..i` with entry `i` added.
proof fn lemma_levels_take_step(s: Seq<BookEntry>, i: int)
    requires
        0 <= i < s.len(),
    ensures
        levels(s.take(i + 1)) == ({
            let pre = levels(s.take(i));
            if pre.len() > 0 && pre.last().0 == s[i].price {
                pre.update(pre.len() - 1, (s[i].price, sat_add(pre.last().1, qty(s[i]))))
            } else {
                pre.push((s[i].price, qty(s[i])))
            }
        }),
{
    assert(s.take(i + 1).drop_last() =~= s.take(i));
    assert(s.take(i + 1).last() == s[i]);
}

/// Up to `limit` price levels of a side, best first.
fn side_levels(entries: &Vec<BookEntry>, limit: usize) -> (r: Vec<(Price, Quantity)>)
    ensures
        r@.len() == if levels(entries@).len() < limit { levels(entries@).len() } else { limit as nat },
        forall|k: int| 0 <= k < r@.len() ==> (#[trigger] r@[k]).0 == levels(entries@)[k].0 && r@[k].1@ == levels(entries@)[k].1,
{
    let mut out: Vec<(Price, Quantity)> = Vec::new();
    if limit == 0 {
        return out;
    }
    let mut i: usize = 0;
    proof {
        assert(entries@.take(0) =~= Seq::<BookEntry>::empty());
    }
    while i < entries.len()
        invariant
            i <= entries@.len(),
            limit > 0,
            out@.len() == levels(entries@.take(i as int)).len(),
            out@.len() <= limit,
            forall|k: int| 0 <= k < out@.len() ==> (#[trigger] out@[k]).0 == levels(entries@.take(i as int))[k].0
                && out@[k].1@ == levels(entries@.take(i as int))[k].1,
        ensures
            i <= entries@.len(),
            out@.len() == levels(entries@.take(i as int)).len(),
            forall|k: int| 0 <= k < out@.len() ==> (#[trigger] out@[k]).0 == levels(entries@.take(i as int))[k].0
                && out@[k].1@ == levels(entries@.take(i as int))[k].1,
            i < entries@.len() ==> out@.len() == limit && 0 < i && entries@[i as int].price != entries@[i - 1].price,
            i == entries@.len() ==> out@.len() <= limit,
        decreases entries@.len() - i,
    {
        let e = entries[i];
        let ghost pre = levels(entries@.take(i as int));
        proof {
            lemma_levels_take_step(entries@, i as int);
            lemma_levels_basic(entries@.take(i as int));
            if i > 0 {
                assert(entries@.take(i as int).last() == entries@[i - 1]);
            }
        }
        let n = out.len();
        let ghost old_out = out@;
        if n > 0 && out[n - 1].0.get() == e.price.get() {
            let (p, q) = out[n - 1];
            let sum = match q.checked_add(*e.order.remaining_quantity()) {
                Some(t) => t,
                None => Quantity::max_value(),
            };
            proof {
                assert(out@[n - 1].0 == pre[n - 1].0);
                assert(pre.last().0 == e.price);
                assert(sum@ == sat_add(pre.last().1, qty(e)));
            }
            out.set(n - 1, (p, sum));
            proof {
                let nxt = levels(entries@.take(i + 1));
                assert(nxt == pre.update(pre.len() - 1, (e.price, sat_add(pre.last().1, qty(e)))));
                assert forall|k: int| 0 <= k < out@.len() implies (#[trigger] out@[k]).0 == nxt[k].0 && out@[k].1@ == nxt[k].1 by {
                    if k < n - 1 {
                        assert(out@[k] == old_out[k]);
                    }
                }
            }
        } else {
            if n == limit {
                proof {
                    assert(pre.last().0 != e.price);
                }
                break;
            }
            out.push((e.price, *e.order.remaining_quantity()));
            proof {
                let nxt = levels(entries@.take(i + 1));
                assert(!(pre.len() > 0 && pre.last().0 == e.price));
                assert(nxt == pre.push((e.price, qty(e))));
                assert forall|k: int| 0 <= k < out@.len() implies (#[trigger] out@[k]).0 == nxt[k].0 && out@[k].1@ == nxt[k].1 by {
                    if k < n {
                        assert(out@[k] == old_out[k]);
                    }
                }
            }
        }
        i = i + 1;
    }
    proof {
        if i < entries@.len() {
            lemma_levels_split(entries@, i as int);
        } else {
            assert(entries@.take(i as int) =~= entries@);
        }
    }
    out
}


/// Number of distinct price levels of a side.
fn level_count(entries: &Vec<BookEntry>) -> (r: usize)
    ensures
        r == levels(entries@).len(),
{
    let mut count: usize = 0;
    let mut i: usize = 0;
    proof {
        assert(entries@.take(0) =~= Seq::<BookEntry>::empty());
    }
    while i < entries.len()
        invariant
            i <= entries@.len(),
            count == levels(entries@.take(i as int)).len(),
        decreases entries@.len() - i,
    {
        proof {
            lemma_levels_take_step(entries@, i as int);
            lemma_levels_basic(entries@.take(i as int));
            lemma_levels_basic(entries@.take(i + 1));
            if i > 0 {
                assert(entries@.take(i as int).last() == entries@[i - 1]);
            }
        }
        if i == 0 || entries[i - 1].price.get() != entries[i].price.get() {
            count = count + 1;
        }
        i = i + 1;
    }
    proof {
        assert(entries@.take(i as int) =~= entries@);
    }
    count
}

impl OrderBook {
    /// Number of bid price levels.
    pub fn bids_len(&self) -> (r: usize)
        ensures
            r == levels(self.spec_bids()).len(),
    {
        level_count(&self.bids)
    }

    /// Number of ask price levels.
    pub fn asks_len(&self) -> (r: usize)
        ensures
            r == levels(self.spec_asks()).len(),
    {
        level_count(&self.asks)
    }

    /// Bid price levels, highest price first, up to `limit` levels; each
    /// with the remaining quantity resting at that price.
    pub fn bid_levels(&self, limit: usize) -> (r: Vec<(Price, Quantity)>)
        ensures
            r@.len() == if levels(self.spec_bids()).len() < limit { levels(self.spec_bids()).len() } else { limit as nat },
            forall|k: int| 0 <= k < r@.len() ==> (#[trigger] r@[k]).0 == levels(self.spec_bids())[k].0
                && r@[k].1@ == levels(self.spec_bids())[k].1,
    {
        side_levels(&self.bids, limit)
    }

    /// Ask price levels, lowest price first, up to `limit` levels; each
    /// with the remaining quantity resting at that price.
    pub fn ask_levels(&self, limit: usize) -> (r: Vec<(Price, Quantity)>)
        ensures
            r@.len() == if levels(self.spec_asks()).len() < limit { levels(self.spec_asks()).len() } else { limit as nat },
            forall|k: int| 0 <= k < r@.len() ==> (#[trigger] r@[k]).0 == levels(self.spec_asks())[k].0
                && r@[k].1@ == levels(self.spec_asks())[k].1,
    {
        side_levels(&self.asks, limit)
    }
}


// ---------------------------------------------------------------------------
// Snapshots: a plain-data image of a book, and restoring a book from one
// ---------------------------------------------------------------------------

/// One price level of a side: the price and the orders resting there, oldest first.
#[derive(Clone, Debug, PartialEq, Eq)]
pub struct PriceLevel {
    pub price: Price,
    pub orders: Vec<RestingOrder>,
}

/// Plain-data image of an [`OrderBook`], used to persist a book across
/// upgrades. Each side is a list of price levels.
#[derive(Clone, Debug, PartialEq, Eq)]
pub struct OrderBookSnapshot {
    pub id: OrderBookId,
    pub next_seq: OrderSeq,
    pub tick_size: TickSize,
    pub lot_size: LotSize,
    pub pending_orders: Vec<Order>,
    /// Bid levels, best (highest) price first.
    pub bids: Vec<PriceLevel>,
    /// Ask levels, best (lowest) price first.
    pub asks: Vec<PriceLevel>,
    pub filled_orders: Vec<OrderSeq>,
    pub fee_rates: FeeRates,
    pub min_notional: Quantity,
    pub max_notional: Option<Quantity>,
}

/// The entries of orders resting at `price`.
pub open spec fn entries_at(price: Price, orders: Seq<RestingOrder>) -> Seq<BookEntry> {
    orders.map_values(|o: RestingOrder| BookEntry { price, order: o })
}

/// The entries of a list of levels, level after level.
pub open spec fn flatten(ls: Seq<PriceLevel>) -> Seq<BookEntry>
    decreases ls.len(),
{
    if ls.len() == 0 {
        Seq::empty()
    } else {
        flatten(ls.drop_last()) + entries_at(ls.last().price, ls.last().orders@)
    }
}

/// `levels` is `entries` grouped into maximal runs of one price, best first.
pub open spec fn grouped(levels: Seq<PriceLevel>, entries: Seq<BookEntry>, side: Side) -> bool {
    &&& flatten(levels) == entries
    &&& forall|k: int| 0 <= k < levels.len() ==> (#[trigger] levels[k]).orders@.len() > 0
    &&& forall|k: int, l: int| 0 <= k < l < levels.len() ==> better(side, #[trigger] levels[k].price, #[trigger] levels[l].price)
}

proof fn lemma_flatten_push(ls: Seq<PriceLevel>, l: PriceLevel)
    ensures
        flatten(ls.push(l)) == flatten(ls) + entries_at(l.price, l.orders@),
{
    assert(ls.push(l).drop_last() =~= ls);
}

/// Group a sorted side into its price levels.
fn group_levels(entries: &Vec<BookEntry>, side: Side) -> (r: Vec<PriceLevel>)
    requires
        sorted_side(entries@, side),
    ensures
        grouped(r@, entries@, side),
{
    let mut out: Vec<PriceLevel> = Vec::new();
    if entries.len() == 0 {
        proof {
            assert(flatten(out@) =~= entries@);
        }
        return out;
    }
    let mut cur_price = entries[0].price;
    let mut cur: Vec<RestingOrder> = Vec::new();
    cur.push(entries[0].order);
    let mut i: usize = 1;
    proof {
        assert(entries_at(cur_price, cur@) =~= entries@.take(1));
        assert(flatten(out@) + entries_at(cur_price, cur@) =~= entries@.take(1));
    }
    while i < entries.len()
        invariant
            1 <= i <= entries@.len(),
            sorted_side(entries@, side),
            cur@.len() > 0,
            cur_price == entries@[i - 1].price,
            flatten(out@) + entries_at(cur_price, cur@) == entries@.take(i as int),
            forall|k: int| 0 <= k < out@.len() ==> (#[trigger] out@[k]).orders@.len() > 0,
            forall|k: int, l: int| 0 <= k < l < out@.len() ==> better(side, #[trigger] out@[k].price, #[trigger] out@[l].price),
            forall|k: int| 0 <= k < out@.len() ==> better(side, #[trigger] out@[k].price, cur_price),
        decreases entries@.len() - i,
    {
        let e = entries[i];
        let ghost prev = entries_at(cur_price, cur@);
        let ghost out0 = out@;
        if e.price.get() == cur_price.get() {
            cur.push(e.order);
            proof {
                assert(entries_at(cur_price, cur@) =~= prev.push(e));
                assert(entries@.take(i + 1) =~= entries@.take(i as int).push(e));
                assert(flatten(out@) + entries_at(cur_price, cur@) =~= (flatten(out@) + prev).push(e));
            }
        } else {
            proof {
                assert(!better(side, entries@[i as int].price, entries@[i - 1].price));
            }
            let level = PriceLevel { price: cur_price, orders: cur };
            out.push(level);
            cur = Vec::new();
            cur.push(e.order);
            let ghost old_price = cur_price;
            cur_price = e.price;
            proof {
                assert(better(side, old_price, cur_price));
                lemma_flatten_push(out0, level);
                assert(entries_at(cur_price, cur@) =~= seq![e]);
                assert(entries@.take(i + 1) =~= entries@.take(i as int).push(e));
                assert(flatten(out@) + entries_at(cur_price, cur@) =~= (flatten(out0) + prev).push(e));
                assert forall|k: int| 0 <= k < out@.len() implies better(side, #[trigger] out@[k].price, cur_price) by {
                    if k < out0.len() {
                        assert(out@[k] == out0[k]);
                    }
                }
                assert forall|k: int, l: int| 0 <= k < l < out@.len() implies better(side, #[trigger] out@[k].price, #[trigger] out@[l].price) by {
                    assert(out@[k] == out0[k]);
                    if l < out0.len() {
                        assert(out@[l] == out0[l]);
                    }
                }
                assert forall|k: int| 0 <= k < out@.len() implies (#[trigger] out@[k]).orders@.len() > 0 by {
                    if k < out0.len() {
                        assert(out@[k] == out0[k]);
                    }
                }
            }
        }
        i = i + 1;
    }
    let level = PriceLevel { price: cur_price, orders: cur };
    let ghost out0 = out@;
    out.push(level);
    proof {
        lemma_flatten_push(out0, level);
        assert(entries@.take(i as int) =~= entries@);
        assert forall|k: int, l: int| 0 <= k < l < out@.len() implies better(side, #[trigger] out@[k].price, #[trigger] out@[l].price) by {
            assert(out@[k] == out0[k]);
            if l < out0.len() {
                assert(out@[l] == out0[l]);
            }
        }
        assert forall|k: int| 0 <= k < out@.len() implies (#[trigger] out@[k]).orders@.len() > 0 by {
            if k < out0.len() {
                assert(out@[k] == out0[k]);
            }
        }
    }
    out
}


/// The entries of a list of levels, in order.
fn flatten_levels(levels: &Vec<PriceLevel>) -> (r: Vec<BookEntry>)
    ensures
        r@ == flatten(levels@),
{
    let mut out: Vec<BookEntry> = Vec::new();
    let mut li: usize = 0;
    proof {
        assert(levels@.take(0) =~= Seq::<PriceLevel>::empty());
    }
    while li < levels.len()
        invariant
            li <= levels@.len(),
            out@ == flatten(levels@.take(li as int)),
        decreases levels@.len() - li,
    {
        let level = &levels[li];
        let mut oi: usize = 0;
        proof {
            assert(level.orders@.take(0) =~= Seq::<RestingOrder>::empty());
            assert(out@ + entries_at(level.price, level.orders@.take(0)) =~= out@);
        }
        while oi < level.orders.len()
            invariant
                li < levels@.len(),
                *level == levels@[li as int],
                oi <= level.orders@.len(),
                out@ == flatten(levels@.take(li as int)) + entries_at(level.price, level.orders@.take(oi as int)),
            decreases level.orders@.len() - oi,
        {
            out.push(BookEntry { price: level.price, order: level.orders[oi] });
            proof {
                assert(entries_at(level.price, level.orders@.take(oi + 1)) =~= entries_at(
                    level.price,
                    level.orders@.take(oi as int),
                ).push(BookEntry { price: level.price, order: level.orders@[oi as int] }));
                assert(out@ =~= flatten(levels@.take(li as int)) + entries_at(level.price, level.orders@.take(oi + 1)));
            }
            oi = oi + 1;
        }
        proof {
            assert(level.orders@.take(oi as int) =~= level.orders@);
            assert(levels@.take(li + 1) =~= levels@.take(li as int).push(levels@[li as int]));
            lemma_flatten_push(levels@.take(li as int), levels@[li as int]);
        }
        li = li + 1;
    }
    proof {
        assert(levels@.take(li as int) =~= levels@);
    }
    out
}

/// Inserting entries one after another, each at its priority position.
pub open spec fn insert_all(s: Seq<BookEntry>, side: Side) -> Seq<BookEntry>
    decreases s.len(),
{
    if s.len() == 0 {
        Seq::empty()
    } else {
        let pre = insert_all(s.drop_last(), side);
        pre.insert(insert_pos(pre, side, s.last().price) as int, s.last())
    }
}

/// Inserting the entries of a side that is already in priority order gives it back.
proof fn lemma_insert_all_sorted(s: Seq<BookEntry>, side: Side)
    requires
        sorted_side(s, side),
    ensures
        insert_all(s, side) == s,
    decreases s.len(),
{
    if s.len() > 0 {
        let t = s.drop_last();
        assert(sorted_side(t, side)) by {
            assert forall|i: int, j: int| 0 <= i < j < t.len() implies !better(side, #[trigger] t[j].price, #[trigger] t[i].price) by {
                assert(t[i] == s[i] && t[j] == s[j]);
            }
        }
        lemma_insert_all_sorted(t, side);
        assert forall|j: int| 0 <= j < t.len() implies !better(side, s.last().price, #[trigger] t[j].price) by {
            assert(t[j] == s[j]);
        }
        lemma_insert_pos_scan(t, side, s.last().price, t.len() as int);
        assert(t.insert(t.len() as int, s.last()) =~= s);
    }
}

/// Rebuild a side by inserting entries one after another.
fn restore_side(entries: &Vec<BookEntry>, side: Side) -> (r: Vec<BookEntry>)
    ensures
        r@ == insert_all(entries@, side),
        sorted_side(r@, side),
        forall|x: OrderSeq| #[trigger] seqs_of(r@).contains(x) <==> seqs_of(entries@).contains(x),
        seqs_of(entries@).no_duplicates() ==> seqs_of(r@).no_duplicates(),
        (forall|i: int| 0 <= i < entries@.len() ==> qty(#[trigger] entries@[i]) > 0) ==> (forall|i: int|
            0 <= i < r@.len() ==> qty(#[trigger] r@[i]) > 0),
{
    let mut out: Vec<BookEntry> = Vec::new();
    let mut i: usize = 0;
    proof {
        assert(entries@.take(0) =~= Seq::<BookEntry>::empty());
        assert(seqs_of(out@) =~= Seq::<OrderSeq>::empty());
        assert(seqs_of(entries@.take(0)) =~= Seq::<OrderSeq>::empty());
    }
    while i < entries.len()
        invariant
            i <= entries@.len(),
            out@ == insert_all(entries@.take(i as int), side),
            sorted_side(out@, side),
            forall|x: OrderSeq| #[trigger] seqs_of(out@).contains(x) <==> seqs_of(entries@.take(i as int)).contains(x),
            seqs_of(entries@).no_duplicates() ==> seqs_of(out@).no_duplicates(),
            (forall|j: int| 0 <= j < entries@.len() ==> qty(#[trigger] entries@[j]) > 0) ==> (forall|j: int|
                0 <= j < out@.len() ==> qty(#[trigger] out@[j]) > 0),
        decreases entries@.len() - i,
    {
        let e = entries[i];
        let ghost pre = out@;
        proof {
            assert(entries@.take(i + 1).drop_last() =~= entries@.take(i as int));
            assert(entries@.take(i + 1).last() == e);
            lemma_insert_pos_bound(pre, side, e.price);
            lemma_seqs_insert(pre, insert_pos(pre, side, e.price) as int, e);
            lemma_seqs_skip(entries@, i as int);
            lemma_seqs_skip(entries@, i + 1);
            assert(seqs_of(entries@).take(i + 1) =~= seqs_of(entries@).take(i as int).push(eseq(e)));
            if seqs_of(entries@).no_duplicates() && seqs_of(entries@.take(i as int)).contains(eseq(e)) {
                let k = choose|k: int| 0 <= k < seqs_of(entries@.take(i as int)).len() && seqs_of(entries@.take(i as int))[k] == eseq(e);
                assert(seqs_of(entries@)[k] == seqs_of(entries@)[i as int]);
            }
        }
        rest(&mut out, side, e);
        proof {
            let p = insert_pos(pre, side, e.price) as int;
            assert forall|x: OrderSeq| #[trigger] seqs_of(out@).contains(x) <==> seqs_of(entries@.take(i + 1)).contains(x) by {
                lemma_push_contains(seqs_of(entries@.take(i as int)), eseq(e), x);
            }
            if forall|j: int| 0 <= j < entries@.len() ==> qty(#[trigger] entries@[j]) > 0 {
                assert forall|j: int| 0 <= j < out@.len() implies qty(#[trigger] out@[j]) > 0 by {
                    if j < p {
                        assert(out@[j] == pre[j]);
                    } else if j > p {
                        assert(out@[j] == pre[j - 1]);
                    } else {
                        assert(out@[j] == entries@[i as int]);
                    }
                }
            }
        }
        i = i + 1;
    }
    proof {
        assert(entries@.take(i as int) =~= entries@);
    }
    out
}

/// Membership after a push.
proof fn lemma_push_contains<A>(s: Seq<A>, a: A, x: A)
    ensures
        s.push(a).contains(x) <==> (s.contains(x) || x == a),
{
    if s.push(a).contains(x) {
        let i = choose|i: int| 0 <= i < s.push(a).len() && s.push(a)[i] == x;
        if i < s.len() {
            assert(s[i] == x);
        }
    }
    if s.contains(x) {
        let i = choose|i: int| 0 <= i < s.len() && s[i] == x;
        assert(s.push(a)[i] == x);
    }
    if x == a {
        assert(s.push(a)[s.len() as int] == x);
    }
}

/// A three-way concatenation is duplicate-free exactly when each part is
/// and no two parts share an element.
pub proof fn lemma_concat3_no_duplicates<A>(a: Seq<A>, b: Seq<A>, c: Seq<A>)
    ensures
        (a + b + c).no_duplicates() <==> {
            &&& a.no_duplicates()
            &&& b.no_duplicates()
            &&& c.no_duplicates()
            &&& forall|x: A| #[trigger] a.contains(x) ==> !b.contains(x) && !c.contains(x)
            &&& forall|x: A| #[trigger] b.contains(x) ==> !c.contains(x)
        },
{
    let t = a + b + c;
    let na = a.len() as int;
    let nb = b.len() as int;
    assert forall|i: int| 0 <= i < t.len() implies #[trigger] t[i] == (if i < na { a[i] } else if i < na + nb { b[i - na] } else { c[i - na - nb] }) by {}
    if t.no_duplicates() {
        assert forall|i: int, j: int| 0 <= i < a.len() && 0 <= j < a.len() && i != j implies a[i] != a[j] by {
            assert(t[i] == a[i] && t[j] == a[j]);
        }
        assert forall|i: int, j: int| 0 <= i < b.len() && 0 <= j < b.len() && i != j implies b[i] != b[j] by {
            assert(t[na + i] == b[i] && t[na + j] == b[j]);
        }
        assert forall|i: int, j: int| 0 <= i < c.len() && 0 <= j < c.len() && i != j implies c[i] != c[j] by {
            assert(t[na + nb + i] == c[i] && t[na + nb + j] == c[j]);
        }
        assert forall|x: A| #[trigger] a.contains(x) implies !b.contains(x) && !c.contains(x) by {
            let i = choose|i: int| 0 <= i < a.len() && a[i] == x;
            assert(t[i] == x);
            if b.contains(x) {
                let j = choose|j: int| 0 <= j < b.len() && b[j] == x;
                assert(t[na + j] == x);
            }
            if c.contains(x) {
                let j = choose|j: int| 0 <= j < c.len() && c[j] == x;
                assert(t[na + nb + j] == x);
            }
        }
        assert forall|x: A| #[trigger] b.contains(x) implies !c.contains(x) by {
            let i = choose|i: int| 0 <= i < b.len() && b[i] == x;
            assert(t[na + i] == x);
            if c.contains(x) {
                let j = choose|j: int| 0 <= j < c.len() && c[j] == x;
                assert(t[na + nb + j] == x);
            }
        }
    }
    if a.no_duplicates() && b.no_duplicates() && c.no_duplicates() && (forall|x: A| #[trigger] a.contains(x) ==> !b.contains(x)
        && !c.contains(x)) && (forall|x: A| #[trigger] b.contains(x) ==> !c.contains(x)) {
        assert forall|i: int, j: int| 0 <= i < t.len() && 0 <= j < t.len() && i != j implies t[i] != t[j] by {
            if i < na && j < na {
            } else if i < na && j < na + nb {
                assert(a.contains(t[i]) && b.contains(b[j - na]));
            } else if i < na {
                assert(a.contains(t[i]) && c.contains(c[j - na - nb]));
            } else if i < na + nb && j < na {
                assert(a.contains(t[j]) && b.contains(b[i - na]));
            } else if i < na + nb && j < na + nb {
            } else if i < na + nb {
                assert(b.contains(t[i]) && c.contains(c[j - na - nb]));
            } else if j < na {
                assert(a.contains(t[j]) && c.contains(c[i - na - nb]));
            } else if j < na + nb {
                assert(b.contains(t[j]) && c.contains(c[i - na - nb]));
            } else {
            }
        }
    }
}


/// No two levels share a price.
pub open spec fn distinct_prices(ls: Seq<PriceLevel>) -> bool {
    forall|k: int, l: int| #![trigger ls[k], ls[l]] 0 <= k < l < ls.len() ==> ls[k].price != ls[l].price
}

/// Every order sequence a snapshot holds: bids, asks, then pending.
pub open spec fn snapshot_seqs(sn: OrderBookSnapshot) -> Seq<OrderSeq> {
    seqs_of(flatten(sn.bids@)) + seqs_of(flatten(sn.asks@)) + order_seqs(sn.pending_orders@)
}

/// A snapshot can be restored at all: no price level twice on a side, and
/// no resting order sequence twice over both sides.
pub open spec fn snapshot_restorable(sn: OrderBookSnapshot) -> bool {
    &&& distinct_prices(sn.bids@)
    &&& distinct_prices(sn.asks@)
    &&& (seqs_of(flatten(sn.bids@)) + seqs_of(flatten(sn.asks@))).no_duplicates()
}

/// A snapshot describes a well-formed book: no price level twice on a side,
/// every resting order has something left, every pending order is valid,
/// no order sequence twice, and every sequence below the next one to mint.
pub open spec fn snapshot_valid(sn: OrderBookSnapshot) -> bool {
    &&& distinct_prices(sn.bids@)
    &&& distinct_prices(sn.asks@)
    &&& forall|i: int| 0 <= i < flatten(sn.bids@).len() ==> qty(#[trigger] flatten(sn.bids@)[i]) > 0
    &&& forall|i: int| 0 <= i < flatten(sn.asks@).len() ==> qty(#[trigger] flatten(sn.asks@)[i]) > 0
    &&& forall|i: int| 0 <= i < sn.pending_orders@.len() ==> #[trigger] order_valid(
        sn.pending_orders@[i].spec_price(),
        sn.pending_orders@[i].spec_remaining(),
        sn.tick_size,
        sn.lot_size,
    )
    &&& snapshot_seqs(sn).no_duplicates()
    &&& forall|i: int| 0 <= i < snapshot_seqs(sn).len() ==> (#[trigger] snapshot_seqs(sn)[i])@ < sn.next_seq@
}

/// `sn` is the snapshot of `book`.
pub open spec fn snapshot_of(sn: OrderBookSnapshot, book: OrderBook) -> bool {
    &&& sn.id == book.spec_id()
    &&& sn.next_seq == book.spec_next_seq()
    &&& sn.tick_size == book.spec_tick_size()
    &&& sn.lot_size == book.spec_lot_size()
    &&& sn.fee_rates == book.spec_fee_rates()
    &&& sn.min_notional == book.spec_min_notional()
    &&& sn.max_notional == book.spec_max_notional()
    &&& sn.pending_orders@ == book.spec_pending()
    &&& grouped(sn.bids@, book.spec_bids(), Side::Buy)
    &&& grouped(sn.asks@, book.spec_asks(), Side::Sell)
    &&& sn.filled_orders@ == book.spec_filled()
}

/// `book` is the book restored from `sn`.
pub open spec fn restores(sn: OrderBookSnapshot, book: OrderBook) -> bool {
    &&& book.spec_id() == sn.id
    &&& book.spec_next_seq() == sn.next_seq
    &&& book.spec_tick_size() == sn.tick_size
    &&& book.spec_lot_size() == sn.lot_size
    &&& book.spec_fee_rates() == sn.fee_rates
    &&& book.spec_min_notional() == sn.min_notional
    &&& book.spec_max_notional() == sn.max_notional
    &&& book.spec_pending() == sn.pending_orders@
    &&& book.spec_bids() == insert_all(flatten(sn.bids@), Side::Buy)
    &&& book.spec_asks() == insert_all(flatten(sn.asks@), Side::Sell)
    &&& book.spec_filled() == sn.filled_orders@
}

/// The sequences of a list of orders.
fn order_seq_list(orders: &Vec<Order>) -> (r: Vec<OrderSeq>)
    ensures
        r@ == order_seqs(orders@),
{
    let mut out: Vec<OrderSeq> = Vec::new();
    let mut i: usize = 0;
    while i < orders.len()
        invariant
            i <= orders@.len(),
            out@ == order_seqs(orders@.take(i as int)),
        decreases orders@.len() - i,
    {
        out.push(orders[i].id());
        proof {
            assert(order_seqs(orders@.take(i + 1)) =~= order_seqs(orders@.take(i as int)).push(orders@[i as int].spec_id()));
        }
        i = i + 1;
    }
    proof {
        assert(orders@.take(i as int) =~= orders@);
    }
    out
}

impl OrderBookSnapshot {
    /// The snapshot of a book: its configuration, pending and filled orders,
    /// and each side grouped into price levels, best first.
    pub fn from_book(book: &OrderBook) -> (r: OrderBookSnapshot)
        requires
            book.wf(),
        ensures
            snapshot_of(r, *book),
    {
        OrderBookSnapshot {
            id: book.id,
            next_seq: book.next_seq,
            tick_size: book.tick_size,
            lot_size: book.lot_size,
            pending_orders: book.pending_orders.clone(),
            bids: group_levels(&book.bids, Side::Buy),
            asks: group_levels(&book.asks, Side::Sell),
            filled_orders: book.filled_orders.clone(),
            fee_rates: book.fee_rates,
            min_notional: book.min_notional,
            max_notional: book.max_notional,
        }
    }
}

impl OrderBook {
    /// Restore a book from a snapshot: every resting order is put back at
    /// its priority position, level after level, and the configuration,
    /// pending and filled orders are taken as they are. A price level twice
    /// on a side, or a resting order sequence twice, is no snapshot of any
    /// book and is not admitted. The book is well formed when the snapshot
    /// describes one, as the snapshot of any book does.
    pub fn from_snapshot(snapshot: OrderBookSnapshot) -> (book: OrderBook)
        requires
            snapshot_restorable(snapshot),
        ensures
            restores(snapshot, book),
            snapshot_valid(snapshot) ==> book.wf(),
    {
        let fb = flatten_levels(&snapshot.bids);
        let fa = flatten_levels(&snapshot.asks);
        let bids = restore_side(&fb, Side::Buy);
        let asks = restore_side(&fa, Side::Sell);
        let ghost sn = snapshot;
        let book = OrderBook {
            id: snapshot.id,
            next_seq: snapshot.next_seq,
            tick_size: snapshot.tick_size,
            lot_size: snapshot.lot_size,
            min_notional: snapshot.min_notional,
            max_notional: snapshot.max_notional,
            fee_rates: snapshot.fee_rates,
            pending_orders: snapshot.pending_orders,
            bids,
            asks,
            filled_orders: snapshot.filled_orders,
        };
        proof {
            if snapshot_valid(sn) {
                let a = seqs_of(fb@);
                let b = seqs_of(fa@);
                let c = order_seqs(sn.pending_orders@);
                assert(a + b + c == snapshot_seqs(sn));
                lemma_concat3_no_duplicates(a, b, c);
                lemma_concat3_contains(a, b, c);
                lemma_concat3_contains(seqs_of(book.spec_bids()), seqs_of(book.spec_asks()), order_seqs(book.spec_pending()));
                assert forall|x: OrderSeq| #[trigger] book.spec_all_seqs().contains(x) implies x@ < book.spec_next_seq()@ by {
                    assert((a + b + c).contains(x));
                    let i = choose|i: int| 0 <= i < (a + b + c).len() && (a + b + c)[i] == x;
                    assert(snapshot_seqs(sn)[i] == x);
                }
                assert(book.wf());
            }
        }
        book
    }
}

/// Restoring the snapshot of a well-formed book gives back the same book:
/// the snapshot is valid, and the book it restores to has the same
/// configuration, pending and filled orders, and both sides in the same order.
pub proof fn lemma_snapshot_roundtrip(book: OrderBook, sn: OrderBookSnapshot)
    requires
        book.wf(),
        snapshot_of(sn, book),
    ensures
        snapshot_restorable(sn),
        snapshot_valid(sn),
        restores(sn, book),
{
    lemma_insert_all_sorted(book.spec_bids(), Side::Buy);
    lemma_insert_all_sorted(book.spec_asks(), Side::Sell);
    let a = seqs_of(book.spec_bids());
    let b = seqs_of(book.spec_asks());
    let c = order_seqs(book.spec_pending());
    lemma_concat3_no_duplicates(a, b, c);
    lemma_concat3_contains(a, b, c);
    assert(snapshot_seqs(sn) == book.spec_all_seqs());
    assert forall|i: int| 0 <= i < snapshot_seqs(sn).len() implies (#[trigger] snapshot_seqs(sn)[i])@ < sn.next_seq@ by {
        assert(book.spec_all_seqs().contains(snapshot_seqs(sn)[i]));
    }
    assert forall|k: int, l: int| #![trigger sn.bids@[k], sn.bids@[l]] 0 <= k < l < sn.bids@.len() implies sn.bids@[k].price != sn.bids@[l].price by {
        assert(better(Side::Buy, sn.bids@[k].price, sn.bids@[l].price));
    }
    assert forall|k: int, l: int| #![trigger sn.asks@[k], sn.asks@[l]] 0 <= k < l < sn.asks@.len() implies sn.asks@[k].price != sn.asks@[l].price by {
        assert(better(Side::Sell, sn.asks@[k].price, sn.asks@[l].price));
    }
    let ab = seqs_of(flatten(sn.bids@)) + seqs_of(flatten(sn.asks@));
    let all = snapshot_seqs(sn);
    assert forall|i: int, j: int| 0 <= i < ab.len() && 0 <= j < ab.len() && i != j implies ab[i] != ab[j] by {
        assert(all[i] == ab[i] && all[j] == ab[j]);
    }
}


// ---------------------------------------------------------------------------
// Laws of matching
// ---------------------------------------------------------------------------

/// Total remaining quantity of the first `k` makers.
pub open spec fn qty_sum(makers: Seq<BookEntry>, k: nat) -> nat
    decreases k,
{
    if k == 0 || k > makers.len() {
        0
    } else {
        qty_sum(makers, (k - 1) as nat) + qty(makers[k - 1])
    }
}

/// Total quantity of a list of fills.
pub open spec fn fills_total(fills: Seq<Fill>) -> nat
    decreases fills.len(),
{
    if fills.len() == 0 {
        0
    } else {
        fills_total(fills.drop_last()) + fills.last().quantity@
    }
}

proof fn lemma_qty_sum_shift(makers: Seq<BookEntry>, k: nat)
    requires
        0 < makers.len(),
        k + 1 <= makers.len(),
    ensures
        qty_sum(makers, k + 1) == qty(makers[0]) + qty_sum(makers.drop_first(), k),
    decreases k,
{
    let d = makers.drop_first();
    assert(qty_sum(makers, k + 1) == qty_sum(makers, k) + qty(makers[k as int]));
    if k > 0 {
        lemma_qty_sum_shift(makers, (k - 1) as nat);
        assert(d[k - 1] == makers[k as int]);
        assert(qty_sum(d, k) == qty_sum(d, (k - 1) as nat) + qty(d[k - 1]));
    } else {
        assert(qty_sum(makers, 0) == 0);
        assert(qty_sum(d, 0) == 0);
    }
}

proof fn lemma_sweep_total(makers: Seq<BookEntry>, taker_side: Side, limit: Price, rem: nat)
    ensures
        ({
            let s = sweep(makers, taker_side, limit, rem);
            qty_sum(makers, s.0) + s.1 + s.2 == rem
        }),
    decreases makers.len(),
{
    if rem == 0 || makers.len() == 0 || !crosses(taker_side, limit, makers[0].price) {
    } else if qty(makers[0]) <= rem {
        let r = (rem - qty(makers[0])) as nat;
        lemma_sweep_total(makers.drop_first(), taker_side, limit, r);
        lemma_sweep_bounds(makers.drop_first(), taker_side, limit, r);
        lemma_qty_sum_shift(makers, sweep(makers.drop_first(), taker_side, limit, r).0);
    } else {
    }
}

proof fn lemma_fills_total_push(fills: Seq<Fill>, f: Fill)
    ensures
        fills_total(fills.push(f)) == fills_total(fills) + f.quantity@,
{
    assert(fills.push(f).drop_last() =~= fills);
}

/// The fills against the first `k` makers in full.
proof fn lemma_full_fills_total(makers: Seq<BookEntry>, taker: Order, k: nat)
    requires
        k <= makers.len(),
        forall|i: int| 0 <= i < makers.len() ==> qty(#[trigger] makers[i]) < pow2_256(),
    ensures
        fills_total(Seq::new(k, |i: int| fill_of(taker, makers[i], qty(makers[i])))) == qty_sum(makers, k),
    decreases k,
{
    if k > 0 {
        lemma_full_fills_total(makers, taker, (k - 1) as nat);
        let f = Seq::new(k, |i: int| fill_of(taker, makers[i], qty(makers[i])));
        let g = Seq::new((k - 1) as nat, |i: int| fill_of(taker, makers[i], qty(makers[i])));
        assert(f.drop_last() =~= g);
        assert(f.last().quantity@ == qty(makers[k - 1]));
    }
}

/// Matching conserves quantity: the fills of an incoming order add up to
/// its quantity less what is left unfilled, and every fill is a positive
/// quantity, at the resting order's price, acceptable to the incoming order.
pub proof fn lemma_fills_conserve_quantity(makers: Seq<BookEntry>, taker: Order)
    requires
        forall|i: int| 0 <= i < makers.len() ==> qty(#[trigger] makers[i]) > 0,
    ensures
        ({
            let s = sweep(makers, taker.spec_side(), taker.spec_price(), taker.spec_remaining()@);
            let fills = sweep_fills(makers, taker);
            &&& fills_total(fills) + s.2 == taker.spec_remaining()@
            &&& forall|j: int| 0 <= j < fills.len() ==> {
                &&& (#[trigger] fills[j]).quantity@ > 0
                &&& crosses(taker.spec_side(), taker.spec_price(), fills[j].maker_price)
                &&& fills[j].taker_order_seq == taker.spec_id()
            }
        }),
{
    let rem = taker.spec_remaining()@;
    let s = sweep(makers, taker.spec_side(), taker.spec_price(), rem);
    lemma_sweep_total(makers, taker.spec_side(), taker.spec_price(), rem);
    lemma_sweep_bounds(makers, taker.spec_side(), taker.spec_price(), rem);
    assert forall|i: int| 0 <= i < makers.len() implies qty(#[trigger] makers[i]) < pow2_256() by {
        Quantity::lemma_bound(makers[i].order.spec_remaining());
    }
    lemma_full_fills_total(makers, taker, s.0);
    let full = Seq::new(s.0, |i: int| fill_of(taker, makers[i], qty(makers[i])));
    let fills = sweep_fills(makers, taker);
    if s.1 > 0 {
        let last = fill_of(taker, makers[s.0 as int], s.1);
        assert(fills =~= full.push(last));
        lemma_fills_total_push(full, last);
        assert(s.1 < pow2_256());
        assert(last.quantity@ == s.1);
    } else {
        assert(fills =~= full);
    }
    assert forall|j: int| 0 <= j < fills.len() implies {
        &&& (#[trigger] fills[j]).quantity@ > 0
        &&& crosses(taker.spec_side(), taker.spec_price(), fills[j].maker_price)
        &&& fills[j].taker_order_seq == taker.spec_id()
    } by {
        if j < s.0 {
            assert(fills[j] == full[j]);
            assert(qty(makers[j]) < pow2_256());
        } else {
            assert(s.1 < pow2_256());
        }
    }
}

/// The best bid is strictly below the best ask (or a side is empty).
pub open spec fn uncrossed(st: BookState) -> bool {
    st.bids.len() == 0 || st.asks.len() == 0 || st.bids[0].price@ < st.asks[0].price@
}

/// Matching keeps a book uncrossed: whatever an order leaves resting does
/// not cross the other side.
pub proof fn lemma_step_keeps_uncrossed(st: BookState, o: Order)
    requires
        sorted_side(st.bids, Side::Buy),
        sorted_side(st.asks, Side::Sell),
        forall|i: int| 0 <= i < st.bids.len() ==> qty(#[trigger] st.bids[i]) > 0,
        forall|i: int| 0 <= i < st.asks.len() ==> qty(#[trigger] st.asks[i]) > 0,
        uncrossed(st),
    ensures
        uncrossed(step(st, o).0),
{
    let side = o.spec_side();
    let makers = if side == Side::Buy { st.asks } else { st.bids };
    let own = if side == Side::Buy { st.bids } else { st.asks };
    let limit = o.spec_price();
    let s = sweep(makers, side, limit, o.spec_remaining()@);
    lemma_sweep_bounds(makers, side, limit, o.spec_remaining()@);
    lemma_sweep_total(makers, side, limit, o.spec_remaining()@);
    if o.spec_time_in_force() == TimeInForce::FillOrKill && s.2 > 0 {
    } else {
        let new_makers = swept(makers, s.0, s.1);
        if new_makers.len() > 0 {
            assert(new_makers[0].price == makers[s.0 as int].price);
        }
        if s.2 > 0 {
            let pos = insert_pos(own, side, limit) as int;
            lemma_insert_pos_bound(own, side, limit);
            let new_own = own.insert(pos, resting_entry(o, s.2));
            // the sweep stopped at a maker that does not cross
            lemma_sweep_stops(makers, side, limit, o.spec_remaining()@);
            if new_makers.len() > 0 {
                assert(!crosses(side, limit, makers[s.0 as int].price));
                if pos == 0 {
                    assert(new_own[0].price == limit);
                } else {
                    assert(new_own[0] == own[0]);
                    if s.0 > 0 {
                        assert(!better(opposite(side), makers[s.0 as int].price, makers[0].price));
                    }
                }
            }
        } else {
            if new_makers.len() > 0 && own.len() > 0 && s.0 > 0 {
                assert(!better(opposite(side), makers[s.0 as int].price, makers[0].price));
            }
        }
    }
}

/// A sweep that leaves part of the taker unfilled consumed every crossing maker.
proof fn lemma_sweep_stops(makers: Seq<BookEntry>, taker_side: Side, limit: Price, rem: nat)
    ensures
        ({
            let s = sweep(makers, taker_side, limit, rem);
            s.2 > 0 ==> s.1 == 0 && (s.0 == makers.len() || !crosses(taker_side, limit, makers[s.0 as int].price))
        }),
    decreases makers.len(),
{
    if rem == 0 || makers.len() == 0 || !crosses(taker_side, limit, makers[0].price) {
    } else if qty(makers[0]) <= rem {
        let r = (rem - qty(makers[0])) as nat;
        lemma_sweep_stops(makers.drop_first(), taker_side, limit, r);
        let t = sweep(makers.drop_first(), taker_side, limit, r);
        lemma_sweep_bounds(makers.drop_first(), taker_side, limit, r);
        assert(sweep(makers, taker_side, limit, rem) == (t.0 + 1, t.1, t.2));
        if t.2 > 0 && t.0 < makers.drop_first().len() {
            assert(makers.drop_first()[t.0 as int] == makers[t.0 as int + 1]);
        }
    } else {
    }
}


proof fn lemma_find_seq_spec(s: Seq<BookEntry>, seq: OrderSeq)
    ensures
        find_seq(s, seq) is None <==> !seqs_of(s).contains(seq),
        find_seq(s, seq) matches Some(i) ==> i < s.len() && eseq(s[i as int]) == seq,
    decreases s.len(),
{
    if s.len() > 0 {
        lemma_find_seq_spec(s.drop_first(), seq);
        assert(seqs_of(s) =~= seq![eseq(s[0])] + seqs_of(s.drop_first()));
        if seqs_of(s.drop_first()).contains(seq) {
            let k = choose|k: int| 0 <= k < seqs_of(s.drop_first()).len() && seqs_of(s.drop_first())[k] == seq;
            assert(seqs_of(s)[k + 1] == seq);
        }
        if seqs_of(s).contains(seq) && eseq(s[0]) != seq {
            let k = choose|k: int| 0 <= k < seqs_of(s).len() && seqs_of(s)[k] == seq;
            assert(seqs_of(s.drop_first())[k - 1] == seq);
        }
        if eseq(s[0]) == seq {
            assert(seqs_of(s)[0] == seq);
        }
    } else {
        assert(seqs_of(s) =~= Seq::<OrderSeq>::empty());
    }
}

proof fn lemma_find_pending_spec(s: Seq<Order>, seq: OrderSeq)
    ensures
        find_pending(s, seq) is None <==> !order_seqs(s).contains(seq),
        find_pending(s, seq) matches Some(i) ==> i < s.len() && s[i as int].spec_id() == seq,
    decreases s.len(),
{
    if s.len() > 0 {
        lemma_find_pending_spec(s.drop_first(), seq);
        assert(order_seqs(s) =~= seq![s[0].spec_id()] + order_seqs(s.drop_first()));
        if order_seqs(s.drop_first()).contains(seq) {
            let k = choose|k: int| 0 <= k < order_seqs(s.drop_first()).len() && order_seqs(s.drop_first())[k] == seq;
            assert(order_seqs(s)[k + 1] == seq);
        }
        if order_seqs(s).contains(seq) && s[0].spec_id() != seq {
            let k = choose|k: int| 0 <= k < order_seqs(s).len() && order_seqs(s)[k] == seq;
            assert(order_seqs(s.drop_first())[k - 1] == seq);
        }
        if s[0].spec_id() == seq {
            assert(order_seqs(s)[0] == seq);
        }
    } else {
        assert(order_seqs(s) =~= Seq::<OrderSeq>::empty());
    }
}

/// Removing the one occurrence of `x` from a duplicate-free sequence leaves no `x`.
proof fn lemma_remove_unique<A>(s: Seq<A>, i: int)
    requires
        0 <= i < s.len(),
        s.no_duplicates(),
    ensures
        !s.remove(i).contains(s[i]),
{
    if s.remove(i).contains(s[i]) {
        let k = choose|k: int| 0 <= k < s.remove(i).len() && s.remove(i)[k] == s[i];
        if k < i {
            assert(s[k] == s[i]);
        } else {
            assert(s[k + 1] == s[i]);
        }
    }
}

impl OrderBook {
    /// Remove the order with sequence `seq`: from the bids, else from the
    /// asks, else from the pending orders. `None` when the book does not hold
    /// it, leaving the book unchanged.
    pub fn remove_order(&mut self, seq: OrderSeq) -> (r: Option<RemovedOrder>)
        requires
            old(self).wf(),
        ensures
            final(self).wf(),
            final(self).same_config(*old(self)),
            final(self).spec_next_seq() == old(self).spec_next_seq(),
            final(self).spec_filled() == old(self).spec_filled(),
            !final(self).holds(seq),
            forall|x: OrderSeq| final(self).holds(x) ==> old(self).holds(x),
            (r is Some) == old(self).holds(seq),
            match find_seq(old(self).spec_bids(), seq) {
                Some(i) => {
                    &&& r == Some(RemovedOrder {
                        side: Side::Buy,
                        price: old(self).spec_bids()[i as int].price,
                        remaining_quantity: old(self).spec_bids()[i as int].order.spec_remaining(),
                    })
                    &&& final(self).spec_bids() == old(self).spec_bids().remove(i as int)
                    &&& final(self).spec_asks() == old(self).spec_asks()
                    &&& final(self).spec_pending() == old(self).spec_pending()
                },
                None => match find_seq(old(self).spec_asks(), seq) {
                    Some(i) => {
                        &&& r == Some(RemovedOrder {
                            side: Side::Sell,
                            price: old(self).spec_asks()[i as int].price,
                            remaining_quantity: old(self).spec_asks()[i as int].order.spec_remaining(),
                        })
                        &&& final(self).spec_bids() == old(self).spec_bids()
                        &&& final(self).spec_asks() == old(self).spec_asks().remove(i as int)
                        &&& final(self).spec_pending() == old(self).spec_pending()
                    },
                    None => match find_pending(old(self).spec_pending(), seq) {
                        Some(i) => {
                            &&& r == Some(RemovedOrder {
                                side: old(self).spec_pending()[i as int].spec_side(),
                                price: old(self).spec_pending()[i as int].spec_price(),
                                remaining_quantity: old(self).spec_pending()[i as int].spec_remaining(),
                            })
                            &&& final(self).spec_bids() == old(self).spec_bids()
                            &&& final(self).spec_asks() == old(self).spec_asks()
                            &&& final(self).spec_pending() == old(self).spec_pending().remove(i as int)
                        },
                        None => {
                            &&& r is None
                            &&& final(self).spec_bids() == old(self).spec_bids()
                            &&& final(self).spec_asks() == old(self).spec_asks()
                            &&& final(self).spec_pending() == old(self).spec_pending()
                        },
                    },
                },
            },
    {
        let ghost before = *self;
        proof {
            lemma_concat3_contains(seqs_of(before.spec_bids()), seqs_of(before.spec_asks()), order_seqs(before.spec_pending()));
            lemma_find_seq_spec(before.spec_bids(), seq);
            lemma_find_seq_spec(before.spec_asks(), seq);
            lemma_find_pending_spec(before.spec_pending(), seq);
        }
        match find_entry(&self.bids, seq) {
            Some(i) => {
                let e = self.bids.remove(i);
                proof {
                    lemma_remove_entry(before.spec_bids(), Side::Buy, i as int);
                    assert(seqs_of(before.spec_bids().remove(i as int)) =~= seqs_of(before.spec_bids()).remove(i as int));
                    assert(seqs_of(before.spec_bids())[i as int] == seq);
                    lemma_remove_unique(seqs_of(before.spec_bids()), i as int);
                    assert(self.spec_tick_size() == before.spec_tick_size());
                    assert(self.spec_lot_size() == before.spec_lot_size());
                    assert(self.spec_next_seq() == before.spec_next_seq());
                    assert(self.spec_bids() == before.spec_bids().remove(i as int));
                    assert(self.spec_asks() == before.spec_asks());
                    assert(self.spec_pending() == before.spec_pending());
                    lemma_concat3_contains(seqs_of(self.spec_bids()), seqs_of(self.spec_asks()), order_seqs(self.spec_pending()));
                    assert forall|x: OrderSeq| #[trigger] self.spec_all_seqs().contains(x) implies x@ < self.spec_next_seq()@ by {
                        assert(before.spec_all_seqs().contains(x));
                    }
                    assert forall|x: OrderSeq| #[trigger] seqs_of(self.spec_bids()).contains(x) implies !seqs_of(self.spec_asks()).contains(x)
                        && !order_seqs(self.spec_pending()).contains(x) by {
                        assert(seqs_of(before.spec_bids()).contains(x));
                    }
                }
                return Some(RemovedOrder { side: Side::Buy, price: e.price, remaining_quantity: *e.order.remaining_quantity() });
            },
            None => {},
        }
        match find_entry(&self.asks, seq) {
            Some(i) => {
                let e = self.asks.remove(i);
                proof {
                    lemma_remove_entry(before.spec_asks(), Side::Sell, i as int);
                    assert(seqs_of(before.spec_asks().remove(i as int)) =~= seqs_of(before.spec_asks()).remove(i as int));
                    assert(seqs_of(before.spec_asks())[i as int] == seq);
                    assert(seqs_of(before.spec_asks()).contains(seq));
                    lemma_remove_unique(seqs_of(before.spec_asks()), i as int);
                    assert(self.spec_tick_size() == before.spec_tick_size());
                    assert(self.spec_lot_size() == before.spec_lot_size());
                    assert(self.spec_next_seq() == before.spec_next_seq());
                    assert(self.spec_asks() == before.spec_asks().remove(i as int));
                    assert(self.spec_bids() == before.spec_bids());
                    assert(self.spec_pending() == before.spec_pending());
                    lemma_concat3_contains(seqs_of(self.spec_bids()), seqs_of(self.spec_asks()), order_seqs(self.spec_pending()));
                    assert forall|x: OrderSeq| #[trigger] self.spec_all_seqs().contains(x) implies x@ < self.spec_next_seq()@ by {
                        assert(before.spec_all_seqs().contains(x));
                    }
                    assert forall|x: OrderSeq| #[trigger] seqs_of(self.spec_bids()).contains(x) implies !seqs_of(self.spec_asks()).contains(x)
                        && !order_seqs(self.spec_pending()).contains(x) by {
                        assert(seqs_of(before.spec_bids()).contains(x));
                    }
                    assert forall|x: OrderSeq| #[trigger] seqs_of(self.spec_asks()).contains(x) implies !order_seqs(self.spec_pending()).contains(x) by {
                        assert(seqs_of(before.spec_asks()).contains(x));
                    }
                }
                return Some(RemovedOrder { side: Side::Sell, price: e.price, remaining_quantity: *e.order.remaining_quantity() });
            },
            None => {},
        }
        let mut i: usize = 0;
        while i < self.pending_orders.len()
            invariant
                i <= self.spec_pending().len(),
                *self == before,
                forall|j: int| 0 <= j < i ==> (#[trigger] self.spec_pending()[j]).spec_id() != seq,
            ensures
                i <= self.spec_pending().len(),
                i < self.spec_pending().len() ==> self.spec_pending()[i as int].spec_id() == seq,
            decreases self.spec_pending().len() - i,
        {
            if self.pending_orders[i].id() == seq {
                break;
            }
            i = i + 1;
        }
        proof {
            lemma_find_pending_scan(before.spec_pending(), seq, i as int);
        }
        if i == self.pending_orders.len() {
            return None;
        }
        let order = self.pending_orders.remove(i);
        proof {
            let p = order_seqs(before.spec_pending());
            let q = order_seqs(self.spec_pending());
            assert(q =~= p.remove(i as int));
            assert forall|x: OrderSeq| #[trigger] q.contains(x) implies p.contains(x) by {
                let k = choose|k: int| 0 <= k < q.len() && q[k] == x;
                assert(p[if k < i { k } else { k + 1 }] == x);
            }
            assert forall|a: int, b: int| 0 <= a < q.len() && 0 <= b < q.len() && a != b implies q[a] != q[b] by {
                assert(q[a] == p[if a < i { a } else { a + 1 }]);
                assert(q[b] == p[if b < i { b } else { b + 1 }]);
            }
            lemma_concat3_contains(seqs_of(self.spec_bids()), seqs_of(self.spec_asks()), q);
            assert(p[i as int] == seq);
            assert(p.contains(seq));
            lemma_remove_unique(p, i as int);
            assert forall|x: OrderSeq| #[trigger] self.spec_all_seqs().contains(x) implies x@ < self.spec_next_seq()@ by {
                assert(before.spec_all_seqs().contains(x));
            }
            assert(self.spec_tick_size() == before.spec_tick_size());
            assert(self.spec_lot_size() == before.spec_lot_size());
            assert forall|k: int| 0 <= k < self.spec_pending().len() implies #[trigger] order_valid(
                self.spec_pending()[k].spec_price(),
                self.spec_pending()[k].spec_remaining(),
                self.spec_tick_size(),
                self.spec_lot_size(),
            ) by {
                if k < i {
                    assert(self.spec_pending()[k] == before.spec_pending()[k]);
                } else {
                    assert(self.spec_pending()[k] == before.spec_pending()[k + 1]);
                }
            }
            assert(self.spec_bids() == before.spec_bids());
            assert(self.spec_asks() == before.spec_asks());
        }
        Some(RemovedOrder { side: order.side(), price: order.price(), remaining_quantity: *order.remaining_quantity() })
    }
}

} // verus!
