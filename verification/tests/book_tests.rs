use oisy_trade::book::{Fill, MatchOrderError, MatchResult, MatchingOutput, OrderBook, OrderBookSnapshot, RemovedOrder};
use oisy_trade::fees::{BasisPoint, FeeRates};
use oisy_trade::ids::{OrderBookId, OrderSeq};
use oisy_trade::order::{Order, PendingOrder, Side, TimeInForce};
use oisy_trade::quantity::{LotSize, Price, Quantity, TickSize};

const TICK: u128 = 100_000;
const LOT: u64 = 1_000_000;
const PRICE_SCALE: u128 = 100_000;

fn tick_size() -> TickSize {
    TickSize::new(TICK)
}

fn lot_size() -> LotSize {
    LotSize::new(LOT)
}

fn order_book() -> OrderBook {
    OrderBook::new(OrderBookId::zero(), tick_size(), lot_size(), Quantity::from(1u64), None, FeeRates::default())
}

fn order(side: Side, seq: u64, price: u128, quantity: u64, time_in_force: TimeInForce) -> Order {
    PendingOrder { side, price: Price::new(price), quantity: Quantity::from(quantity), time_in_force }
        .into_order(OrderSeq::new(seq))
}

fn buy(seq: u64, price: u128, quantity: u64) -> Order {
    order(Side::Buy, seq, price, quantity, TimeInForce::GoodTilCanceled)
}

fn sell(seq: u64, price: u128, quantity: u64) -> Order {
    order(Side::Sell, seq, price, quantity, TimeInForce::GoodTilCanceled)
}

fn all_order_types(price: u128, quantity: u64) -> Vec<Order> {
    vec![buy(0, price, quantity), sell(0, price, quantity)]
}

fn fill(taker: &Order, maker_order_seq: OrderSeq, maker_price: u128, quantity: u64) -> Fill {
    Fill {
        taker_order_seq: taker.id(),
        taker_side: taker.side(),
        taker_price: taker.price(),
        maker_order_seq,
        maker_price: Price::new(maker_price),
        quantity: Quantity::from(quantity),
    }
}

fn lot(n: u64) -> u64 {
    n * LOT
}

#[test]
fn tests_should_reject_invalid_orders_without_modifying_book() {
    let cases: Vec<(u128, u64, MatchOrderError)> = vec![
        (TICK / 2, LOT, MatchOrderError::InvalidTickSize { price: Price::new(TICK / 2), tick_size: tick_size() }),
        (0, LOT, MatchOrderError::InvalidTickSize { price: Price::zero(), tick_size: tick_size() }),
        (TICK, LOT / 2, MatchOrderError::InvalidLotSize { quantity: Quantity::from(LOT / 2), lot_size: lot_size() }),
        (TICK, 0, MatchOrderError::InvalidLotSize { quantity: Quantity::zero(), lot_size: lot_size() }),
    ];
    for (price, quantity, expected_err) in cases {
        let mut book = order_book();
        let expected_book = book.clone();
        for order in all_order_types(price, quantity) {
            assert_eq!(book.match_order(order), Err(expected_err.clone()));
            assert_eq!(book, expected_book, "Rejected order should not modify the order book");
        }
    }
}

#[test]
fn tests_should_accept_valid_order() {
    let mut book = order_book();
    for order in all_order_types(TICK, LOT) {
        let result = book.match_order(order);
        assert!(result.is_ok());
    }
}

#[test]
fn tests_should_rest_in_empty_book() {
    for order in all_order_types(TICK, LOT) {
        let mut book = order_book();
        let order_id = order.id();
        let result = book.match_order(order).unwrap();
        assert_eq!(result, MatchResult::Resting { resting_order_seq: order_id });
    }
}

#[test]
fn tests_should_rest_buy_when_no_cross() {
    let orders = vec![
        (sell(1, 110 * PRICE_SCALE, LOT), buy(2, 100 * PRICE_SCALE, LOT)),
        (buy(1, 90 * PRICE_SCALE, LOT), sell(2, 100 * PRICE_SCALE, LOT)),
    ];
    for (first_order, resting_order) in orders {
        let mut book = order_book();
        book.match_order(first_order).unwrap();
        let resting_order_seq = resting_order.id();

        let result = book.match_order(resting_order).unwrap();
        assert_eq!(result, MatchResult::Resting { resting_order_seq });
    }
}

#[test]
fn tests_should_match_best_price_first() {
    let cases = vec![
        (
            vec![sell(1, 120 * PRICE_SCALE, LOT), sell(2, 100 * PRICE_SCALE, LOT), sell(3, 110 * PRICE_SCALE, LOT)],
            buy(4, 120 * PRICE_SCALE, 3 * LOT),
            vec![100 * PRICE_SCALE, 110 * PRICE_SCALE, 120 * PRICE_SCALE],
        ),
        (
            vec![buy(1, 80 * PRICE_SCALE, LOT), buy(2, 100 * PRICE_SCALE, LOT), buy(3, 90 * PRICE_SCALE, LOT)],
            sell(4, 80 * PRICE_SCALE, 3 * LOT),
            vec![100 * PRICE_SCALE, 90 * PRICE_SCALE, 80 * PRICE_SCALE],
        ),
    ];
    for (makers, taker, expected_prices) in cases {
        let mut book = order_book();
        for maker in makers {
            book.match_order(maker).unwrap();
        }

        let result = book.match_order(taker).unwrap();

        let prices: Vec<u128> = result.fills().iter().map(|f| f.maker_price.get()).collect();
        assert_eq!(prices, expected_prices);
        assert!(book.is_empty());
    }
}

#[test]
fn tests_should_match_in_fifo_order_at_same_price() {
    let cases = vec![
        (
            vec![sell(1, 100 * PRICE_SCALE, LOT), sell(2, 100 * PRICE_SCALE, LOT), sell(3, 100 * PRICE_SCALE, LOT)],
            buy(4, 100 * PRICE_SCALE, LOT),
        ),
        (
            vec![buy(1, 100 * PRICE_SCALE, LOT), buy(2, 100 * PRICE_SCALE, LOT), buy(3, 100 * PRICE_SCALE, LOT)],
            sell(4, 100 * PRICE_SCALE, LOT),
        ),
    ];
    for (makers, taker) in cases {
        let mut book = order_book();
        let first_maker_id = makers[0].id();
        for maker in makers {
            book.match_order(maker).unwrap();
        }

        let result = book.match_order(taker).unwrap();

        assert_eq!(result.fills()[0].maker_order_seq, first_maker_id);
    }
}

#[test]
fn tests_should_fully_fill_against_equal_opposite() {
    let cases = vec![
        (sell(1, 100 * PRICE_SCALE, 2 * LOT), buy(2, 100 * PRICE_SCALE, 2 * LOT)),
        (buy(1, 100 * PRICE_SCALE, 2 * LOT), sell(2, 100 * PRICE_SCALE, 2 * LOT)),
    ];
    for (maker, taker) in cases {
        let mut book = order_book();
        let maker_order_seq = maker.id();
        book.match_order(maker).unwrap();

        let result = book.match_order(taker.clone()).unwrap();

        assert_eq!(
            result,
            MatchResult::Filled { fills: vec![fill(&taker, maker_order_seq, 100 * PRICE_SCALE, 2 * LOT)] }
        );
        assert!(book.is_empty());
    }
}

#[test]
fn tests_should_fill_at_maker_price_when_taker_is_more_aggressive() {
    let cases = vec![
        (sell(1, 90 * PRICE_SCALE, LOT), buy(2, 100 * PRICE_SCALE, LOT), 90 * PRICE_SCALE),
        (buy(1, 110 * PRICE_SCALE, LOT), sell(2, 100 * PRICE_SCALE, LOT), 110 * PRICE_SCALE),
    ];
    for (maker, taker, expected_price) in cases {
        let mut book = order_book();
        let maker_order_seq = maker.id();
        book.match_order(maker).unwrap();

        let result = book.match_order(taker.clone()).unwrap();

        assert_eq!(result, MatchResult::Filled { fills: vec![fill(&taker, maker_order_seq, expected_price, LOT)] });
        assert!(book.is_empty());
    }
}

#[test]
fn tests_should_partially_fill_and_rest_remainder() {
    let mut book = order_book();
    book.match_order(sell(1, 100 * PRICE_SCALE, LOT)).unwrap();

    let taker = buy(2, 100 * PRICE_SCALE, 3 * LOT);
    let result = book.match_order(taker.clone()).unwrap();

    assert_eq!(
        result,
        MatchResult::PartiallyFilled {
            fills: vec![fill(&taker, OrderSeq::one(), 100 * PRICE_SCALE, LOT)],
            resting_order_seq: OrderSeq::new(2),
        }
    );
    let resting = book.best_bid().expect("should have a resting bid");
    assert_eq!(resting.id(), OrderSeq::new(2));
    assert_eq!(resting.remaining_quantity(), &Quantity::from(2 * LOT));
}

#[test]
fn tests_should_fill_against_multiple_resting_orders() {
    let cases = vec![
        (
            sell(1, 100 * PRICE_SCALE, LOT),
            sell(2, 100 * PRICE_SCALE, LOT),
            buy(3, 100 * PRICE_SCALE, 2 * LOT),
            100 * PRICE_SCALE,
            100 * PRICE_SCALE,
        ),
        (
            sell(1, 100 * PRICE_SCALE, LOT),
            sell(2, 110 * PRICE_SCALE, LOT),
            buy(3, 110 * PRICE_SCALE, 2 * LOT),
            100 * PRICE_SCALE,
            110 * PRICE_SCALE,
        ),
    ];
    for (maker1, maker2, taker, price_fill_1, price_fill_2) in cases {
        let mut book = order_book();
        let maker1_id = maker1.id();
        let maker2_id = maker2.id();
        book.match_order(maker1).unwrap();
        book.match_order(maker2).unwrap();

        let result = book.match_order(taker.clone()).unwrap();

        assert_eq!(
            result,
            MatchResult::Filled {
                fills: vec![fill(&taker, maker1_id, price_fill_1, LOT), fill(&taker, maker2_id, price_fill_2, LOT)],
            }
        );
        assert!(book.is_empty());
    }
}

#[test]
fn tests_should_partially_fill_resting_order() {
    let mut book = order_book();
    book.match_order(sell(1, 100 * PRICE_SCALE, 3 * LOT)).unwrap();
    let taker1 = buy(2, 100 * PRICE_SCALE, LOT);
    let result = book.match_order(taker1.clone()).unwrap();
    assert_eq!(result, MatchResult::Filled { fills: vec![fill(&taker1, OrderSeq::one(), 100 * PRICE_SCALE, LOT)] });
    // The remaining 2 lots should still be matchable
    let taker2 = buy(3, 100 * PRICE_SCALE, 2 * LOT);
    let result = book.match_order(taker2.clone()).unwrap();
    assert_eq!(result, MatchResult::Filled { fills: vec![fill(&taker2, OrderSeq::one(), 100 * PRICE_SCALE, 2 * LOT)] });
    assert!(book.is_empty());
}

#[test]
fn tests_should_return_none_on_empty_book() {
    let book = order_book();
    assert!(book.best_bid().is_none());
    assert!(book.best_ask().is_none());
}

#[test]
fn tests_should_return_highest_bid() {
    let mut book = order_book();
    book.match_order(buy(1, 80 * PRICE_SCALE, LOT)).unwrap();
    book.match_order(buy(2, 100 * PRICE_SCALE, LOT)).unwrap();
    book.match_order(buy(3, 90 * PRICE_SCALE, LOT)).unwrap();
    let best = book.best_bid().unwrap();
    assert_eq!(best.id(), OrderSeq::new(2));
    assert_eq!(best.price(), Price::new(100 * PRICE_SCALE));
}

#[test]
fn tests_should_return_lowest_ask() {
    let mut book = order_book();
    book.match_order(sell(1, 120 * PRICE_SCALE, LOT)).unwrap();
    book.match_order(sell(2, 100 * PRICE_SCALE, LOT)).unwrap();
    book.match_order(sell(3, 110 * PRICE_SCALE, LOT)).unwrap();
    let best = book.best_ask().unwrap();
    assert_eq!(best.id(), OrderSeq::new(2));
    assert_eq!(best.price(), Price::new(100 * PRICE_SCALE));
}

#[test]
fn tests_should_return_fifo_first_at_best_price() {
    let mut book = order_book();
    book.match_order(buy(1, 100 * PRICE_SCALE, LOT)).unwrap();
    book.match_order(buy(2, 100 * PRICE_SCALE, 2 * LOT)).unwrap();
    let best = book.best_bid().unwrap();
    assert_eq!(best.id(), OrderSeq::one());
}

#[test]
fn tests_should_update_after_full_fill() {
    let mut book = order_book();
    book.match_order(sell(1, 100 * PRICE_SCALE, LOT)).unwrap();
    book.match_order(sell(2, 110 * PRICE_SCALE, LOT)).unwrap();

    let best = book.best_ask().unwrap();
    assert_eq!(best.id(), OrderSeq::one());
    assert_eq!(best.price(), Price::new(100 * PRICE_SCALE));

    // Fill the best ask
    book.match_order(buy(3, 100 * PRICE_SCALE, LOT)).unwrap();
    let best = book.best_ask().unwrap();
    assert_eq!(best.id(), OrderSeq::new(2));
    assert_eq!(best.price(), Price::new(110 * PRICE_SCALE));
}

#[test]
fn should_return_empty_iterators_on_empty_book() {
    let book = order_book();
    assert_eq!(book.bid_levels(10).len(), 0);
    assert_eq!(book.ask_levels(10).len(), 0);
}

#[test]
fn should_aggregate_single_order_per_level() {
    let mut book = order_book();
    book.match_order(buy(1, 100 * PRICE_SCALE, lot(1))).unwrap();
    book.match_order(buy(2, 90 * PRICE_SCALE, lot(2))).unwrap();
    book.match_order(sell(3, 110 * PRICE_SCALE, lot(3))).unwrap();
    book.match_order(sell(4, 120 * PRICE_SCALE, lot(4))).unwrap();

    assert_eq!(
        book.bid_levels(10),
        vec![
            (Price::new(100 * PRICE_SCALE), Quantity::from(lot(1))),
            (Price::new(90 * PRICE_SCALE), Quantity::from(lot(2))),
        ]
    );
    assert_eq!(
        book.ask_levels(10),
        vec![
            (Price::new(110 * PRICE_SCALE), Quantity::from(lot(3))),
            (Price::new(120 * PRICE_SCALE), Quantity::from(lot(4))),
        ]
    );
}

#[test]
fn should_sum_quantities_across_orders_at_the_same_price() {
    let mut book = order_book();
    book.match_order(buy(1, 100 * PRICE_SCALE, lot(1))).unwrap();
    book.match_order(buy(2, 100 * PRICE_SCALE, lot(3))).unwrap();
    book.match_order(sell(3, 110 * PRICE_SCALE, lot(2))).unwrap();
    book.match_order(sell(4, 110 * PRICE_SCALE, lot(5))).unwrap();

    assert_eq!(book.bid_levels(10), vec![(Price::new(100 * PRICE_SCALE), Quantity::from(lot(4)))]);
    assert_eq!(book.ask_levels(10), vec![(Price::new(110 * PRICE_SCALE), Quantity::from(lot(7)))]);
}

#[test]
fn should_truncate_to_limit() {
    let mut book = order_book();
    for (seq, price) in [(1u64, 100 * PRICE_SCALE), (2u64, 90 * PRICE_SCALE), (3u64, 80 * PRICE_SCALE)] {
        book.match_order(buy(seq, price, lot(1))).unwrap();
    }
    for (seq, price) in [(4u64, 110 * PRICE_SCALE), (5u64, 120 * PRICE_SCALE), (6u64, 130 * PRICE_SCALE)] {
        book.match_order(sell(seq, price, lot(1))).unwrap();
    }

    let bid_prices: Vec<_> = book.bid_levels(2).into_iter().map(|(p, _)| p.get()).collect();
    assert_eq!(bid_prices, vec![100 * PRICE_SCALE, 90 * PRICE_SCALE]);
    let ask_prices: Vec<_> = book.ask_levels(2).into_iter().map(|(p, _)| p.get()).collect();
    assert_eq!(ask_prices, vec![110 * PRICE_SCALE, 120 * PRICE_SCALE]);
}

#[test]
fn should_return_all_levels_when_limit_exceeds_depth() {
    let mut book = order_book();
    book.match_order(buy(1, 100 * PRICE_SCALE, lot(1))).unwrap();
    book.match_order(sell(2, 110 * PRICE_SCALE, lot(1))).unwrap();

    assert_eq!(book.bid_levels(usize::MAX).len(), 1);
    assert_eq!(book.ask_levels(usize::MAX).len(), 1);
}

#[test]
fn should_return_empty_iterators_when_limit_is_zero() {
    let mut book = order_book();
    book.match_order(buy(1, 100 * PRICE_SCALE, lot(1))).unwrap();
    book.match_order(sell(2, 110 * PRICE_SCALE, lot(1))).unwrap();

    assert_eq!(book.bid_levels(0).len(), 0);
    assert_eq!(book.ask_levels(0).len(), 0);
}

#[test]
fn should_exclude_pending_orders() {
    let mut book = order_book();
    book.add_pending_order(buy(0, 100 * PRICE_SCALE, lot(1)));
    book.add_pending_order(sell(1, 110 * PRICE_SCALE, lot(1)));

    assert_eq!(book.bid_levels(10).len(), 0);
    assert_eq!(book.ask_levels(10).len(), 0);
}

#[test]
fn should_saturate_aggregated_quantity_on_overflow() {
    // lot_size = 1 lets us rest Quantity::MAX-sized orders (which
    // wouldn't be multiples of the default LOT_SIZE).
    let mut book = OrderBook::new(
        OrderBookId::zero(),
        TickSize::new(1),
        LotSize::new(1),
        Quantity::from(1u64),
        None,
        FeeRates::default(),
    );
    let max_buy = |seq: u64| {
        PendingOrder {
            side: Side::Buy,
            price: Price::new(1),
            quantity: Quantity::max_value(),
            time_in_force: TimeInForce::GoodTilCanceled,
        }
        .into_order(OrderSeq::new(seq))
    };
    book.match_order(max_buy(0)).unwrap();
    book.match_order(max_buy(1)).unwrap();

    let (_, quantity) = book.bid_levels(1)[0];
    assert_eq!(quantity, Quantity::max_value());
}

fn process_all_pending_orders(book: &mut OrderBook) -> MatchingOutput {
    let seqs: Vec<OrderSeq> = book.pending_order_seqs();
    book.process_pending_orders(&seqs)
}

#[test]
fn tests_should_return_empty_output_when_no_pending_orders() {
    let mut book = order_book();
    let output = process_all_pending_orders(&mut book);

    assert!(output.fills.is_empty());
    assert!(output.resting_orders.is_empty());
    assert!(output.filled_orders.is_empty());
}

#[test]
fn tests_should_report_resting_order_when_no_match() {
    let mut book = order_book();
    book.add_pending_order(buy(0, 100 * PRICE_SCALE, LOT));

    let output = process_all_pending_orders(&mut book);

    assert!(output.fills.is_empty());
    assert_eq!(output.resting_orders, vec![OrderSeq::zero()]);
    assert!(output.filled_orders.is_empty());
}

#[test]
fn tests_should_report_filled_orders_after_exact_match() {
    let mut book = order_book();
    book.add_pending_order(sell(0, 100 * PRICE_SCALE, LOT));
    book.add_pending_order(buy(1, 100 * PRICE_SCALE, LOT));

    let output = process_all_pending_orders(&mut book);

    assert_eq!(output.fills.len(), 1);
    assert!(output.filled_orders.contains(&OrderSeq::zero())); // maker
    assert!(output.filled_orders.contains(&OrderSeq::one())); // taker
    assert!(output.resting_orders.is_empty());
}

#[test]
fn tests_should_report_partial_fill_with_resting_remainder() {
    let mut book = order_book();
    // Sell 1 lot (maker), buy 3 lots (taker) -> taker partially fills, rests with 2
    book.add_pending_order(sell(0, 100 * PRICE_SCALE, LOT));
    book.add_pending_order(buy(1, 100 * PRICE_SCALE, 3 * LOT));

    let output = process_all_pending_orders(&mut book);

    assert_eq!(output.fills.len(), 1);
    assert!(output.filled_orders.contains(&OrderSeq::zero())); // maker fully filled
    assert!(!output.filled_orders.contains(&OrderSeq::one())); // taker not fully filled
    assert_eq!(output.resting_orders, vec![OrderSeq::one()]); // taker rests
}

#[test]
fn should_drain_filled_orders_between_rounds() {
    let mut book = order_book();
    book.add_pending_order(sell(0, 100 * PRICE_SCALE, LOT));
    book.add_pending_order(buy(1, 100 * PRICE_SCALE, LOT));

    let first = process_all_pending_orders(&mut book);
    assert!(!first.filled_orders.is_empty());

    let second = process_all_pending_orders(&mut book);
    assert!(second.filled_orders.is_empty());
}

#[test]
fn should_return_none_when_order_is_absent() {
    let mut book = order_book();
    assert_eq!(book.remove_order(OrderSeq::new(42)), None);
}

#[test]
fn should_delete_empty_price_level_when_last_resting_removed() {
    let mut book = order_book();
    book.match_order(sell(0, 100 * PRICE_SCALE, LOT)).unwrap();
    book.match_order(sell(1, 110 * PRICE_SCALE, 2 * LOT)).unwrap();
    book.match_order(buy(2, 90 * PRICE_SCALE, LOT)).unwrap();
    book.match_order(buy(3, 80 * PRICE_SCALE, 3 * LOT)).unwrap();

    assert_eq!(
        book.remove_order(OrderSeq::zero()).unwrap(),
        RemovedOrder { side: Side::Sell, price: Price::new(100 * PRICE_SCALE), remaining_quantity: Quantity::from(LOT) }
    );
    assert_eq!(book.asks_len(), 1);
    assert_eq!(book.resting_orders_len(), 3);
    assert_eq!(book.best_ask().unwrap().price(), Price::new(110 * PRICE_SCALE));
    assert_eq!(book.best_bid().unwrap().price(), Price::new(90 * PRICE_SCALE));

    assert_eq!(
        book.remove_order(OrderSeq::new(2)).unwrap(),
        RemovedOrder { side: Side::Buy, price: Price::new(90 * PRICE_SCALE), remaining_quantity: Quantity::from(LOT) }
    );
    assert_eq!(book.bids_len(), 1);
    assert_eq!(book.resting_orders_len(), 2);
    assert_eq!(book.best_ask().unwrap().price(), Price::new(110 * PRICE_SCALE));
    assert_eq!(book.best_bid().unwrap().price(), Price::new(80 * PRICE_SCALE));
}

#[test]
fn should_report_residual_for_partially_filled_resting_order() {
    let mut book = order_book();
    // Rest a 3-lot sell; cross with a 1-lot buy to partially fill.
    book.match_order(sell(0, 100 * PRICE_SCALE, 3 * LOT)).unwrap();
    book.match_order(buy(1, 100 * PRICE_SCALE, LOT)).unwrap();

    let removed = book.remove_order(OrderSeq::zero()).unwrap();

    assert_eq!(
        removed,
        RemovedOrder { side: Side::Sell, price: Price::new(100 * PRICE_SCALE), remaining_quantity: Quantity::from(2 * LOT) }
    );
    assert_eq!(book.resting_orders_len(), 0);
    assert!(book.is_empty());
}

#[test]
fn should_return_none_for_fully_filled_order() {
    let mut book = order_book();
    book.match_order(sell(0, 100 * PRICE_SCALE, LOT)).unwrap();
    book.match_order(buy(1, 100 * PRICE_SCALE, LOT)).unwrap();

    // Both orders are fully filled; removing either must be a no-op.
    assert_eq!(book.remove_order(OrderSeq::zero()), None);
    assert_eq!(book.remove_order(OrderSeq::one()), None);
}

#[test]
fn should_checked_sub_with_carry() {
    // 2^128
    let a = Quantity::new(1, 0);
    // 1
    let b = Quantity::new(0, 1);
    assert_eq!(a.checked_sub(b), Some(Quantity::new(0, u128::MAX)));

    assert_eq!(a.checked_sub(a), Some(Quantity::zero()));

    // 2^128 + 1
    let c = Quantity::new(1, 1);
    assert_eq!(a.checked_sub(c), None);

    let d = Quantity::new(u128::MAX, 0);
    let e = Quantity::new(u128::MAX, 1);
    assert_eq!(d.checked_sub(e), None);
}

#[test]
fn mul_ceil_does_not_trap_on_max_amount() {
    assert_eq!(BasisPoint::max().mul_ceil(Quantity::max_value()), Quantity::max_value());
}

#[test]
fn default_is_zero_rates() {
    let r = FeeRates::default();
    assert_eq!(r.maker, BasisPoint::zero());
    assert_eq!(r.taker, BasisPoint::zero());
}

// ---------------------------------------------------------------------------
// Fill-or-kill orders and order removal
// ---------------------------------------------------------------------------

#[test]
fn fill_or_kill_that_cannot_fill_is_killed_and_leaves_the_book_untouched() {
    let mut book = order_book();
    book.match_order(sell(1, 100 * PRICE_SCALE, LOT)).unwrap();
    let before = book.clone();
    let fok = order(Side::Buy, 2, 100 * PRICE_SCALE, 2 * LOT, TimeInForce::FillOrKill);
    assert_eq!(book.match_order(fok), Ok(MatchResult::Killed { killed_order_seq: OrderSeq::new(2) }));
    assert_eq!(book, before);
}

#[test]
fn fill_or_kill_that_can_fill_executes_in_full() {
    let mut book = order_book();
    book.match_order(sell(1, 100 * PRICE_SCALE, LOT)).unwrap();
    book.match_order(sell(2, 110 * PRICE_SCALE, LOT)).unwrap();
    let fok = order(Side::Buy, 3, 110 * PRICE_SCALE, 2 * LOT, TimeInForce::FillOrKill);
    let result = book.match_order(fok).unwrap();
    assert_eq!(result.fills().len(), 2);
    assert!(book.is_empty());
}

#[test]
fn process_pending_orders_reports_killed_orders_with_what_they_asked_for() {
    let mut book = order_book();
    book.add_pending_order(order(Side::Sell, 0, 100 * PRICE_SCALE, 3 * LOT, TimeInForce::FillOrKill));
    let output = process_all_pending_orders(&mut book);
    assert_eq!(
        output.expired_orders,
        vec![(
            OrderSeq::zero(),
            RemovedOrder { side: Side::Sell, price: Price::new(100 * PRICE_SCALE), remaining_quantity: Quantity::from(3 * LOT) }
        )]
    );
    assert!(book.is_empty());
}

#[test]
fn remove_order_takes_a_pending_order_out() {
    let mut book = order_book();
    book.add_pending_order(buy(0, 100 * PRICE_SCALE, LOT));
    book.add_pending_order(sell(1, 120 * PRICE_SCALE, 2 * LOT));
    book.add_pending_order(buy(2, 90 * PRICE_SCALE, LOT));
    assert_eq!(
        book.remove_order(OrderSeq::one()),
        Some(RemovedOrder { side: Side::Sell, price: Price::new(120 * PRICE_SCALE), remaining_quantity: Quantity::from(2 * LOT) })
    );
    assert_eq!(book.pending_order_seqs(), vec![OrderSeq::zero(), OrderSeq::new(2)]);
    assert_eq!(book.remove_order(OrderSeq::one()), None);
}

#[test]
fn snapshot_roundtrip_restores_the_same_book() {
    let mut book = order_book();
    for (seq, price, qty) in [(0u64, 100u128, 1u64), (1, 100, 2), (2, 90, 1), (3, 80, 4)] {
        book.add_pending_order(buy(seq, price * PRICE_SCALE, qty * LOT));
    }
    for (seq, price, qty) in [(4u64, 110u128, 1u64), (5, 120, 3), (6, 110, 2)] {
        book.add_pending_order(sell(seq, price * PRICE_SCALE, qty * LOT));
    }
    process_all_pending_orders(&mut book);
    book.add_pending_order(buy(7, 95 * PRICE_SCALE, LOT));

    let snapshot = OrderBookSnapshot::from_book(&book);
    assert_eq!(snapshot.bids.len(), 3);
    assert_eq!(snapshot.bids[0].orders.len(), 2);
    assert_eq!(snapshot.asks.len(), 2);
    assert_eq!(snapshot.asks[0].orders.len(), 2);
    let restored = OrderBook::from_snapshot(snapshot);
    assert_eq!(restored, book);
}

#[test]
fn snapshot_with_a_pending_order_repeating_a_resting_one_is_restored_as_it_is() {
    let mut book = order_book();
    book.add_pending_order(buy(0, 100 * PRICE_SCALE, LOT));
    process_all_pending_orders(&mut book);
    let mut snapshot = OrderBookSnapshot::from_book(&book);
    snapshot.pending_orders.push(sell(0, 120 * PRICE_SCALE, LOT));
    let restored = OrderBook::from_snapshot(snapshot);
    assert_eq!(restored.pending_order_seqs(), vec![OrderSeq::zero()]);
    assert_eq!(restored.best_bid().unwrap().id(), OrderSeq::zero());
}

#[test]
fn snapshot_with_a_sequence_not_below_the_next_is_restored_as_it_is() {
    let mut book = order_book();
    book.add_pending_order(buy(0, 100 * PRICE_SCALE, LOT));
    process_all_pending_orders(&mut book);
    let mut snapshot = OrderBookSnapshot::from_book(&book);
    snapshot.next_seq = OrderSeq::zero();
    let restored = OrderBook::from_snapshot(snapshot);
    assert_eq!(restored.next_seq(), OrderSeq::zero());
    assert_eq!(restored.best_bid().unwrap().id(), OrderSeq::zero());
}

/// A small deterministic source of pending orders around one price.
struct Orders(u64);

impl Orders {
    fn next(&mut self) -> u64 {
        self.0 = self.0.wrapping_mul(6364136223846793005).wrapping_add(1442695040888963407);
        self.0 >> 33
    }

    fn pending(&mut self) -> PendingOrder {
        let side = if self.next() % 2 == 0 { Side::Buy } else { Side::Sell };
        let price = (90 + self.next() % 21) as u128 * PRICE_SCALE;
        let quantity = (1 + self.next() % 5) * LOT;
        let time_in_force = if self.next() % 4 == 0 { TimeInForce::FillOrKill } else { TimeInForce::GoodTilCanceled };
        PendingOrder { side, price: Price::new(price), quantity: Quantity::from(quantity), time_in_force }
    }
}

#[test]
fn should_roundtrip_through_snapshot() {
    for case in 0..64u64 {
        let mut orders = Orders(case);
        let mut book = order_book();
        let to_process = orders.next() % 100;
        for _ in 0..to_process {
            let seq = book.next_seq();
            book.add_pending_order(orders.pending().into_order(seq));
        }
        let seqs = book.pending_order_seqs();
        let _ = book.process_pending_orders(&seqs);
        let to_leave_pending = orders.next() % 50;
        for _ in 0..to_leave_pending {
            let seq = book.next_seq();
            book.add_pending_order(orders.pending().into_order(seq));
        }

        let snapshot = OrderBookSnapshot::from_book(&book);
        let restored = OrderBook::from_snapshot(snapshot);

        assert_eq!(book, restored, "case {}", case);
    }
}

#[test]
fn snapshot_levels_are_restored_in_priority_order() {
    let mut book = order_book();
    book.add_pending_order(sell(0, 120 * PRICE_SCALE, LOT));
    book.add_pending_order(sell(1, 110 * PRICE_SCALE, LOT));
    process_all_pending_orders(&mut book);
    let mut snapshot = OrderBookSnapshot::from_book(&book);
    snapshot.asks.reverse();
    let restored = OrderBook::from_snapshot(snapshot);
    assert_eq!(restored.best_ask().unwrap().id(), OrderSeq::one());
    assert_eq!(restored, book);
}

#[test]
fn levels_count_distinct_prices() {
    let mut book = order_book();
    book.match_order(buy(1, 100 * PRICE_SCALE, LOT)).unwrap();
    book.match_order(buy(2, 100 * PRICE_SCALE, LOT)).unwrap();
    book.match_order(buy(3, 90 * PRICE_SCALE, LOT)).unwrap();
    assert_eq!(book.bids_len(), 2);
    assert_eq!(book.asks_len(), 0);
    assert_eq!(book.resting_orders_len(), 3);
}

#[test]
fn check_notional_bounds() {
    let book = OrderBook::new(
        OrderBookId::zero(),
        tick_size(),
        lot_size(),
        Quantity::from(100u64),
        Some(Quantity::from(1_000u64)),
        FeeRates::default(),
    );
    assert!(book.check_notional(&Quantity::from(100u64)).is_ok());
    assert!(book.check_notional(&Quantity::from(1_000u64)).is_ok());
    let err = book.check_notional(&Quantity::from(99u64)).unwrap_err();
    assert_eq!(err.notional, Quantity::from(99u64));
    assert_eq!(err.min, Quantity::from(100u64));
    assert!(book.check_notional(&Quantity::from(1_001u64)).is_err());
}

#[test]
fn invalid_order_is_refused_whatever_its_sequence() {
    let mut book = order_book();
    let before = book.clone();
    let r = book.match_order(buy(7, 100 * PRICE_SCALE + 1, LOT));
    assert_eq!(r, Err(MatchOrderError::InvalidTickSize { price: Price::new(100 * PRICE_SCALE + 1), tick_size: tick_size() }));
    assert_eq!(book, before);
}

#[test]
fn filled_and_resting_orders_come_out_ascending() {
    let mut book = order_book();
    book.add_pending_order(sell(0, 101 * PRICE_SCALE, LOT));
    book.add_pending_order(sell(1, 100 * PRICE_SCALE, LOT));
    book.add_pending_order(buy(2, 90 * PRICE_SCALE, LOT));
    book.add_pending_order(buy(3, 101 * PRICE_SCALE, 2 * LOT));
    let out = process_all_pending_orders(&mut book);
    assert_eq!(out.filled_orders, vec![OrderSeq::zero(), OrderSeq::one(), OrderSeq::new(3)]);
    assert_eq!(out.resting_orders, vec![OrderSeq::new(2)]);
}

#[test]
fn chunked_matching_ends_where_one_run_ends() {
    for case in 0..32u64 {
        let mut orders = Orders(case + 100);
        let mut one = order_book();
        for _ in 0..(orders.next() % 60) {
            let seq = one.next_seq();
            one.add_pending_order(orders.pending().into_order(seq));
        }
        let mut chunked = one.clone();
        let seqs = one.pending_order_seqs();
        let all = one.process_pending_orders(&seqs);

        let k = seqs.len() / 2;
        let first = chunked.process_pending_orders(&seqs[..k]);
        let rest = chunked.pending_order_seqs();
        let second = chunked.process_pending_orders(&rest);

        assert_eq!(one, chunked, "case {}", case);
        let mut fills = first.fills.clone();
        fills.extend(second.fills.iter().cloned());
        assert_eq!(all.fills, fills, "case {}", case);
        let mut filled: Vec<OrderSeq> = first.filled_orders.iter().chain(second.filled_orders.iter()).copied().collect();
        filled.sort_by_key(|s| s.get());
        assert_eq!(all.filled_orders, filled, "case {}", case);
    }
}
