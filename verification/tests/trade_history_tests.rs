use oisy_trade::identity::UserId;
use oisy_trade::ids::{CursorNotFound, FillSeq, OrderBookId, OrderId, OrderSeq, TradeId};
use oisy_trade::order::{PairToken, Side};
use oisy_trade::quantity::{Price, Quantity};
use oisy_trade::scheduler::Timestamp;
use oisy_trade::settlement::TradeRecord;
use oisy_trade::trade_history::TradeHistory;

fn book() -> OrderBookId {
    OrderBookId::zero()
}

fn timestamp() -> Timestamp {
    Timestamp::new(42)
}

fn store() -> TradeHistory {
    TradeHistory::new()
}

fn fee_token(side: Side) -> PairToken {
    match side {
        Side::Buy => PairToken::Base,
        Side::Sell => PairToken::Quote,
    }
}

fn maker_price() -> Price {
    Price::new(10_000_000)
}

fn quantity() -> Quantity {
    Quantity::from_u128(200_000_000)
}

fn notional() -> Quantity {
    Quantity::from_u128(20_000_000)
}

fn taker_fee() -> Quantity {
    Quantity::from_u128(200_000)
}

fn maker_fee() -> Quantity {
    Quantity::from_u128(10_000)
}

fn taker_user() -> UserId {
    UserId::new(1)
}

fn maker_user() -> UserId {
    UserId::new(2)
}

fn append(
    store: &mut TradeHistory,
    taker_side: Side,
    taker_seq: u64,
    maker_seq: u64,
    fill_seq: u64,
    taker_user: UserId,
    maker_user: UserId,
) {
    let seq = FillSeq::new(fill_seq);
    let maker_side = match taker_side {
        Side::Buy => Side::Sell,
        Side::Sell => Side::Buy,
    };
    let taker_id = TradeId::new(OrderId::new(book(), OrderSeq::new(taker_seq)), seq);
    let taker_leg = TradeRecord {
        side: taker_side,
        price: maker_price(),
        quantity: quantity(),
        notional: notional(),
        fee: taker_fee(),
        fee_token: fee_token(taker_side),
        is_maker: false,
        timestamp: timestamp(),
    };
    let maker_id = TradeId::new(OrderId::new(book(), OrderSeq::new(maker_seq)), seq);
    let maker_leg = TradeRecord {
        side: maker_side,
        price: maker_price(),
        quantity: quantity(),
        notional: notional(),
        fee: maker_fee(),
        fee_token: fee_token(maker_side),
        is_maker: true,
        timestamp: timestamp(),
    };
    store.append((taker_id, taker_leg), taker_user, (maker_id, maker_leg), maker_user);
}

#[test]
fn should_project_and_append_both_legs_of_a_settlement() {
    let mut store = store();
    let taker_order = OrderId::new(book(), OrderSeq::new(0));
    let maker_order = OrderId::new(book(), OrderSeq::new(1));

    append(&mut store, Side::Buy, 0, 1, 0, taker_user(), maker_user());

    assert_eq!(store.len(), 2);

    let taker_trades = store.trades_for_order(taker_order, None, 10).unwrap();
    assert_eq!(taker_trades.len(), 1);
    assert_eq!(taker_trades[0].0, FillSeq::zero());
    assert_eq!(
        taker_trades[0].1,
        TradeRecord {
            side: Side::Buy,
            price: maker_price(),
            quantity: quantity(),
            notional: notional(),
            fee: taker_fee(),
            fee_token: PairToken::Base,
            is_maker: false,
            timestamp: timestamp(),
        },
    );

    let maker_trades = store.trades_for_order(maker_order, None, 10).unwrap();
    assert_eq!(maker_trades.len(), 1);
    assert_eq!(maker_trades[0].0, FillSeq::zero());
    assert_eq!(
        maker_trades[0].1,
        TradeRecord {
            side: Side::Sell,
            price: maker_price(),
            quantity: quantity(),
            notional: notional(),
            fee: maker_fee(),
            fee_token: PairToken::Quote,
            is_maker: true,
            timestamp: timestamp(),
        },
    );
}

#[test]
fn should_index_each_leg_under_its_own_owner() {
    let mut store = store();
    let alice = UserId::new(1);
    let bob = UserId::new(2);
    let taker_order = OrderId::new(book(), OrderSeq::new(0));
    let maker_order = OrderId::new(book(), OrderSeq::new(1));

    append(&mut store, Side::Buy, 0, 1, 0, alice, bob);

    let alice_trades = store.trades_after(alice, None, 10).unwrap();
    assert_eq!(
        alice_trades.iter().map(|(id, _)| *id).collect::<Vec<_>>(),
        vec![TradeId::new(taker_order, FillSeq::zero())],
    );
    assert!(!alice_trades[0].1.is_maker);

    let bob_trades = store.trades_after(bob, None, 10).unwrap();
    assert_eq!(
        bob_trades.iter().map(|(id, _)| *id).collect::<Vec<_>>(),
        vec![TradeId::new(maker_order, FillSeq::zero())],
    );
    assert!(bob_trades[0].1.is_maker);
}

#[test]
fn should_swap_sides_for_a_sell_taker() {
    let mut store = store();
    let taker_order = OrderId::new(book(), OrderSeq::new(0));
    let maker_order = OrderId::new(book(), OrderSeq::new(1));

    append(&mut store, Side::Sell, 0, 1, 0, taker_user(), maker_user());

    let taker_page = store.trades_for_order(taker_order, None, 10).unwrap();
    assert_eq!(
        taker_page[0].1,
        TradeRecord {
            side: Side::Sell,
            price: maker_price(),
            quantity: quantity(),
            notional: notional(),
            fee: taker_fee(),
            fee_token: PairToken::Quote,
            is_maker: false,
            timestamp: timestamp(),
        },
    );

    let maker_page = store.trades_for_order(maker_order, None, 10).unwrap();
    assert_eq!(
        maker_page[0].1,
        TradeRecord {
            side: Side::Buy,
            price: maker_price(),
            quantity: quantity(),
            notional: notional(),
            fee: maker_fee(),
            fee_token: PairToken::Base,
            is_maker: true,
            timestamp: timestamp(),
        },
    );
}

struct TradesForOrderCase {
    desc: &'static str,
    inserts: Vec<(u64, u64)>,
    after: Option<(u64, u64)>,
    length: usize,
    expected: Result<Vec<u64>, CursorNotFound>,
}

#[test]
fn should_page_one_orders_trades() {
    const ORDER_A: u64 = 0;
    let user = UserId::new(0);
    let cases = vec![
        TradesForOrderCase {
            desc: "newest-first, only order A's trades",
            inserts: vec![(1, 0), (2, 1)],
            after: None,
            length: 10,
            expected: Ok(vec![1, 0]),
        },
        TradesForOrderCase {
            desc: "first page clamped by length",
            inserts: vec![(1, 0), (1, 1), (1, 2)],
            after: None,
            length: 2,
            expected: Ok(vec![2, 1]),
        },
        TradesForOrderCase {
            desc: "page continues after cursor with next-older",
            inserts: vec![(1, 0), (1, 1), (1, 2)],
            after: Some((ORDER_A, 1)),
            length: 2,
            expected: Ok(vec![0]),
        },
        TradesForOrderCase {
            desc: "cursor that is not one of the order's trades is not found",
            inserts: vec![(1, 0)],
            after: Some((ORDER_A, 99)),
            length: 10,
            expected: Err(CursorNotFound),
        },
        TradesForOrderCase {
            desc: "valid cursor with no older trades is an empty page",
            inserts: vec![(1, 0)],
            after: Some((ORDER_A, 0)),
            length: 10,
            expected: Ok(vec![]),
        },
    ];

    for case in cases {
        let mut store = store();
        let order_a = OrderId::new(book(), OrderSeq::new(ORDER_A));
        for (maker_seq, fill_seq) in &case.inserts {
            append(&mut store, Side::Buy, ORDER_A, *maker_seq, *fill_seq, user, user);
        }
        let after = case
            .after
            .map(|(order_seq, fill_seq)| TradeId::new(OrderId::new(book(), OrderSeq::new(order_seq)), FillSeq::new(fill_seq)));
        let got = store
            .trades_for_order(order_a, after, case.length)
            .map(|page| page.iter().map(|(s, _)| s.get()).collect::<Vec<u64>>());
        assert_eq!(got, case.expected, "BUG ({}): page differs from expected", case.desc);
    }
}

#[test]
fn should_reject_a_cursor_from_the_other_leg_of_the_same_fill() {
    let taker_order = OrderId::new(book(), OrderSeq::new(0));
    let maker_order = OrderId::new(book(), OrderSeq::new(1));
    let fill_seq = FillSeq::new(0);
    let user = UserId::new(0);
    let cases = [
        (taker_order, maker_order, false),
        (maker_order, taker_order, false),
        (taker_order, taker_order, true),
        (maker_order, maker_order, true),
    ];
    for (queried, cursor_order, accepted) in cases {
        let mut store = store();
        append(&mut store, Side::Buy, 0, 1, 0, user, user);
        let cursor = TradeId::new(cursor_order, fill_seq);
        let got = store.trades_for_order(queried, Some(cursor), 10);
        if accepted {
            assert_eq!(got, Ok(vec![]));
        } else {
            assert_eq!(got, Err(CursorNotFound));
        }
    }
}

#[test]
fn should_round_trip_a_trade_id_back_through_its_public_cursor() {
    let id = TradeId::new(OrderId::new(book(), OrderSeq::new(3)), FillSeq::new(7));
    let text = id.to_string();
    assert_eq!(TradeId::parse_str(&text), Ok(id));
}

#[test]
fn trades_after_pages_a_users_trades_newest_first() {
    let mut store = store();
    let alice = UserId::new(1);
    let bob = UserId::new(2);
    append(&mut store, Side::Buy, 0, 1, 0, alice, bob);
    append(&mut store, Side::Sell, 2, 1, 1, alice, bob);
    let page = store.trades_after(alice, None, 10).unwrap();
    assert_eq!(page.len(), 2);
    assert_eq!(page[0].0, TradeId::new(OrderId::new(book(), OrderSeq::new(2)), FillSeq::new(1)));
    assert_eq!(page[1].0, TradeId::new(OrderId::new(book(), OrderSeq::new(0)), FillSeq::new(0)));
    let rest = store.trades_after(alice, Some(page[0].0), 10).unwrap();
    assert_eq!(rest.len(), 1);
    assert!(store.trades_after(bob, Some(page[0].0), 10).is_err());
}
