use oisy_trade::book::{Fill, MatchingOutput, RemovedOrder};
use oisy_trade::match_settlement::MatchSettlement;
use oisy_trade::order::OrderStatus;
use oisy_trade::records::OrderUpdate;
use oisy_trade::fees::{BasisPoint, FeeRates};
use oisy_trade::ids::{FillSeq, OrderBookId, OrderSeq};
use oisy_trade::order::{PairToken, Side};
use oisy_trade::quantity::{Price, Quantity};
use oisy_trade::scheduler::Timestamp;
use oisy_trade::settlement::{BalanceOperation, FillEvent, FillSettlement, RemovedOrderSettlement};

const BASE_SCALE: u64 = 100_000_000;

fn book() -> OrderBookId {
    OrderBookId::zero()
}

fn timestamp() -> Timestamp {
    Timestamp::new(42)
}

#[test]
fn both_legs_share_the_fill_seq() {
    let price = Price::new(10_000_000);
    let fill = Fill {
        taker_order_seq: OrderSeq::new(2),
        taker_side: Side::Buy,
        taker_price: price,
        maker_order_seq: OrderSeq::new(5),
        maker_price: price,
        quantity: Quantity::from(100_000_000u64),
    };
    let settled = FillSettlement::new(fill, FillSeq::new(7), FeeRates::default(), BASE_SCALE).fill_event();
    let [(taker_id, _), (maker_id, _)] = settled.trade_legs(book(), Side::Buy, price, BASE_SCALE, timestamp());
    assert_eq!(taker_id.fill_id(), maker_id.fill_id());
    assert_ne!(taker_id.order_id(), maker_id.order_id());
}

fn rates(maker: u16, taker: u16) -> FeeRates {
    FeeRates { maker: BasisPoint::new(maker).unwrap(), taker: BasisPoint::new(taker).unwrap() }
}

#[test]
fn buy_taker_below_its_limit_releases_the_surplus_and_pays_fees() {
    // 2 base tokens (8 decimals) at 15.00 quote per token, limit 16.00
    let fill = Fill {
        taker_order_seq: OrderSeq::new(9),
        taker_side: Side::Buy,
        taker_price: Price::new(1_600_000_000),
        maker_order_seq: OrderSeq::new(4),
        maker_price: Price::new(1_500_000_000),
        quantity: Quantity::from(200_000_000u64),
    };
    let settlement = FillSettlement::new(fill, FillSeq::new(1), rates(10, 25), BASE_SCALE);
    let mut ops = Vec::new();
    settlement.push_balance_operations(&mut ops);
    // notional 3_000_000_000; maker (seller) pays 10 bps in quote = 3_000_000;
    // taker (buyer) pays 25 bps in base = 500_000; surplus 200_000_000.
    assert_eq!(
        ops,
        vec![
            BalanceOperation::Transfer {
                from_order: OrderSeq::new(9),
                to_order: OrderSeq::new(4),
                token: PairToken::Quote,
                amount: Quantity::from(3_000_000_000u64),
                fee: Some(Quantity::from(3_000_000u64)),
            },
            BalanceOperation::Unreserve {
                order: OrderSeq::new(9),
                token: PairToken::Quote,
                amount: Quantity::from(200_000_000u64),
            },
            BalanceOperation::Transfer {
                from_order: OrderSeq::new(4),
                to_order: OrderSeq::new(9),
                token: PairToken::Base,
                amount: Quantity::from(200_000_000u64),
                fee: Some(Quantity::from(500_000u64)),
            },
        ]
    );
    let [(_, taker), (_, maker)] =
        settlement.fill_event().trade_legs(book(), Side::Buy, Price::new(1_500_000_000), BASE_SCALE, timestamp());
    assert_eq!(taker.fee, Quantity::from(500_000u64));
    assert_eq!(taker.fee_token, PairToken::Base);
    assert!(!taker.is_maker);
    assert_eq!(maker.fee, Quantity::from(3_000_000u64));
    assert_eq!(maker.fee_token, PairToken::Quote);
    assert_eq!(maker.side, Side::Sell);
    assert_eq!(maker.notional, Quantity::from(3_000_000_000u64));
}

#[test]
fn sell_taker_pays_in_quote_and_gets_no_surplus() {
    let fill = Fill {
        taker_order_seq: OrderSeq::new(3),
        taker_side: Side::Sell,
        taker_price: Price::new(1_000_000_000),
        maker_order_seq: OrderSeq::new(1),
        maker_price: Price::new(1_100_000_000),
        quantity: Quantity::from(100_000_000u64),
    };
    let settlement = FillSettlement::new(fill, FillSeq::new(2), rates(0, 1), BASE_SCALE);
    let mut ops = Vec::new();
    settlement.push_balance_operations(&mut ops);
    assert_eq!(ops.len(), 2);
    assert_eq!(
        ops[0],
        BalanceOperation::Transfer {
            from_order: OrderSeq::new(1),
            to_order: OrderSeq::new(3),
            token: PairToken::Quote,
            amount: Quantity::from(1_100_000_000u64),
            fee: Some(Quantity::from(110_000u64)),
        }
    );
    assert_eq!(
        ops[1],
        BalanceOperation::Transfer {
            from_order: OrderSeq::new(3),
            to_order: OrderSeq::new(1),
            token: PairToken::Base,
            amount: Quantity::from(100_000_000u64),
            fee: None,
        }
    );
}

#[test]
fn fees_round_up() {
    // 1 bps of 1 unit is a fraction: charged as 1.
    let fill = Fill {
        taker_order_seq: OrderSeq::new(1),
        taker_side: Side::Buy,
        taker_price: Price::new(100_000_000),
        maker_order_seq: OrderSeq::new(0),
        maker_price: Price::new(100_000_000),
        quantity: Quantity::from(1u64),
    };
    let settlement = FillSettlement::new(fill, FillSeq::new(0), rates(1, 1), BASE_SCALE);
    let mut ops = Vec::new();
    settlement.push_balance_operations(&mut ops);
    assert_eq!(
        ops[1],
        BalanceOperation::Transfer {
            from_order: OrderSeq::new(0),
            to_order: OrderSeq::new(1),
            token: PairToken::Base,
            amount: Quantity::from(1u64),
            fee: Some(Quantity::from(1u64)),
        }
    );
}

#[test]
fn removed_buy_releases_quote_and_removed_sell_releases_base() {
    let buy = RemovedOrder { side: Side::Buy, price: Price::new(250_000_000), remaining_quantity: Quantity::from(300_000_000u64) };
    let mut ops = Vec::new();
    RemovedOrderSettlement::new(OrderSeq::new(8), &buy, BASE_SCALE).push_balance_operations(&mut ops);
    let sell = RemovedOrder { side: Side::Sell, price: Price::new(250_000_000), remaining_quantity: Quantity::from(300_000_000u64) };
    RemovedOrderSettlement::new(OrderSeq::new(9), &sell, BASE_SCALE).push_balance_operations(&mut ops);
    assert_eq!(
        ops,
        vec![
            BalanceOperation::Unreserve { order: OrderSeq::new(8), token: PairToken::Quote, amount: Quantity::from(750_000_000u64) },
            BalanceOperation::Unreserve { order: OrderSeq::new(9), token: PairToken::Base, amount: Quantity::from(300_000_000u64) },
        ]
    );
}

#[test]
fn a_matching_round_settles_fills_kills_and_statuses_at_once() {
    let q = |v: u64| Quantity::from(v);
    let fill_a = Fill {
        taker_order_seq: OrderSeq::new(9),
        taker_side: Side::Buy,
        taker_price: Price::new(1_600_000_000),
        maker_order_seq: OrderSeq::new(4),
        maker_price: Price::new(1_500_000_000),
        quantity: q(200_000_000),
    };
    let fill_b = Fill {
        taker_order_seq: OrderSeq::new(9),
        taker_side: Side::Buy,
        taker_price: Price::new(1_600_000_000),
        maker_order_seq: OrderSeq::new(5),
        maker_price: Price::new(1_600_000_000),
        quantity: q(100_000_000),
    };
    let killed = RemovedOrder { side: Side::Sell, price: Price::new(1_700_000_000), remaining_quantity: q(300_000_000) };
    let output = MatchingOutput {
        fills: vec![fill_a, fill_b],
        resting_orders: vec![OrderSeq::new(9)],
        filled_orders: vec![OrderSeq::new(4), OrderSeq::new(5)],
        expired_orders: vec![(OrderSeq::new(7), killed)],
    };
    let fee_rates = rates(10, 25);
    let mut next = FillSeq::new(10);
    let settlement = MatchSettlement::from_matching(output, fee_rates, BASE_SCALE, &mut next);

    assert_eq!(next, FillSeq::new(12));
    assert_eq!(
        settlement.balance_operations,
        vec![
            BalanceOperation::Transfer {
                from_order: OrderSeq::new(9),
                to_order: OrderSeq::new(4),
                token: PairToken::Quote,
                amount: q(3_000_000_000),
                fee: Some(q(3_000_000)),
            },
            BalanceOperation::Unreserve { order: OrderSeq::new(9), token: PairToken::Quote, amount: q(200_000_000) },
            BalanceOperation::Transfer {
                from_order: OrderSeq::new(4),
                to_order: OrderSeq::new(9),
                token: PairToken::Base,
                amount: q(200_000_000),
                fee: Some(q(500_000)),
            },
            BalanceOperation::Transfer {
                from_order: OrderSeq::new(9),
                to_order: OrderSeq::new(5),
                token: PairToken::Quote,
                amount: q(1_600_000_000),
                fee: Some(q(1_600_000)),
            },
            BalanceOperation::Transfer {
                from_order: OrderSeq::new(5),
                to_order: OrderSeq::new(9),
                token: PairToken::Base,
                amount: q(100_000_000),
                fee: Some(q(250_000)),
            },
            BalanceOperation::Unreserve { order: OrderSeq::new(7), token: PairToken::Base, amount: q(300_000_000) },
        ]
    );
    assert_eq!(
        settlement.order_updates,
        vec![
            (
                OrderSeq::new(4),
                OrderUpdate {
                    status: Some(OrderStatus::Filled),
                    filled_delta: q(200_000_000),
                    quote_delta: q(3_000_000_000),
                    fee_delta: q(3_000_000), canceled_by: None
                },
            ),
            (
                OrderSeq::new(5),
                OrderUpdate {
                    status: Some(OrderStatus::Filled),
                    filled_delta: q(100_000_000),
                    quote_delta: q(1_600_000_000),
                    fee_delta: q(1_600_000), canceled_by: None
                },
            ),
            (
                OrderSeq::new(7),
                OrderUpdate {
                    status: Some(OrderStatus::Expired),
                    filled_delta: q(0),
                    quote_delta: q(0),
                    fee_delta: q(0), canceled_by: None
                },
            ),
            (
                OrderSeq::new(9),
                OrderUpdate {
                    status: Some(OrderStatus::Open),
                    filled_delta: q(300_000_000),
                    quote_delta: q(4_600_000_000),
                    fee_delta: q(750_000), canceled_by: None
                },
            ),
        ]
    );
    assert_eq!(
        settlement.fills,
        vec![
            FillEvent {
                fill_seq: FillSeq::new(10),
                taker_order_seq: OrderSeq::new(9),
                maker_order_seq: OrderSeq::new(4),
                quantity: q(200_000_000),
                fee_rates,
            },
            FillEvent {
                fill_seq: FillSeq::new(11),
                taker_order_seq: OrderSeq::new(9),
                maker_order_seq: OrderSeq::new(5),
                quantity: q(100_000_000),
                fee_rates,
            },
        ]
    );
}
