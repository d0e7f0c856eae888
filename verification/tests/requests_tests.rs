use oisy_trade::requests::events_page;
use oisy_trade::execute::{books_by_pending_order_count_desc, chunk_sizes, ExecutionStatus};
use oisy_trade::ids::OrderBookId;
use oisy_trade::quantity::{LotSize, Quantity, TickSize};
use oisy_trade::requests::{base_scale_for, depth_limit, validate_pair_request, AddTradingPairError, DepthLimitTooLarge};

fn q(v: u64) -> Option<Quantity> {
    Some(Quantity::from(v))
}

/// The minimal big-endian bytes of `v`.
fn b(v: u128) -> Vec<u8> {
    let bytes = v.to_be_bytes();
    let first = bytes.iter().position(|&x| x != 0).unwrap_or(bytes.len());
    bytes[first..].to_vec()
}

fn invalid_notional(min: Vec<u8>, max: Option<Vec<u8>>) -> AddTradingPairError {
    AddTradingPairError::InvalidNotional { min_notional: min, max_notional: max }
}

#[test]
fn pair_request_errors_in_order() {
    assert_eq!(
        validate_pair_request(true, Some(0), None, 20_000, 0, vec![], None),
        Err(AddTradingPairError::BaseEqualsQuote)
    );
    assert_eq!(validate_pair_request(false, Some(0), Some(1), 0, 0, b(1), None), Err(AddTradingPairError::InvalidTickSize));
    assert_eq!(validate_pair_request(false, None, Some(1), 0, 0, b(1), None), Err(AddTradingPairError::InvalidTickSize));
    assert_eq!(validate_pair_request(false, Some(1), Some(0), 0, 0, b(1), None), Err(AddTradingPairError::InvalidLotSize));
    assert_eq!(
        validate_pair_request(false, Some(1), Some(1), 10_001, 20_000, b(1), None),
        Err(AddTradingPairError::InvalidBasisPoint(10_001))
    );
    assert_eq!(
        validate_pair_request(false, Some(1), Some(1), 10_000, 20_000, b(1), None),
        Err(AddTradingPairError::InvalidBasisPoint(20_000))
    );
    assert_eq!(validate_pair_request(false, Some(1), Some(1), 0, 0, b(0), None), Err(invalid_notional(b(0), None)));
    assert_eq!(
        validate_pair_request(false, Some(1), Some(1), 0, 0, b(5), Some(b(4))),
        Err(invalid_notional(b(5), Some(b(4))))
    );
    let too_big = [vec![1u8], vec![0u8; 32]].concat();
    assert_eq!(
        validate_pair_request(false, Some(1), Some(1), 0, 0, b(5), Some(too_big.clone())),
        Err(invalid_notional(b(5), Some(too_big.clone())))
    );
    assert_eq!(
        validate_pair_request(false, Some(1), Some(1), 0, 0, too_big.clone(), None),
        Err(invalid_notional(too_big, None))
    );
    let ok = validate_pair_request(false, Some(10), Some(100), 5, 7, b(5), Some(b(5))).unwrap();
    assert_eq!(ok.tick_size.get(), 10);
    assert_eq!(ok.lot_size.get(), 100);
    assert_eq!(ok.fee_rates.maker.get(), 5);
    assert_eq!(ok.fee_rates.taker.get(), 7);
    assert_eq!(ok.min_notional, Quantity::from(5u64));
    assert_eq!(ok.max_notional, q(5));
}

#[test]
fn base_scale_requires_tick_times_lot_to_be_a_multiple() {
    assert_eq!(base_scale_for(TickSize::new(1_000), LotSize::new(100_000), 8), Ok(100_000_000));
    assert_eq!(
        base_scale_for(TickSize::new(1_000), LotSize::new(10_000), 8),
        Err(AddTradingPairError::IndivisibleTickLotForBaseDecimals { tick_size: 1_000, lot_size: 10_000, base_decimals: 8 })
    );
    assert_eq!(base_scale_for(TickSize::new(1), LotSize::new(1), 0), Ok(1));
    assert_eq!(
        base_scale_for(TickSize::new(u128::MAX), LotSize::new(u64::MAX), 20),
        Err(AddTradingPairError::BaseDecimalsTooLarge { decimals: 20 })
    );
    assert_eq!(base_scale_for(TickSize::new(10_000_000_000), LotSize::new(1_000_000_000), 19), Ok(10_000_000_000_000_000_000));
}

#[test]
fn depth_limit_defaults_and_caps() {
    assert_eq!(depth_limit(None, 20, 100), Ok(20));
    assert_eq!(depth_limit(Some(100), 20, 100), Ok(100));
    assert_eq!(depth_limit(Some(101), 20, 100), Err(DepthLimitTooLarge { requested: 101, max: 100 }));
}

#[test]
fn books_are_ranked_by_pending_count_then_id() {
    let counts = vec![
        (OrderBookId::new(3), 5),
        (OrderBookId::new(1), 0),
        (OrderBookId::new(2), 5),
        (OrderBookId::new(0), 7),
    ];
    let ranked = books_by_pending_order_count_desc(&counts);
    assert_eq!(ranked, vec![(OrderBookId::new(0), 7), (OrderBookId::new(2), 5), (OrderBookId::new(3), 5)]);
}

#[test]
fn chunk_budget_is_shared_in_turn() {
    assert_eq!(chunk_sizes(&vec![7, 5, 5], 10), vec![7, 3, 0]);
    assert_eq!(chunk_sizes(&vec![2, 3], 10), vec![2, 3]);
    assert_eq!(chunk_sizes(&vec![], 10), Vec::<usize>::new());
}

#[test]
fn execution_status_reflects_pending_work() {
    assert_eq!(ExecutionStatus::from_pending(false, false), ExecutionStatus::Complete);
    assert_eq!(ExecutionStatus::from_pending(true, false), ExecutionStatus::MoreWork);
    assert_eq!(ExecutionStatus::from_pending(false, true), ExecutionStatus::MoreWork);
}

#[test]
fn scaled_product_is_none_exactly_when_it_overflows() {
    let price = oisy_trade::quantity::Price::new(u128::MAX);
    assert_eq!(price.checked_mul_quantity_scaled(&Quantity::max_value(), u64::MAX), None);
    let price = oisy_trade::quantity::Price::new(200);
    assert_eq!(price.checked_mul_quantity_scaled(&Quantity::from(50u64), 100), Some(Quantity::from(100u64)));
}

#[test]
fn event_pages_are_capped_and_stop_at_the_end() {
    assert_eq!(events_page(0, 10, 100), (0, 10));
    assert_eq!(events_page(95, 10, 100), (95, 5));
    assert_eq!(events_page(150, 10, 100), (100, 0));
    assert_eq!(events_page(0, u64::MAX, 5_000), (0, 2_000));
}
