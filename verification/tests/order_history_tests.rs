use candid::Principal;
use oisy_trade::identity::UserId;
use oisy_trade::ids::{OrderBookId, OrderId, OrderSeq};
use oisy_trade::order::{CanceledOrderInfo, OrderStatus, Side, TimeInForce};
use oisy_trade::order_history::OrderHistory;
use oisy_trade::quantity::{Price, Quantity};
use oisy_trade::records::{OrderRecord, OrderUpdate};
use oisy_trade::scheduler::Timestamp;

fn q(v: u64) -> Quantity {
    Quantity::from_u128(v as u128)
}

fn history() -> OrderHistory {
    OrderHistory::new()
}

fn order_id(seq: u64) -> OrderId {
    OrderId::new(OrderBookId::zero(), OrderSeq::new(seq))
}

fn test_record() -> OrderRecord {
    OrderRecord {
        owner: Principal::anonymous(),
        side: Side::Buy,
        price: Price::new(100),
        quantity: q(1_000_000),
        filled_quantity: Quantity::zero(),
        status: OrderStatus::Pending,
        created_at: Timestamp::new(0),
        last_updated_at: None,
        time_in_force: TimeInForce::FillOrKill,
        filled_quote: Quantity::zero(),
        filled_fee: Quantity::zero(),
        placed_by: None,
        canceled_by: None,
    }
}

#[test]
fn apply_update_status_only() {
    let mut history = history();
    let id = order_id(0);
    history.insert_once(UserId::new(0), id, test_record());

    history.apply_update(&id, OrderUpdate::status(OrderStatus::Filled), Timestamp::new(7));
    let record = history.get(&id).expect("record present");
    assert_eq!(record.status, OrderStatus::Filled);
    assert_eq!(record.filled_quantity, Quantity::zero());
    assert_eq!(record.last_updated_at, Some(Timestamp::new(7)));
}

#[test]
fn apply_update_delta_only() {
    let mut history = history();
    let id = order_id(0);
    history.insert_once(UserId::new(0), id, test_record());

    history.apply_update(&id, OrderUpdate::filled(q(400_000)), Timestamp::new(9));
    let record = history.get(&id).expect("record present");
    assert_eq!(record.status, OrderStatus::Pending);
    assert_eq!(record.filled_quantity, q(400_000));
    assert_eq!(record.last_updated_at, Some(Timestamp::new(9)));
}

#[test]
fn apply_update_status_and_delta_in_one_write() {
    let mut history = history();
    let id = order_id(0);
    history.insert_once(UserId::new(0), id, test_record());

    history.apply_update(
        &id,
        OrderUpdate { status: Some(OrderStatus::Open), filled_delta: q(300_000), quote_delta: q(3), fee_delta: q(1), canceled_by: None },
        Timestamp::new(11),
    );
    history.apply_update(
        &id,
        OrderUpdate { status: Some(OrderStatus::Filled), filled_delta: q(700_000), quote_delta: q(7), fee_delta: q(2), canceled_by: None },
        Timestamp::new(13),
    );
    let record = history.get(&id).expect("record present");
    assert_eq!(record.status, OrderStatus::Filled);
    assert_eq!(record.filled_quantity, q(1_000_000));
    assert_eq!(record.filled_quote, q(10));
    assert_eq!(record.filled_fee, q(3));
    assert_eq!(record.last_updated_at, Some(Timestamp::new(13)));
}

#[test]
fn apply_update_accumulates_quote_and_fee_in_one_write() {
    let mut history = history();
    let id = order_id(0);
    history.insert_once(UserId::new(0), id, test_record());

    history.apply_update(
        &id,
        OrderUpdate { status: None, filled_delta: q(200_000), quote_delta: q(20_000_000), fee_delta: q(10_000), canceled_by: None },
        Timestamp::new(5),
    );
    let record = history.get(&id).expect("record present");
    assert_eq!(record.status, OrderStatus::Pending);
    assert_eq!(record.filled_quantity, q(200_000));
    assert_eq!(record.filled_quote, q(20_000_000));
    assert_eq!(record.filled_fee, q(10_000));
    assert_eq!(record.last_updated_at, Some(Timestamp::new(5)));
}

#[test]
fn apply_update_does_not_change_last_updated_at_on_noop() {
    let mut history = history();
    let id = order_id(0);
    history.insert_once(UserId::new(0), id, test_record());

    history.apply_update(&id, OrderUpdate::status(OrderStatus::Open), Timestamp::new(5));
    let after_real = history.get(&id).expect("record present");
    assert_eq!(after_real.last_updated_at, Some(Timestamp::new(5)));

    history.apply_update(&id, OrderUpdate::status(OrderStatus::Open), Timestamp::new(42));
    assert_eq!(history.get(&id), Some(after_real));
}

#[test]
fn apply_reports_whether_the_record_changed() {
    let mut record = test_record();
    assert!(!OrderUpdate::status(OrderStatus::Pending).apply(&mut record));
    assert_eq!(record, test_record());
    let info = CanceledOrderInfo { remaining_quantity: q(1_000_000) };
    assert!(OrderUpdate::cancel(info, None).apply(&mut record));
    assert_eq!(record.status, OrderStatus::Canceled(info));
}

#[test]
fn orders_page_newest_first_per_user() {
    let mut history = history();
    for seq in 0..5u64 {
        let owner = if seq % 2 == 0 { 1 } else { 2 };
        history.insert_once(UserId::new(owner), order_id(seq), test_record());
    }
    assert_eq!(history.len(), 5);
    let page = history.orders_after(UserId::new(1), None, 10).unwrap();
    assert_eq!(page, vec![order_id(4), order_id(2), order_id(0)]);
    let next = history.orders_after(UserId::new(1), Some(order_id(2)), 10).unwrap();
    assert_eq!(next, vec![order_id(0)]);
    assert!(history.orders_after(UserId::new(1), Some(order_id(1)), 10).is_err());
    assert_eq!(history.iter().len(), 5);
}

#[test]
fn cancel_records_who_canceled() {
    let admin = Principal::from_slice(&[0x09]);
    let info = CanceledOrderInfo { remaining_quantity: q(1_000_000) };
    let mut record = test_record();
    assert!(OrderUpdate::cancel(info, Some(admin)).apply(&mut record));
    assert_eq!(record.status, OrderStatus::Canceled(info));
    assert_eq!(record.canceled_by, Some(admin));

    let mut record = test_record();
    let mut update = OrderUpdate::status(OrderStatus::Open);
    update.canceled_by = Some(admin);
    assert!(update.apply(&mut record));
    assert_eq!(record.canceled_by, None, "only a move to canceled records the canceler");
}
