use candid::Principal;
use oisy_trade::balance::Balance;
use oisy_trade::funds::{
    begin_deposit, begin_withdrawal, finish_deposit, finish_withdrawal, DepositRejection, WithdrawRejection,
};
use oisy_trade::guard::{InFlightOps, UserOpGuard};
use oisy_trade::identity::{TokenId, UserId};
use oisy_trade::ledger::TokenBalance;
use oisy_trade::quantity::Quantity;

fn q(v: u128) -> Quantity {
    Quantity::from_u128(v)
}

fn caller() -> Principal {
    Principal::from_slice(&[0x01])
}

fn user() -> UserId {
    UserId::new(1)
}

fn token() -> TokenId {
    TokenId::new(Principal::from_slice(&[0xAA]))
}

#[test]
fn deposit_of_an_unlisted_token_is_refused() {
    let mut ops = InFlightOps::new();
    let tb = TokenBalance::default();
    let r = begin_deposit(&mut ops, &tb, false, caller(), user(), token(), Some(q(5)));
    assert_eq!(r.err(), Some(DepositRejection::UnsupportedToken));
    assert_eq!(ops.len(), 0);
}

#[test]
fn deposit_too_large_to_hold_is_refused() {
    let mut ops = InFlightOps::new();
    let tb = TokenBalance::default();
    let r = begin_deposit(&mut ops, &tb, true, caller(), user(), token(), None);
    assert_eq!(r.err(), Some(DepositRejection::AmountExceedsMaximum));

    let mut tb = TokenBalance::default();
    tb.deposit(user(), token(), q(10));
    tb.reserve(user(), &token(), q(4)).unwrap();
    let room = Quantity::max_value().checked_sub(q(10)).unwrap();
    let r = begin_deposit(&mut ops, &tb, true, caller(), user(), token(), Some(room.checked_add(q(1)).unwrap()));
    assert_eq!(r.err(), Some(DepositRejection::AmountExceedsMaximum));
    assert_eq!(ops.len(), 0, "a refused deposit gives its claim back");
}

#[test]
fn deposit_waits_for_an_operation_under_way() {
    let mut ops = InFlightOps::new();
    let _held = UserOpGuard::new(&mut ops, caller(), token()).unwrap();
    let tb = TokenBalance::default();
    let r = begin_deposit(&mut ops, &tb, true, caller(), user(), token(), Some(q(5)));
    assert_eq!(r.err(), Some(DepositRejection::OperationInProgress));
    assert_eq!(ops.len(), 1);
}

#[test]
fn deposit_is_credited_once_the_ledger_moved_the_funds() {
    let mut ops = InFlightOps::new();
    let mut tb = TokenBalance::default();
    let (guard, amount) = begin_deposit(&mut ops, &tb, true, caller(), user(), token(), Some(q(25))).unwrap();
    assert!(ops.is_claimed(&caller(), &token()));
    finish_deposit(&mut ops, &mut tb, guard, user(), token(), amount);
    assert_eq!(tb.get_balance(user(), &token()), Some(Balance::new(q(25), q(0))));
    assert_eq!(ops.len(), 0);
}

#[test]
fn withdrawal_of_nothing_names_the_least_worth_withdrawing() {
    let mut ops = InFlightOps::new();
    let mut tb = TokenBalance::default();
    let r = begin_withdrawal(&mut ops, &mut tb, true, q(10), caller(), user(), &token(), Some(q(0)));
    assert_eq!(r.err(), Some(WithdrawRejection::AmountTooSmall { min_amount: q(11).to_be_bytes().to_vec() }));
}

#[test]
fn withdrawal_checks_come_in_order() {
    let mut ops = InFlightOps::new();
    let mut tb = TokenBalance::default();
    let r = begin_withdrawal(&mut ops, &mut tb, false, q(10), caller(), user(), &token(), Some(q(0)));
    assert_eq!(r.err(), Some(WithdrawRejection::UnsupportedToken));
    let r = begin_withdrawal(&mut ops, &mut tb, true, q(10), caller(), user(), &token(), None);
    assert_eq!(r.err(), Some(WithdrawRejection::AmountExceedsMaximum));
    let r = begin_withdrawal(&mut ops, &mut tb, true, q(10), caller(), user(), &token(), Some(q(5)));
    assert_eq!(r.err(), Some(WithdrawRejection::InsufficientBalance { available: q(0) }));
    assert_eq!(ops.len(), 0);
}

#[test]
fn failed_payout_is_credited_back() {
    let mut ops = InFlightOps::new();
    let mut tb = TokenBalance::default();
    tb.deposit(user(), token(), q(100));
    let (guard, amount) = begin_withdrawal(&mut ops, &mut tb, true, q(10), caller(), user(), &token(), Some(q(60))).unwrap();
    assert_eq!(tb.get_balance(user(), &token()), Some(Balance::new(q(40), q(0))));
    let again = begin_withdrawal(&mut ops, &mut tb, true, q(10), caller(), user(), &token(), Some(q(1)));
    assert_eq!(again.err(), Some(WithdrawRejection::OperationInProgress));

    finish_withdrawal(&mut ops, &mut tb, guard, user(), token(), amount, false);
    assert_eq!(tb.get_balance(user(), &token()), Some(Balance::new(q(100), q(0))));
    assert_eq!(ops.len(), 0);
}

#[test]
fn paid_out_withdrawal_stays_debited() {
    let mut ops = InFlightOps::new();
    let mut tb = TokenBalance::default();
    tb.deposit(user(), token(), q(100));
    let (guard, amount) = begin_withdrawal(&mut ops, &mut tb, true, q(10), caller(), user(), &token(), Some(q(60))).unwrap();
    finish_withdrawal(&mut ops, &mut tb, guard, user(), token(), amount, true);
    assert_eq!(tb.get_balance(user(), &token()), Some(Balance::new(q(40), q(0))));
    assert_eq!(ops.len(), 0);
}
