use candid::Principal;
use oisy_trade::identity::{TokenId, UserId};
use oisy_trade::ledger::TokenBalance;
use oisy_trade::logging::{
    should_log_deposit_error, should_log_withdraw_error, DepositTemporaryCause, ErrorKind, WithdrawTemporaryCause,
};
use oisy_trade::quantity::Quantity;
use oisy_trade::refusals::{
    to_deposit_failure, to_transfer_failure, withdraw_failure_kind, DepositFailure, TransferFailure,
    TransferFromRefusal, TransferRefusal,
};
use oisy_trade::withdrawal::WithdrawFailure;

fn q(v: u128) -> Quantity {
    Quantity::from_u128(v)
}

fn reason() -> String {
    "the ledger's words".to_string()
}

#[test]
fn deposit_refused_for_funds_or_allowance_is_the_request_s_fault() {
    let funds = to_deposit_failure(TransferFromRefusal::InsufficientFunds { balance: 3u64 }, reason());
    assert_eq!(funds, DepositFailure::InsufficientFunds { balance: 3 });
    assert_eq!(funds.kind(), ErrorKind::Request);
    assert!(!should_log_deposit_error(&funds.kind()));

    let allowance = to_deposit_failure(TransferFromRefusal::InsufficientAllowance { allowance: 5u64 }, reason());
    assert_eq!(allowance, DepositFailure::InsufficientAllowance { allowance: 5 });
    assert_eq!(allowance.kind(), ErrorKind::Request);
    assert!(!should_log_deposit_error(&allowance.kind()));
}

#[test]
fn deposit_refused_by_an_unavailable_ledger_is_temporary() {
    let f = to_deposit_failure(TransferFromRefusal::<u64>::TemporarilyUnavailable, reason());
    assert_eq!(f, DepositFailure::LedgerTemporarilyUnavailable);
    assert_eq!(f.kind(), ErrorKind::Temporary(Some(DepositTemporaryCause::LedgerTemporarilyUnavailable)));
    assert!(should_log_deposit_error(&f.kind()));
}

#[test]
fn other_deposit_refusals_are_internal_and_keep_the_ledger_s_reason() {
    let refusals = vec![
        TransferFromRefusal::BadFee { expected_fee: 10u64 },
        TransferFromRefusal::BadBurn { min_burn_amount: 1 },
        TransferFromRefusal::TooOld,
        TransferFromRefusal::CreatedInFuture { ledger_time: 42 },
        TransferFromRefusal::Duplicate { duplicate_of: 7 },
        TransferFromRefusal::GenericError { error_code: 1, message: "boom".to_string() },
    ];
    for e in refusals {
        let f = to_deposit_failure(e, reason());
        assert_eq!(f, DepositFailure::LedgerError { reason: reason() });
        assert_eq!(f.kind(), ErrorKind::Internal);
        assert!(should_log_deposit_error(&f.kind()));
    }
}

#[test]
fn withdrawal_refusals_map_to_transfer_failures() {
    assert_eq!(
        to_transfer_failure(TransferRefusal::InsufficientFunds { balance: 9u64 }, reason()),
        TransferFailure::LedgerInsufficientFunds { balance: 9 }
    );
    assert_eq!(
        to_transfer_failure(TransferRefusal::<u64>::TemporarilyUnavailable, reason()),
        TransferFailure::LedgerTemporarilyUnavailable
    );
    let others = vec![
        TransferRefusal::BadBurn { min_burn_amount: 1u64 },
        TransferRefusal::TooOld,
        TransferRefusal::CreatedInFuture { ledger_time: 42 },
        TransferRefusal::Duplicate { duplicate_of: 7 },
        TransferRefusal::GenericError { error_code: 1, message: "boom".to_string() },
    ];
    for e in others {
        assert_eq!(to_transfer_failure(e, reason()), TransferFailure::LedgerError { reason: reason() });
    }
}

#[test]
fn withdrawal_failures_are_classified() {
    let too_small: WithdrawFailure<TransferFailure<u64>> = WithdrawFailure::AmountTooSmall { min_amount: q(11).to_be_bytes().to_vec() };
    assert_eq!(withdraw_failure_kind(&too_small), ErrorKind::Request);
    assert!(!should_log_withdraw_error(&withdraw_failure_kind(&too_small)));

    let fee_changed: WithdrawFailure<TransferFailure<u64>> = WithdrawFailure::FeeChangedBetweenRetries;
    assert_eq!(withdraw_failure_kind(&fee_changed), ErrorKind::Internal);
    assert!(should_log_withdraw_error(&withdraw_failure_kind(&fee_changed)));

    let unavailable: WithdrawFailure<TransferFailure<u64>> =
        WithdrawFailure::Failed(TransferFailure::LedgerTemporarilyUnavailable);
    assert_eq!(
        withdraw_failure_kind(&unavailable),
        ErrorKind::Temporary(Some(WithdrawTemporaryCause::LedgerTemporarilyUnavailable))
    );
    assert!(should_log_withdraw_error(&withdraw_failure_kind(&unavailable)));

    let short: WithdrawFailure<TransferFailure<u64>> =
        WithdrawFailure::Failed(TransferFailure::LedgerInsufficientFunds { balance: 1 });
    assert_eq!(withdraw_failure_kind(&short), ErrorKind::Internal);
}

#[test]
fn deposit_is_admitted_only_while_the_holding_stays_in_range() {
    let alice = UserId::new(1);
    let token = TokenId::new(Principal::from_slice(&[0xA0]));
    let mut tb = TokenBalance::default();
    assert!(tb.can_hold_deposit(alice, &token, Quantity::max_value()));

    tb.deposit(alice, token.clone(), q(10));
    tb.reserve(alice, &token, q(4)).unwrap();
    let room = Quantity::max_value().checked_sub(q(10)).unwrap();
    assert!(tb.can_hold_deposit(alice, &token, room));
    assert!(!tb.can_hold_deposit(alice, &token, room.checked_add(q(1)).unwrap()));
}
