use oisy_trade::logging::{
    should_log_deposit_error, should_log_withdraw_error, DepositTemporaryCause, ErrorKind, WithdrawTemporaryCause,
};
use oisy_trade::requests::{validate_filter_len, FilterTooLarge};

#[test]
fn should_not_log_deposit_request_errors() {
    let cases = vec![
        ("out-of-range amount is a request error and must not be rendered", ErrorKind::Request, false),
        (
            "in-flight guard rejection is a user action",
            ErrorKind::Temporary(Some(DepositTemporaryCause::OperationInProgress)),
            false,
        ),
        (
            "ledger unavailability is a temporary operational error",
            ErrorKind::Temporary(Some(DepositTemporaryCause::LedgerTemporarilyUnavailable)),
            true,
        ),
        ("internal errors are always logged", ErrorKind::Internal, true),
    ];
    for (desc, error, expected) in cases {
        assert_eq!(should_log_deposit_error(&error), expected, "{}", desc);
    }
}

#[test]
fn should_not_log_withdraw_request_errors() {
    let cases = vec![
        ("out-of-range amount is a request error and must not be rendered", ErrorKind::Request, false),
        (
            "in-flight guard rejection is a user action",
            ErrorKind::Temporary(Some(WithdrawTemporaryCause::OperationInProgress)),
            false,
        ),
        (
            "ledger unavailability is a temporary operational error",
            ErrorKind::Temporary(Some(WithdrawTemporaryCause::LedgerTemporarilyUnavailable)),
            true,
        ),
        ("internal errors are always logged", ErrorKind::Internal, true),
    ];
    for (desc, error, expected) in cases {
        assert_eq!(should_log_withdraw_error(&error), expected, "{}", desc);
    }
}

#[test]
fn temporary_errors_without_a_cause_are_not_logged() {
    assert!(!should_log_deposit_error(&ErrorKind::Temporary(None)));
    assert!(!should_log_withdraw_error(&ErrorKind::Temporary(None)));
    assert!(should_log_withdraw_error(&ErrorKind::Temporary(Some(WithdrawTemporaryCause::LedgerFeeChanged))));
}

#[test]
fn filter_length_is_checked_against_the_maximum() {
    assert_eq!(validate_filter_len(None, 2), Ok(()));
    assert_eq!(validate_filter_len(Some(2), 2), Ok(()));
    assert_eq!(validate_filter_len(Some(3), 2), Err(FilterTooLarge { len: 3, max: 2 }));
}
