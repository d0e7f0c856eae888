//! Which failed deposit and withdrawal requests are worth logging: internal
//! and operational failures are, failures caused by the user's own request
//! are not.
use vstd::prelude::*;

verus! {

/// How a request failed, with the cause where a temporary failure names one.
#[derive(Debug, Clone, Copy, PartialEq, Eq)]
pub enum ErrorKind<T> {
    Internal,
    Temporary(Option<T>),
    Request,
}

/// Why a deposit failed temporarily.
#[derive(Debug, Clone, Copy, PartialEq, Eq)]
pub enum DepositTemporaryCause {
    LedgerTemporarilyUnavailable,
    CallFailed,
    /// Another operation of the same user on the same token is running.
    OperationInProgress,
}

/// Why a withdrawal failed temporarily.
#[derive(Debug, Clone, Copy, PartialEq, Eq)]
pub enum WithdrawTemporaryCause {
    LedgerTemporarilyUnavailable,
    CallFailed,
    LedgerFeeChanged,
    /// Another operation of the same user on the same token is running.
    OperationInProgress,
}

/// A failed deposit of this kind is logged.
pub open spec fn logs_deposit(kind: ErrorKind<DepositTemporaryCause>) -> bool {
    kind == ErrorKind::<DepositTemporaryCause>::Internal || (kind matches ErrorKind::Temporary(Some(cause))
        && cause != DepositTemporaryCause::OperationInProgress)
}

/// A failed withdrawal of this kind is logged.
pub open spec fn logs_withdraw(kind: ErrorKind<WithdrawTemporaryCause>) -> bool {
    kind == ErrorKind::<WithdrawTemporaryCause>::Internal || (kind matches ErrorKind::Temporary(Some(cause))
        && cause != WithdrawTemporaryCause::OperationInProgress)
}

/// Whether a failed deposit is logged: internal errors always, temporary
/// errors unless the user's own concurrent operation caused them, request
/// errors never.
pub fn should_log_deposit_error(kind: &ErrorKind<DepositTemporaryCause>) -> (r: bool)
    ensures
        r == logs_deposit(*kind),
{
    match kind {
        ErrorKind::Internal => true,
        ErrorKind::Temporary(Some(cause)) => match cause {
            DepositTemporaryCause::LedgerTemporarilyUnavailable | DepositTemporaryCause::CallFailed => true,
            DepositTemporaryCause::OperationInProgress => false,
        },
        ErrorKind::Temporary(None) | ErrorKind::Request => false,
    }
}

/// Whether a failed withdrawal is logged: internal errors always, temporary
/// errors unless the user's own concurrent operation caused them, request
/// errors never.
pub fn should_log_withdraw_error(kind: &ErrorKind<WithdrawTemporaryCause>) -> (r: bool)
    ensures
        r == logs_withdraw(*kind),
{
    match kind {
        ErrorKind::Internal => true,
        ErrorKind::Temporary(Some(cause)) => match cause {
            WithdrawTemporaryCause::LedgerTemporarilyUnavailable
            | WithdrawTemporaryCause::CallFailed
            | WithdrawTemporaryCause::LedgerFeeChanged => true,
            WithdrawTemporaryCause::OperationInProgress => false,
        },
        ErrorKind::Temporary(None) | ErrorKind::Request => false,
    }
}

} // verus!
