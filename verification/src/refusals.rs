//! What a token ledger's refusal of a transfer means to the exchange. A
//! deposit pulls funds with `icrc2_transfer_from`, a withdrawal pushes them
//! with `icrc1_transfer`; each refusal of the ledger becomes a failure told
//! to the user, classified as caused by the request, temporary, or internal.
//! Amounts the ledger reports are passed through unchanged, whatever their
//! type `N`; `reason` is the ledger's own description of the refusal.
use vstd::prelude::*;
use crate::logging::{
    logs_deposit, logs_withdraw, DepositTemporaryCause, ErrorKind, WithdrawTemporaryCause,
};
use crate::withdrawal::WithdrawFailure;

verus! {

/// A ledger's refusal of an `icrc2_transfer_from`.
#[derive(Debug, Clone, PartialEq, Eq)]
pub enum TransferFromRefusal<N> {
    BadFee { expected_fee: N },
    BadBurn { min_burn_amount: N },
    InsufficientFunds { balance: N },
    InsufficientAllowance { allowance: N },
    TooOld,
    CreatedInFuture { ledger_time: u64 },
    Duplicate { duplicate_of: N },
    TemporarilyUnavailable,
    GenericError { error_code: N, message: String },
}

/// A ledger's refusal of an `icrc1_transfer`.
#[derive(Debug, Clone, PartialEq, Eq)]
pub enum TransferRefusal<N> {
    BadFee { expected_fee: N },
    BadBurn { min_burn_amount: N },
    InsufficientFunds { balance: N },
    TooOld,
    CreatedInFuture { ledger_time: u64 },
    Duplicate { duplicate_of: N },
    TemporarilyUnavailable,
    GenericError { error_code: N, message: String },
}

/// Why the ledger did not let a deposit through.
#[derive(Debug, Clone, PartialEq, Eq)]
pub enum DepositFailure<N> {
    /// The user's account holds less than the deposit.
    InsufficientFunds { balance: N },
    /// The user allowed the exchange to take less than the deposit.
    InsufficientAllowance { allowance: N },
    LedgerTemporarilyUnavailable,
    /// A refusal that a well-formed deposit never meets.
    LedgerError { reason: String },
}

/// Why the ledger did not let a withdrawal's transfer through.
#[derive(Debug, Clone, PartialEq, Eq)]
pub enum TransferFailure<N> {
    /// The exchange's own account holds less than its books say it does.
    LedgerInsufficientFunds { balance: N },
    LedgerTemporarilyUnavailable,
    /// A refusal that a well-formed transfer never meets.
    LedgerError { reason: String },
}

/// The failure told for a refused deposit.
pub open spec fn deposit_failure_of<N>(e: TransferFromRefusal<N>, reason: String) -> DepositFailure<N> {
    match e {
        TransferFromRefusal::InsufficientFunds { balance } => DepositFailure::InsufficientFunds { balance },
        TransferFromRefusal::InsufficientAllowance { allowance } => DepositFailure::InsufficientAllowance { allowance },
        TransferFromRefusal::TemporarilyUnavailable => DepositFailure::LedgerTemporarilyUnavailable,
        _ => DepositFailure::LedgerError { reason },
    }
}

/// The failure told for a refused withdrawal transfer.
pub open spec fn transfer_failure_of<N>(e: TransferRefusal<N>, reason: String) -> TransferFailure<N> {
    match e {
        TransferRefusal::InsufficientFunds { balance } => TransferFailure::LedgerInsufficientFunds { balance },
        TransferRefusal::TemporarilyUnavailable => TransferFailure::LedgerTemporarilyUnavailable,
        _ => TransferFailure::LedgerError { reason },
    }
}

/// The kind of a deposit failure: the user's funds and allowance are the
/// request's business, an unavailable ledger is temporary, the rest is
/// internal.
pub open spec fn deposit_kind_of<N>(f: DepositFailure<N>) -> ErrorKind<DepositTemporaryCause> {
    match f {
        DepositFailure::InsufficientFunds { .. } | DepositFailure::InsufficientAllowance { .. } => ErrorKind::Request,
        DepositFailure::LedgerTemporarilyUnavailable => ErrorKind::Temporary(
            Some(DepositTemporaryCause::LedgerTemporarilyUnavailable),
        ),
        DepositFailure::LedgerError { .. } => ErrorKind::Internal,
    }
}

/// The kind of a withdrawal failure: an amount below the fee is the
/// request's business, an unavailable ledger is temporary, the rest
/// (a second fee change among them) is internal.
pub open spec fn withdraw_kind_of<N>(f: WithdrawFailure<TransferFailure<N>>) -> ErrorKind<WithdrawTemporaryCause> {
    match f {
        WithdrawFailure::AmountTooSmall { .. } => ErrorKind::Request,
        WithdrawFailure::FeeChangedBetweenRetries => ErrorKind::Internal,
        WithdrawFailure::Failed(TransferFailure::LedgerTemporarilyUnavailable) => ErrorKind::Temporary(
            Some(WithdrawTemporaryCause::LedgerTemporarilyUnavailable),
        ),
        WithdrawFailure::Failed(_) => ErrorKind::Internal,
    }
}

/// The failure told for a deposit that the ledger refused.
pub fn to_deposit_failure<N>(e: TransferFromRefusal<N>, reason: String) -> (r: DepositFailure<N>)
    ensures
        r == deposit_failure_of(e, reason),
{
    match e {
        TransferFromRefusal::InsufficientFunds { balance } => DepositFailure::InsufficientFunds { balance },
        TransferFromRefusal::InsufficientAllowance { allowance } => DepositFailure::InsufficientAllowance { allowance },
        TransferFromRefusal::TemporarilyUnavailable => DepositFailure::LedgerTemporarilyUnavailable,
        TransferFromRefusal::BadFee { .. }
        | TransferFromRefusal::BadBurn { .. }
        | TransferFromRefusal::CreatedInFuture { .. }
        | TransferFromRefusal::Duplicate { .. }
        | TransferFromRefusal::GenericError { .. }
        | TransferFromRefusal::TooOld => DepositFailure::LedgerError { reason },
    }
}

/// The failure told for a withdrawal transfer that the ledger refused. A
/// refusal for the fee is not one: the withdrawal retries it instead.
pub fn to_transfer_failure<N>(e: TransferRefusal<N>, reason: String) -> (r: TransferFailure<N>)
    requires
        !(e is BadFee),
    ensures
        r == transfer_failure_of(e, reason),
{
    match e {
        TransferRefusal::InsufficientFunds { balance } => TransferFailure::LedgerInsufficientFunds { balance },
        TransferRefusal::TemporarilyUnavailable => TransferFailure::LedgerTemporarilyUnavailable,
        TransferRefusal::BadFee { .. }
        | TransferRefusal::BadBurn { .. }
        | TransferRefusal::CreatedInFuture { .. }
        | TransferRefusal::Duplicate { .. }
        | TransferRefusal::GenericError { .. }
        | TransferRefusal::TooOld => TransferFailure::LedgerError { reason },
    }
}

impl<N> DepositFailure<N> {
    /// How this failure is classified.
    pub fn kind(&self) -> (r: ErrorKind<DepositTemporaryCause>)
        ensures
            r == deposit_kind_of(*self),
    {
        match self {
            DepositFailure::InsufficientFunds { .. } | DepositFailure::InsufficientAllowance { .. } => ErrorKind::Request,
            DepositFailure::LedgerTemporarilyUnavailable => ErrorKind::Temporary(
                Some(DepositTemporaryCause::LedgerTemporarilyUnavailable),
            ),
            DepositFailure::LedgerError { .. } => ErrorKind::Internal,
        }
    }
}

/// How a failed withdrawal is classified.
pub fn withdraw_failure_kind<N>(f: &WithdrawFailure<TransferFailure<N>>) -> (r: ErrorKind<WithdrawTemporaryCause>)
    ensures
        r == withdraw_kind_of(*f),
{
    match f {
        WithdrawFailure::AmountTooSmall { .. } => ErrorKind::Request,
        WithdrawFailure::FeeChangedBetweenRetries => ErrorKind::Internal,
        WithdrawFailure::Failed(TransferFailure::LedgerTemporarilyUnavailable) => ErrorKind::Temporary(
            Some(WithdrawTemporaryCause::LedgerTemporarilyUnavailable),
        ),
        WithdrawFailure::Failed(_) => ErrorKind::Internal,
    }
}

/// A deposit the ledger refused is logged exactly when the refusal is not
/// about the user's own funds or allowance.
pub proof fn lemma_deposit_refusal_logged<N>(e: TransferFromRefusal<N>, reason: String)
    ensures
        logs_deposit(deposit_kind_of(deposit_failure_of(e, reason)))
            <==> !(e is InsufficientFunds || e is InsufficientAllowance),
{
}

/// A withdrawal that failed at the ledger is logged unless its amount did
/// not cover the ledger's fee.
pub proof fn lemma_withdraw_failure_logged<N>(f: WithdrawFailure<TransferFailure<N>>)
    ensures
        logs_withdraw(withdraw_kind_of(f)) <==> !(f is AmountTooSmall),
{
}

} // verus!
