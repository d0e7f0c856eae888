//! The decisions of a withdrawal to a token ledger: which transfer to ask
//! the ledger for, and what to make of its answer. A first transfer pays the
//! cached ledger fee out of the withdrawn amount; if the ledger names another
//! fee, one retry pays that fee instead; a second fee change fails the
//! withdrawal. Every transfer asked for moves exactly the withdrawn amount,
//! the part the user receives plus the ledger's fee.
use vstd::prelude::*;
use crate::bytes::be_value;
use crate::quantity::{pow2_256, Quantity};

verus! {

broadcast use {Quantity::lemma_view_injective, Quantity::lemma_bound};

/// A transfer to ask the ledger for: `amount` to the user, `fee` to the
/// ledger.
#[derive(Debug, Clone, Copy, PartialEq, Eq, Structural)]
pub struct TransferOrder {
    pub amount: Quantity,
    pub fee: Quantity,
}

/// What the ledger answered a transfer.
#[derive(Debug, Clone, PartialEq, Eq)]
pub enum TransferReply<R, E> {
    /// The transfer went through.
    Accepted(R),
    /// The ledger charges another fee than the one offered.
    BadFee { expected_fee: Quantity },
    /// Any other failure, passed on as it is.
    Failed(E),
}

/// Why a withdrawal failed.
#[derive(Debug, Clone, PartialEq, Eq)]
pub enum WithdrawFailure<E> {
    /// The amount does not even cover the ledger's fee; the least amount
    /// worth withdrawing, one more than the fee, as big-endian bytes.
    AmountTooSmall { min_amount: Vec<u8> },
    /// The ledger's fee changed again while retrying.
    FeeChangedBetweenRetries,
    /// The ledger's own failure.
    Failed(E),
}

/// How a withdrawal ended, and the ledger fee it learned, if any.
#[derive(Debug, PartialEq, Eq)]
pub struct WithdrawOutcome<R, E> {
    pub result: Result<R, WithdrawFailure<E>>,
    pub ledger_fee: Option<Quantity>,
}

/// Where a withdrawal of `amount` stands while a transfer is under way.
#[derive(Debug, Clone, Copy, PartialEq, Eq, Structural)]
pub enum WithdrawPhase {
    /// The first transfer, at the cached fee.
    First { amount: Quantity },
    /// The retry, at the fee the ledger named.
    Retry { amount: Quantity, fee: Quantity },
}

/// What to do after a ledger answer: make another transfer, or finish.
#[derive(Debug, PartialEq, Eq)]
pub enum WithdrawStep<R, E> {
    Call(WithdrawPhase, TransferOrder),
    Finish(WithdrawOutcome<R, E>),
}

/// The first transfer of a withdrawal of `amount`: the fee is the cached
/// ledger fee, capped so that the user receives at least one unit, and the
/// user receives the rest.
pub fn start_withdrawal(amount: Quantity, cached_fee: Quantity) -> (r: (WithdrawPhase, TransferOrder))
    requires
        amount@ > 0,
    ensures
        r.0 == (WithdrawPhase::First { amount }),
        r.1.fee@ == if cached_fee@ < amount@ { cached_fee@ } else { (amount@ - 1) as nat },
        r.1.amount@ + r.1.fee@ == amount@,
        r.1.amount@ >= 1,
{
    let one = Quantity::from_u128(1);
    let most = amount.checked_sub(one).unwrap();
    let fee = if cached_fee.lt(&amount) { cached_fee } else { most };
    let rest = amount.checked_sub(fee).unwrap();
    (WithdrawPhase::First { amount }, TransferOrder { amount: rest, fee })
}

/// What to do after the ledger answered the transfer of `phase`. A first
/// transfer that the ledger refused for its fee is retried once at the fee
/// the ledger named, unless the amount does not exceed that fee; a retry
/// always finishes the withdrawal.
pub fn on_transfer_reply<R, E>(phase: WithdrawPhase, reply: TransferReply<R, E>) -> (r: WithdrawStep<R, E>)
    ensures
        match phase {
            WithdrawPhase::First { amount } => match reply {
                TransferReply::Accepted(res) => r == WithdrawStep::<R, E>::Finish(
                    WithdrawOutcome { result: Ok(res), ledger_fee: None },
                ),
                TransferReply::BadFee { expected_fee } => if amount@ <= expected_fee@ {
                    r matches WithdrawStep::Finish(out) && out.ledger_fee == Some(expected_fee) && (out.result matches Err(
                        WithdrawFailure::AmountTooSmall { min_amount },
                    ) && be_value(min_amount@) == expected_fee@ + 1)
                } else {
                    r matches WithdrawStep::Call(next, order) && next == (WithdrawPhase::Retry { amount, fee: expected_fee })
                        && order.fee == expected_fee && order.amount@ + order.fee@ == amount@
                },
                TransferReply::Failed(e) => r == WithdrawStep::<R, E>::Finish(
                    WithdrawOutcome { result: Err(WithdrawFailure::Failed(e)), ledger_fee: None },
                ),
            },
            WithdrawPhase::Retry { amount, fee } => match reply {
                TransferReply::Accepted(res) => r == WithdrawStep::<R, E>::Finish(
                    WithdrawOutcome { result: Ok(res), ledger_fee: Some(fee) },
                ),
                TransferReply::BadFee { expected_fee } => r == WithdrawStep::<R, E>::Finish(
                    WithdrawOutcome { result: Err(WithdrawFailure::FeeChangedBetweenRetries), ledger_fee: Some(expected_fee) },
                ),
                TransferReply::Failed(e) => r == WithdrawStep::<R, E>::Finish(
                    WithdrawOutcome { result: Err(WithdrawFailure::Failed(e)), ledger_fee: Some(fee) },
                ),
            },
        },
{
    match phase {
        WithdrawPhase::First { amount } => match reply {
            TransferReply::Accepted(res) => WithdrawStep::Finish(WithdrawOutcome { result: Ok(res), ledger_fee: None }),
            TransferReply::BadFee { expected_fee } => {
                if amount.le(&expected_fee) {
                    let min_amount = expected_fee.succ_be_bytes();
                    WithdrawStep::Finish(
                        WithdrawOutcome {
                            result: Err(WithdrawFailure::AmountTooSmall { min_amount }),
                            ledger_fee: Some(expected_fee),
                        },
                    )
                } else {
                    let rest = amount.checked_sub(expected_fee).unwrap();
                    WithdrawStep::Call(
                        WithdrawPhase::Retry { amount, fee: expected_fee },
                        TransferOrder { amount: rest, fee: expected_fee },
                    )
                }
            },
            TransferReply::Failed(e) => WithdrawStep::Finish(
                WithdrawOutcome { result: Err(WithdrawFailure::Failed(e)), ledger_fee: None },
            ),
        },
        WithdrawPhase::Retry { amount: _, fee } => match reply {
            TransferReply::Accepted(res) => WithdrawStep::Finish(WithdrawOutcome { result: Ok(res), ledger_fee: Some(fee) }),
            TransferReply::BadFee { expected_fee } => WithdrawStep::Finish(
                WithdrawOutcome { result: Err(WithdrawFailure::FeeChangedBetweenRetries), ledger_fee: Some(expected_fee) },
            ),
            TransferReply::Failed(e) => WithdrawStep::Finish(
                WithdrawOutcome { result: Err(WithdrawFailure::Failed(e)), ledger_fee: Some(fee) },
            ),
        },
    }
}

} // verus!
