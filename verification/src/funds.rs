//! The exchange's side of deposits and withdrawals. A deposit is checked
//! and claims its `(caller, token)` pair before the ledger is asked for the
//! funds, and is credited once the ledger has moved them. A withdrawal is
//! checked, claims its pair and debits the user before the ledger is asked
//! to pay out; if the ledger does not, the amount is credited back, so the
//! user loses nothing. Either way the claim is given back at the end.
use vstd::prelude::*;
use candid::Principal;
use crate::guard::{InFlightOps, UserOpGuard};
use crate::identity::{principal_bytes, TokenId, UserId};
use crate::bytes::be_value;
use crate::ledger::{deposited, withdrawn, TokenBalance};
use crate::quantity::{pow2_256, Quantity};

verus! {

broadcast use {Quantity::lemma_view_injective, Quantity::lemma_bound};

/// Why a deposit was refused before the ledger was asked.
#[derive(Debug, Clone, Copy, PartialEq, Eq, Structural)]
pub enum DepositRejection {
    /// The token is not listed.
    UnsupportedToken,
    /// The amount, or what the user would hold with it, does not fit in
    /// 256 bits.
    AmountExceedsMaximum,
    /// Another deposit or withdrawal of the caller in this token is under way.
    OperationInProgress,
}

/// Why a withdrawal was refused before the ledger was asked.
#[derive(Debug, Clone, PartialEq, Eq)]
pub enum WithdrawRejection {
    /// The token is not listed.
    UnsupportedToken,
    /// Nothing to withdraw: the least worth withdrawing, one more than the
    /// ledger's fee, as big-endian bytes.
    AmountTooSmall { min_amount: Vec<u8> },
    /// The amount does not fit in 256 bits.
    AmountExceedsMaximum,
    /// Another deposit or withdrawal of the caller in this token is under way.
    OperationInProgress,
    /// The user's free funds do not cover the amount.
    InsufficientBalance { available: Quantity },
}

/// Start a deposit of `amount` (`None` when it needs more than 256 bits)
/// by `caller`, whose funds are kept under `user`, in `token`: the token
/// must be listed, the amount must fit, no other operation of the caller in
/// the token may be under way, and what the user holds in the token, free
/// and reserved, must stay in range with the deposit. On success the pair
/// is claimed and the claim is handed out with the amount; otherwise
/// nothing changes.
pub fn begin_deposit(
    ops: &mut InFlightOps,
    balances: &TokenBalance,
    token_listed: bool,
    caller: Principal,
    user: UserId,
    token: TokenId,
    amount: Option<Quantity>,
) -> (r: Result<(UserOpGuard, Quantity), DepositRejection>)
    requires
        balances.wf(),
    ensures
        ({
            let key = (principal_bytes(caller), token@);
            if !token_listed {
                r == Err::<(UserOpGuard, Quantity), DepositRejection>(DepositRejection::UnsupportedToken)
            } else if amount is None {
                r == Err::<(UserOpGuard, Quantity), DepositRejection>(DepositRejection::AmountExceedsMaximum)
            } else if old(ops).claimed().contains(key) {
                r == Err::<(UserOpGuard, Quantity), DepositRejection>(DepositRejection::OperationInProgress)
            } else if balances.held_of(token@, user@) + amount.unwrap()@ >= pow2_256() {
                r == Err::<(UserOpGuard, Quantity), DepositRejection>(DepositRejection::AmountExceedsMaximum)
            } else {
                r matches Ok((g, a)) && g.key() == key && a == amount.unwrap()
                    && final(ops).claimed() == old(ops).claimed().insert(key)
            }
        }),
        r is Err ==> final(ops).claimed() == old(ops).claimed(),
        r is Ok ==> balances.free_of(token@, user@) + r->Ok_0.1@ < pow2_256(),
{
    if !token_listed {
        return Err(DepositRejection::UnsupportedToken);
    }
    let amount = match amount {
        Some(a) => a,
        None => return Err(DepositRejection::AmountExceedsMaximum),
    };
    let fits = balances.can_hold_deposit(user, &token, amount);
    let ghost key = (principal_bytes(caller), token@);
    let guard = match UserOpGuard::new(ops, caller, token) {
        Some(g) => g,
        None => return Err(DepositRejection::OperationInProgress),
    };
    if !fits {
        guard.release(ops);
        proof {
            assert(old(ops).claimed().insert(key).remove(key) =~= old(ops).claimed());
        }
        return Err(DepositRejection::AmountExceedsMaximum);
    }
    Ok((guard, amount))
}

/// Finish a deposit that the ledger carried out: credit the amount to the
/// user's free funds and give the claim back.
pub fn finish_deposit(ops: &mut InFlightOps, balances: &mut TokenBalance, guard: UserOpGuard, user: UserId, token: TokenId, amount: Quantity)
    requires
        old(balances).wf(),
        old(balances).free_of(token@, user@) + amount@ < pow2_256(),
    ensures
        deposited(*old(balances), *final(balances), user@, token@, amount@),
        final(ops).claimed() == old(ops).claimed().remove(guard.key()),
{
    balances.deposit(user, token, amount);
    guard.release(ops);
}

/// Start a withdrawal of `amount` (`None` when it needs more than 256 bits)
/// by `caller`, whose funds are kept under `user`, in `token`, whose ledger
/// is known to charge `cached_fee`: the token must be listed, the amount
/// must be positive and fit, no other operation of the caller in the token
/// may be under way, and the user's free funds must cover the amount. On
/// success the pair is claimed, the amount is debited, and the claim is
/// handed out with the amount; otherwise nothing changes.
pub fn begin_withdrawal(
    ops: &mut InFlightOps,
    balances: &mut TokenBalance,
    token_listed: bool,
    cached_fee: Quantity,
    caller: Principal,
    user: UserId,
    token: &TokenId,
    amount: Option<Quantity>,
) -> (r: Result<(UserOpGuard, Quantity), WithdrawRejection>)
    requires
        old(balances).wf(),
    ensures
        final(balances).wf(),
        ({
            let key = (principal_bytes(caller), token@);
            if !token_listed {
                r == Err::<(UserOpGuard, Quantity), WithdrawRejection>(WithdrawRejection::UnsupportedToken)
            } else if amount matches Some(a) && a@ == 0 {
                r matches Err(WithdrawRejection::AmountTooSmall { min_amount }) && be_value(min_amount@) == cached_fee@ + 1
            } else if amount is None {
                r == Err::<(UserOpGuard, Quantity), WithdrawRejection>(WithdrawRejection::AmountExceedsMaximum)
            } else if old(ops).claimed().contains(key) {
                r == Err::<(UserOpGuard, Quantity), WithdrawRejection>(WithdrawRejection::OperationInProgress)
            } else if old(balances).free_of(token@, user@) < amount.unwrap()@ {
                r matches Err(WithdrawRejection::InsufficientBalance { available }) && available@ == old(balances).free_of(
                    token@,
                    user@,
                )
            } else {
                r matches Ok((g, a)) && g.key() == key && a == amount.unwrap()
                    && final(ops).claimed() == old(ops).claimed().insert(key)
                    && withdrawn(*old(balances), *final(balances), user@, token@, a, Ok(()))
            }
        }),
        r is Err ==> final(ops).claimed() == old(ops).claimed() && final(balances).rows() == old(balances).rows()
            && final(balances).fees() == old(balances).fees(),
{
    if !token_listed {
        return Err(WithdrawRejection::UnsupportedToken);
    }
    if let Some(a) = amount {
        if a.is_zero() {
            let min_amount = cached_fee.succ_be_bytes();
            return Err(WithdrawRejection::AmountTooSmall { min_amount });
        }
    }
    let amount = match amount {
        Some(a) => a,
        None => return Err(WithdrawRejection::AmountExceedsMaximum),
    };
    let ghost key = (principal_bytes(caller), token@);
    let guard = match UserOpGuard::new(ops, caller, token.duplicate()) {
        Some(g) => g,
        None => return Err(WithdrawRejection::OperationInProgress),
    };
    match balances.withdraw(user, token, amount) {
        Ok(()) => Ok((guard, amount)),
        Err(e) => {
            guard.release(ops);
            proof {
                assert(old(ops).claimed().insert(key).remove(key) =~= old(ops).claimed());
            }
            Err(WithdrawRejection::InsufficientBalance { available: e.available })
        },
    }
}

/// Finish a withdrawal once the ledger answered: when it did not pay out,
/// credit the amount back to the user's free funds; either way give the
/// claim back.
pub fn finish_withdrawal(
    ops: &mut InFlightOps,
    balances: &mut TokenBalance,
    guard: UserOpGuard,
    user: UserId,
    token: TokenId,
    amount: Quantity,
    paid_out: bool,
)
    requires
        old(balances).wf(),
        !paid_out ==> old(balances).free_of(token@, user@) + amount@ < pow2_256(),
    ensures
        paid_out ==> *final(balances) == *old(balances),
        !paid_out ==> deposited(*old(balances), *final(balances), user@, token@, amount@),
        final(ops).claimed() == old(ops).claimed().remove(guard.key()),
{
    if !paid_out {
        balances.deposit(user, token, amount);
    }
    guard.release(ops);
}

} // verus!
