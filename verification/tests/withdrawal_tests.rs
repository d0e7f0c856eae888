use oisy_trade::quantity::Quantity;
use oisy_trade::withdrawal::{
    on_transfer_reply, start_withdrawal, TransferOrder, TransferReply, WithdrawFailure, WithdrawOutcome, WithdrawPhase,
    WithdrawStep,
};

fn q(v: u128) -> Quantity {
    Quantity::from_u128(v)
}

#[test]
fn first_transfer_pays_the_cached_fee_out_of_the_amount() {
    let (phase, order) = start_withdrawal(q(1_000), q(10));
    assert_eq!(phase, WithdrawPhase::First { amount: q(1_000) });
    assert_eq!(order, TransferOrder { amount: q(990), fee: q(10) });
}

#[test]
fn fee_is_capped_so_the_user_receives_at_least_one_unit() {
    let (_, order) = start_withdrawal(q(5), q(10));
    assert_eq!(order, TransferOrder { amount: q(1), fee: q(4) });
}

#[test]
fn accepted_first_transfer_finishes_without_a_new_fee() {
    let step = on_transfer_reply::<u64, ()>(WithdrawPhase::First { amount: q(100) }, TransferReply::Accepted(7));
    assert_eq!(step, WithdrawStep::Finish(WithdrawOutcome { result: Ok(7), ledger_fee: None }));
}

#[test]
fn bad_fee_is_retried_once_at_the_named_fee() {
    let step = on_transfer_reply::<u64, ()>(
        WithdrawPhase::First { amount: q(100) },
        TransferReply::BadFee { expected_fee: q(20) },
    );
    assert_eq!(
        step,
        WithdrawStep::Call(
            WithdrawPhase::Retry { amount: q(100), fee: q(20) },
            TransferOrder { amount: q(80), fee: q(20) },
        )
    );
    let done = on_transfer_reply::<u64, ()>(WithdrawPhase::Retry { amount: q(100), fee: q(20) }, TransferReply::Accepted(9));
    assert_eq!(done, WithdrawStep::Finish(WithdrawOutcome { result: Ok(9), ledger_fee: Some(q(20)) }));
}

#[test]
fn amount_not_above_the_named_fee_is_too_small() {
    let step = on_transfer_reply::<u64, ()>(
        WithdrawPhase::First { amount: q(20) },
        TransferReply::BadFee { expected_fee: q(20) },
    );
    assert_eq!(
        step,
        WithdrawStep::Finish(WithdrawOutcome {
            result: Err(WithdrawFailure::AmountTooSmall { min_amount: q(21).to_be_bytes().to_vec() }),
            ledger_fee: Some(q(20)),
        })
    );
}

#[test]
fn second_fee_change_fails_the_withdrawal() {
    let step = on_transfer_reply::<u64, ()>(
        WithdrawPhase::Retry { amount: q(100), fee: q(20) },
        TransferReply::BadFee { expected_fee: q(30) },
    );
    assert_eq!(
        step,
        WithdrawStep::Finish(WithdrawOutcome {
            result: Err(WithdrawFailure::FeeChangedBetweenRetries),
            ledger_fee: Some(q(30)),
        })
    );
}

#[test]
fn ledger_failures_are_passed_on() {
    let first = on_transfer_reply::<u64, &str>(WithdrawPhase::First { amount: q(100) }, TransferReply::Failed("down"));
    assert_eq!(first, WithdrawStep::Finish(WithdrawOutcome { result: Err(WithdrawFailure::Failed("down")), ledger_fee: None }));
    let retry = on_transfer_reply::<u64, &str>(
        WithdrawPhase::Retry { amount: q(100), fee: q(20) },
        TransferReply::Failed("down"),
    );
    assert_eq!(
        retry,
        WithdrawStep::Finish(WithdrawOutcome { result: Err(WithdrawFailure::Failed("down")), ledger_fee: Some(q(20)) })
    );
}

#[test]
fn a_fee_of_the_largest_amount_names_a_minimum_past_256_bits() {
    let step = on_transfer_reply::<u64, ()>(
        WithdrawPhase::First { amount: q(100) },
        TransferReply::BadFee { expected_fee: Quantity::max_value() },
    );
    let mut past = vec![1u8];
    past.extend(std::iter::repeat(0u8).take(32));
    assert_eq!(
        step,
        WithdrawStep::Finish(WithdrawOutcome {
            result: Err(WithdrawFailure::AmountTooSmall { min_amount: past }),
            ledger_fee: Some(Quantity::max_value()),
        })
    );
}
