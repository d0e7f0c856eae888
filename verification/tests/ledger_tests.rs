use candid::Principal;
use oisy_trade::balance::{Balance, InsufficientBalanceError};
use oisy_trade::identity::{TokenId, TradingPair, UserId};
use oisy_trade::order::PairToken;
use oisy_trade::ledger::{FeeEntry, TokenBalance};
use oisy_trade::quantity::Quantity;

fn q(v: u64) -> Quantity {
    Quantity::from_u128(v as u128)
}

fn alice() -> UserId {
    UserId::new(1)
}

fn bob() -> UserId {
    UserId::new(2)
}

fn token_a() -> TokenId {
    TokenId::new(Principal::from_slice(&[0xA0]))
}

fn token_b() -> TokenId {
    TokenId::new(Principal::from_slice(&[0xB0]))
}

fn setup_alice_reserve(amount: u64) -> TokenBalance {
    let mut tb = TokenBalance::default();
    tb.deposit(alice(), token_a(), q(amount));
    tb.reserve(alice(), &token_a(), q(amount)).unwrap();
    tb
}

fn sum_users(tb: &TokenBalance, token: &TokenId, users: &[UserId]) -> Quantity {
    let mut acc = Quantity::zero();
    for user in users {
        if let Some(b) = tb.get_balance(*user, token) {
            acc = acc.checked_add(b.free().checked_add(*b.reserved()).unwrap()).unwrap();
        }
    }
    acc
}

#[test]
fn should_deposit_and_read_balance() {
    let mut tb = TokenBalance::default();
    tb.deposit(alice(), token_a(), q(100));
    assert_eq!(tb.get_balance(alice(), &token_a()), Some(Balance::new(q(100), q(0))));
}

#[test]
fn should_return_none_for_unknown_balance() {
    let tb = TokenBalance::default();
    assert_eq!(tb.get_balance(alice(), &token_a()), None);
}

#[test]
fn should_reserve_from_deposited() {
    let mut tb = TokenBalance::default();
    tb.deposit(alice(), token_a(), q(100));
    tb.reserve(alice(), &token_a(), q(40)).unwrap();
    assert_eq!(tb.get_balance(alice(), &token_a()), Some(Balance::new(q(60), q(40))));
}

#[test]
fn should_keep_tokens_separate() {
    let mut tb = TokenBalance::default();
    tb.deposit(alice(), token_a(), q(100));
    tb.deposit(alice(), token_b(), q(200));
    assert_eq!(tb.get_balance(alice(), &token_a()), Some(Balance::new(q(100), q(0))));
    assert_eq!(tb.get_balance(alice(), &token_b()), Some(Balance::new(q(200), q(0))));
}

#[test]
fn should_withdraw_from_deposited() {
    let mut tb = TokenBalance::default();
    tb.deposit(alice(), token_a(), q(100));
    tb.withdraw(alice(), &token_a(), q(40)).unwrap();
    assert_eq!(tb.get_balance(alice(), &token_a()), Some(Balance::new(q(60), q(0))));
}

#[test]
fn should_fail_to_withdraw_from_missing_entry() {
    let mut tb = TokenBalance::default();
    let err = tb.withdraw(alice(), &token_a(), q(10)).unwrap_err();
    assert_eq!(err, InsufficientBalanceError { available: Quantity::zero(), required: q(10) });
}

#[test]
fn should_fail_to_reserve_missing_entry() {
    let mut tb = TokenBalance::default();
    let err = tb.reserve(alice(), &token_a(), q(10)).unwrap_err();
    assert_eq!(err, InsufficientBalanceError { available: Quantity::zero(), required: q(10) });
}

#[test]
fn should_transfer_between_users() {
    let mut tb = TokenBalance::default();
    tb.deposit(alice(), token_a(), q(100));
    tb.reserve(alice(), &token_a(), q(100)).unwrap();
    tb.transfer(alice(), bob(), &token_a(), q(100), Quantity::zero());
    assert_eq!(tb.get_balance(alice(), &token_a()), Some(Balance::new(q(0), q(0))));
    assert_eq!(tb.get_balance(bob(), &token_a()), Some(Balance::new(q(100), q(0))));
}

#[test]
fn should_transfer_self_trade_preserves_free_and_clears_reserved() {
    let mut tb = TokenBalance::default();
    tb.deposit(alice(), token_a(), q(100));
    tb.reserve(alice(), &token_a(), q(60)).unwrap();
    tb.transfer(alice(), alice(), &token_a(), q(60), Quantity::zero());
    assert_eq!(tb.get_balance(alice(), &token_a()), Some(Balance::new(q(100), q(0))));
}

#[test]
fn should_unreserve_back_to_free() {
    let mut tb = TokenBalance::default();
    tb.deposit(alice(), token_a(), q(100));
    tb.reserve(alice(), &token_a(), q(80)).unwrap();
    tb.unreserve(alice(), &token_a(), q(30));
    assert_eq!(tb.get_balance(alice(), &token_a()), Some(Balance::new(q(50), q(50))));
}

#[test]
fn fee_balance_is_none_for_unknown_token() {
    let tb = TokenBalance::default();
    assert_eq!(tb.fee_balance(&token_a()), None);
}

#[test]
fn transfer_credits_net_to_creditor_and_accrues_to_pool() {
    let mut tb = setup_alice_reserve(100);
    tb.transfer(alice(), bob(), &token_a(), q(40), q(3));
    assert_eq!(tb.get_balance(alice(), &token_a()), Some(Balance::new(q(0), q(60))));
    assert_eq!(tb.get_balance(bob(), &token_a()), Some(Balance::new(q(37), q(0))));
    assert_eq!(tb.fee_balance(&token_a()), Some(q(3)));
}

#[test]
fn multiple_accruals_sum_per_token() {
    let mut tb = setup_alice_reserve(100);
    tb.transfer(alice(), bob(), &token_a(), q(40), q(3));
    tb.transfer(alice(), bob(), &token_a(), q(20), q(1));
    assert_eq!(tb.fee_balance(&token_a()), Some(q(4)));
}

#[test]
fn invariant_holds_across_a_mixed_workload() {
    let mut tb = setup_alice_reserve(100);
    tb.deposit(bob(), token_b(), q(50));

    tb.transfer(alice(), bob(), &token_a(), q(40), q(2));
    tb.reserve(bob(), &token_a(), q(10)).unwrap();
    tb.unreserve(bob(), &token_a(), q(5));
    tb.transfer(alice(), bob(), &token_a(), q(10), q(1));
    tb.withdraw(bob(), &token_a(), q(7)).unwrap();

    let users = [alice(), bob()];
    let total_a = sum_users(&tb, &token_a(), &users)
        .checked_add(tb.fee_balance(&token_a()).unwrap_or(Quantity::zero()))
        .unwrap();
    assert_eq!(total_a, q(93));
    assert_eq!(sum_users(&tb, &token_b(), &users), q(50));
    assert_eq!(tb.fee_balance(&token_b()), None);
}

#[test]
fn snapshot_roundtrips_through_save_and_restore() {
    let mut tb = setup_alice_reserve(100);
    tb.transfer(alice(), bob(), &token_a(), q(40), q(3));
    tb.deposit(alice(), token_b(), q(50));
    tb.reserve(alice(), &token_b(), q(20)).unwrap();
    tb.transfer(alice(), bob(), &token_b(), q(20), q(2));

    let snapshot: Vec<FeeEntry> = tb.fee_pool_snapshot();
    assert_eq!(snapshot.len(), 2);

    let mut restored = TokenBalance::default();
    restored.restore_fee_pool(snapshot.clone());
    assert_eq!(restored.fee_balance(&token_a()), Some(q(3)));
    assert_eq!(restored.fee_balance(&token_b()), Some(q(2)));

    let resnap: Vec<FeeEntry> = restored.fee_pool_snapshot();
    assert_eq!(resnap, snapshot);
}

#[test]
fn restore_replaces_any_existing_pool() {
    let mut tb = setup_alice_reserve(100);
    tb.transfer(alice(), bob(), &token_a(), q(20), q(5));
    assert_eq!(tb.fee_balance(&token_a()), Some(q(5)));

    tb.restore_fee_pool(vec![FeeEntry { token: token_b(), amount: q(7) }]);

    assert_eq!(tb.fee_balance(&token_a()), None);
    assert_eq!(tb.fee_balance(&token_b()), Some(q(7)));
}

#[test]
fn drain_fee_credits_recipient_and_decreases_pool() {
    let mut tb = setup_alice_reserve(100);
    tb.transfer(alice(), bob(), &token_a(), q(40), q(10));
    assert_eq!(tb.fee_balance(&token_a()), Some(q(10)));

    let admin = UserId::new(0xAA);
    tb.drain_fee_to(&token_a(), q(7), admin).unwrap();

    assert_eq!(tb.fee_balance(&token_a()), Some(q(3)));
    assert_eq!(tb.get_balance(admin, &token_a()), Some(Balance::new(q(7), q(0))));
}

#[test]
fn drain_fee_clears_entry_when_pool_reaches_zero() {
    let mut tb = setup_alice_reserve(100);
    tb.transfer(alice(), bob(), &token_a(), q(40), q(5));
    let admin = UserId::new(0xAA);

    tb.drain_fee_to(&token_a(), q(5), admin).unwrap();

    assert_eq!(tb.fee_balance(&token_a()), None);
    assert_eq!(tb.iter_fee_balances().into_iter().count(), 0);
}

#[test]
fn drain_fee_returns_err_on_insufficient_pool() {
    let mut tb = setup_alice_reserve(100);
    tb.transfer(alice(), bob(), &token_a(), q(40), q(3));
    let admin = UserId::new(0xAA);

    let err = tb.drain_fee_to(&token_a(), q(4), admin).unwrap_err();

    assert_eq!(err, InsufficientBalanceError { available: q(3), required: q(4) });
    assert_eq!(tb.fee_balance(&token_a()), Some(q(3)));
    assert_eq!(tb.get_balance(admin, &token_a()), None);
}

#[test]
fn fee_pool_lists_tokens_shorter_principals_first() {
    let mut tb = TokenBalance::default();
    let long = TokenId::new(Principal::from_slice(&[0x01, 0x00]));
    let short = TokenId::new(Principal::from_slice(&[0xFF]));
    tb.deposit(alice(), long.clone(), q(10));
    tb.reserve(alice(), &long, q(10)).unwrap();
    tb.deposit(alice(), short.clone(), q(10));
    tb.reserve(alice(), &short, q(10)).unwrap();
    tb.transfer(alice(), bob(), &long, q(10), q(1));
    tb.transfer(alice(), bob(), &short, q(10), q(2));
    let pool = tb.iter_fee_balances();
    assert_eq!(pool.len(), 2);
    assert_eq!(pool[0], (short, q(2)));
    assert_eq!(pool[1], (long, q(1)));
}

#[test]
fn zero_credit_to_a_missing_row_creates_no_row() {
    let mut tb = TokenBalance::default();
    tb.deposit(alice(), token_a(), Quantity::zero());
    assert_eq!(tb.get_balance(alice(), &token_a()), None);
    tb.withdraw(alice(), &token_a(), Quantity::zero()).unwrap();
    assert_eq!(tb.get_balance(alice(), &token_a()), None);
}

#[test]
fn token_id_keeps_its_principal() {
    let p = Principal::from_slice(&[1, 2, 3]);
    let t = TokenId::new(p);
    assert_eq!(t.as_principal(), p);
}

#[test]
fn a_batch_drops_the_rows_it_created_and_left_empty() {
    let mut tb = setup_alice_reserve(100);
    tb.deposit(bob(), token_b(), q(5));
    let mut batch = tb.write_back();
    // bob receives 40 of token A in a new row, then reserves and passes it all on
    batch.transfer(alice(), bob(), &token_a(), q(40), q(0));
    batch.reserve(bob(), &token_a(), q(40)).unwrap();
    batch.transfer(bob(), alice(), &token_a(), q(40), q(0));
    // bob's existing token B row is emptied but stays
    batch.withdraw(bob(), &token_b(), q(5)).unwrap();
    let tb = batch.flush();
    assert_eq!(tb.get_balance(bob(), &token_a()), None);
    assert_eq!(tb.get_balance(bob(), &token_b()), Some(Balance::new(q(0), q(0))));
    assert_eq!(tb.get_balance(alice(), &token_a()), Some(Balance::new(q(40), q(60))));
}

#[test]
fn a_batch_keeps_what_it_created_with_funds() {
    let tb = setup_alice_reserve(100);
    let mut batch = tb.write_back();
    batch.transfer(alice(), bob(), &token_a(), q(30), q(3));
    batch.deposit(bob(), &token_b(), q(9));
    let tb = batch.flush();
    assert_eq!(tb.get_balance(bob(), &token_a()), Some(Balance::new(q(27), q(0))));
    assert_eq!(tb.get_balance(bob(), &token_b()), Some(Balance::new(q(9), q(0))));
    assert_eq!(tb.fee_balance(&token_a()), Some(q(3)));
}

#[test]
fn trading_pair_names_its_tokens_by_side() {
    let pair = TradingPair { base: token_a(), quote: token_b() };
    assert_eq!(pair.token(&PairToken::Base), token_a());
    assert_eq!(pair.token(&PairToken::Quote), token_b());
}

#[test]
fn crediting_back_a_withdrawal_restores_the_balance() {
    let mut tb = TokenBalance::default();
    tb.deposit(alice(), token_a(), q(100));
    tb.reserve(alice(), &token_a(), q(30)).unwrap();
    let before = tb.get_balance(alice(), &token_a());

    tb.withdraw(alice(), &token_a(), q(50)).unwrap();
    assert_eq!(tb.get_balance(alice(), &token_a()), Some(Balance::new(q(20), q(30))));
    tb.deposit(alice(), token_a(), q(50));

    assert_eq!(tb.get_balance(alice(), &token_a()), before);
}
