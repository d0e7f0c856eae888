use candid::Principal;
use oisy_trade::guard::{InFlightOps, UserOpGuard};
use oisy_trade::identity::TokenId;

fn user_a() -> Principal {
    Principal::from_slice(&[0x01])
}

fn user_b() -> Principal {
    Principal::from_slice(&[0x02])
}

fn token_a() -> TokenId {
    TokenId::new(Principal::from_slice(&[0xAA]))
}

fn token_b() -> TokenId {
    TokenId::new(Principal::from_slice(&[0xBB]))
}

fn assert_in_flight(ops: &InFlightOps, expected: &[(Principal, TokenId)]) {
    assert_eq!(ops.len(), expected.len());
    for (caller, token) in expected {
        assert!(ops.is_claimed(caller, token));
    }
}

#[test]
fn should_acquire_and_release_guard() {
    let mut ops = InFlightOps::new();
    let guard = UserOpGuard::new(&mut ops, user_a(), token_a()).expect("first acquire should succeed");
    assert_in_flight(&ops, &[(user_a(), token_a())]);
    guard.release(&mut ops);
    assert_in_flight(&ops, &[]);
}

#[test]
fn should_block_second_acquire_for_same_key() {
    let mut ops = InFlightOps::new();
    let _first = UserOpGuard::new(&mut ops, user_a(), token_a()).expect("first acquire should succeed");
    let second = UserOpGuard::new(&mut ops, user_a(), token_a());
    assert!(second.is_none(), "second acquire for same key must fail");
    assert_in_flight(&ops, &[(user_a(), token_a())]);
}

#[test]
fn should_re_acquire_after_drop() {
    let mut ops = InFlightOps::new();
    UserOpGuard::new(&mut ops, user_a(), token_a()).expect("first acquire should succeed").release(&mut ops);
    let _second = UserOpGuard::new(&mut ops, user_a(), token_a()).expect("re-acquire after drop should succeed");
    assert_in_flight(&ops, &[(user_a(), token_a())]);
}

#[test]
fn should_not_block_distinct_token() {
    let mut ops = InFlightOps::new();
    let _a = UserOpGuard::new(&mut ops, user_a(), token_a()).expect("first acquire should succeed");
    let _b = UserOpGuard::new(&mut ops, user_a(), token_b()).expect("distinct token should not be blocked");
    assert_in_flight(&ops, &[(user_a(), token_a()), (user_a(), token_b())]);
}

#[test]
fn should_not_block_distinct_caller() {
    let mut ops = InFlightOps::new();
    let _a = UserOpGuard::new(&mut ops, user_a(), token_a()).expect("first acquire should succeed");
    let _b = UserOpGuard::new(&mut ops, user_b(), token_a()).expect("distinct caller should not be blocked");
    assert_in_flight(&ops, &[(user_a(), token_a()), (user_b(), token_a())]);
}

#[test]
fn releasing_one_claim_keeps_the_others() {
    let mut ops = InFlightOps::new();
    let a = UserOpGuard::new(&mut ops, user_a(), token_a()).unwrap();
    let _b = UserOpGuard::new(&mut ops, user_b(), token_a()).unwrap();
    a.release(&mut ops);
    assert!(!ops.is_claimed(&user_a(), &token_a()));
    assert_in_flight(&ops, &[(user_b(), token_a())]);
}
