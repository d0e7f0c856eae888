use oisy_trade::balance::{Balance, InsufficientBalanceError, StorableBalance};
use oisy_trade::quantity::Quantity;

fn q(v: u64) -> Quantity {
    Quantity::from(v)
}

#[test]
fn should_reserve_from_free_balance() {
    let mut balance = Balance::zero();
    balance.deposit(q(100));

    balance.reserve(q(40)).unwrap();

    assert_eq!(balance, Balance::new(q(60), q(40)));
}

#[test]
fn should_fail_to_reserve_more_than_free() {
    let mut balance = Balance::zero();
    balance.deposit(q(50));
    let balance_before_reserve = balance;

    assert_eq!(
        balance.reserve(q(100)).unwrap_err(),
        InsufficientBalanceError { available: q(50), required: q(100) }
    );
    assert_eq!(balance_before_reserve, balance, "Balance should not have changed when reserve failed");
}

#[test]
fn should_debit_reserved() {
    let mut balance = Balance::new(q(10), q(90));

    balance.debit_reserved(&q(30));

    assert_eq!(balance, Balance::new(q(10), q(60)));
}

#[test]
fn should_withdraw_from_free_balance() {
    let mut balance = Balance::zero();
    balance.deposit(q(100));

    balance.withdraw(q(40)).unwrap();

    assert_eq!(balance, Balance::new(q(60), q(0)));
}

#[test]
fn should_fail_to_withdraw_more_than_free() {
    let mut balance = Balance::new(q(50), q(30));
    let balance_before = balance;

    assert_eq!(
        balance.withdraw(q(60)).unwrap_err(),
        InsufficientBalanceError { available: q(50), required: q(60) }
    );
    assert_eq!(balance_before, balance, "Balance should not have changed when withdraw failed");
}

#[test]
fn should_unreserve() {
    let mut balance = Balance::new(q(10), q(90));

    balance.unreserve(q(40));

    assert_eq!(balance, Balance::new(q(50), q(50)));
}

#[test]
fn storable_balance_roundtrip() {
    let sb = StorableBalance { free: Quantity::from(42_000_000u64), reserved: Quantity::from(1_000u64) };
    let bytes = sb.to_bytes();
    let restored = StorableBalance::from_bytes(&bytes);
    assert_eq!(restored, sb);
}

#[test]
fn storable_balance_roundtrip_zero() {
    let sb = StorableBalance { free: Quantity::zero(), reserved: Quantity::zero() };
    let bytes = sb.to_bytes();
    let restored = StorableBalance::from_bytes(&bytes);
    assert_eq!(restored, sb);
}

#[test]
fn storable_balance_layout_is_two_big_endian_halves() {
    let sb = StorableBalance { free: Quantity::from(0x0102u64), reserved: Quantity::from_u128(u128::MAX) };
    let bytes = sb.to_bytes();
    assert_eq!(bytes.len(), 64);
    assert_eq!(&bytes[..30], &[0u8; 30][..]);
    assert_eq!(bytes[30], 0x01);
    assert_eq!(bytes[31], 0x02);
    assert_eq!(&bytes[32..48], &[0u8; 16][..]);
    assert_eq!(&bytes[48..], &[0xffu8; 16][..]);
}

#[test]
fn storable_balance_reads_a_short_reserved_half() {
    let mut bytes = vec![0u8; 32];
    bytes[31] = 7;
    bytes.push(1);
    bytes.push(0);
    let sb = StorableBalance::from_bytes(&bytes);
    assert_eq!(sb.free, Quantity::from(7u64));
    assert_eq!(sb.reserved, Quantity::from(256u64));
}

#[test]
fn reserve_then_unreserve_restores_the_balance() {
    let mut balance = Balance::new(q(70), q(5));
    let before = balance;
    balance.reserve(q(30)).unwrap();
    assert_eq!(balance, Balance::new(q(40), q(35)));
    balance.unreserve(q(30));
    assert_eq!(balance, before);
}

#[test]
fn balance_to_and_from_storable_keeps_both_halves() {
    let b = Balance::new(q(3), q(4));
    let sb = StorableBalance::from_balance(&b);
    assert_eq!(sb.to_balance(), b);
    assert!(!b.is_zero());
    assert!(Balance::zero().is_zero());
    assert_eq!(Balance::new_free(q(9)), Balance::new(q(9), q(0)));
    assert_eq!(Balance::new_reserved(q(9)), Balance::new(q(0), q(9)));
    assert_eq!(*b.free(), q(3));
    assert_eq!(*b.reserved(), q(4));
}
