use candid::Principal;
use oisy_trade::dashboard::{
    bar_width_percent, format_mode, format_scaled, group_digits, quantity_digits, saturating_to_u128, u128_digits, Mode,
};
use oisy_trade::quantity::Quantity;

#[test]
fn should_compute_bar_width_percent_without_overflow() {
    assert_eq!(bar_width_percent(0, 0), 0);
    assert_eq!(bar_width_percent(50, 0), 0);
    assert_eq!(bar_width_percent(0, 100), 0);
    assert_eq!(bar_width_percent(50, 100), 50);
    assert_eq!(bar_width_percent(100, 100), 100);
    assert_eq!(bar_width_percent(150, 100), 100);

    assert_eq!(bar_width_percent(u128::MAX, u128::MAX), 100);
    let half = bar_width_percent(u128::MAX / 2, u128::MAX);
    assert!((49..=50).contains(&half), "expected ~50%, got {half}");
}

#[test]
fn should_saturate_quantity_to_u128() {
    assert_eq!(saturating_to_u128(&Quantity::zero()), 0);
    assert_eq!(saturating_to_u128(&Quantity::from(1u64)), 1);
    assert_eq!(saturating_to_u128(&Quantity::from(u64::MAX)), u128::from(u64::MAX));
    assert_eq!(saturating_to_u128(&Quantity::from_u128(u128::MAX)), u128::MAX);
    assert_eq!(saturating_to_u128(&Quantity::new(1, 0)), u128::MAX);
    assert_eq!(saturating_to_u128(&Quantity::max_value()), u128::MAX);
}

#[test]
fn should_format_scaled_with_zero_decimals_as_passthrough() {
    assert_eq!(format_scaled("12345", 0), "12345");
}

#[test]
fn should_format_scaled_sub_one_with_leading_zero() {
    assert_eq!(format_scaled("1000000", 9), "0.001");
}

#[test]
fn should_format_scaled_trimming_trailing_zeros() {
    assert_eq!(format_scaled("1000000000000000000", 18), "1");
}

#[test]
fn should_format_scaled_exact_mid_value() {
    assert_eq!(format_scaled("50000000000000000", 18), "0.05");
}

#[test]
fn should_format_scaled_stripping_underscores() {
    assert_eq!(format_scaled("1_000_000", 6), "1");
}

#[test]
fn should_format_scaled_u256_quantity_without_precision_loss() {
    let raw = quantity_digits(&Quantity::new(1, 0));
    assert_eq!(raw, "340282366920938463463374607431768211456", "Quantity::new(1, 0) is 2^128");
    assert_eq!(format_scaled(&raw, 18), "340282366920938463463.374607431768211456");
}

#[test]
fn group_digits_inserts_a_separator_every_three_digits_from_the_right() {
    assert_eq!(group_digits(""), "");
    assert_eq!(group_digits("1"), "1");
    assert_eq!(group_digits("123"), "123");
    assert_eq!(group_digits("1234"), "1_234");
    assert_eq!(group_digits("1234567"), "1_234_567");
    assert_eq!(group_digits("123456"), "123_456");
}

#[test]
fn decimal_digits_of_integers() {
    assert_eq!(u128_digits(0), "0");
    assert_eq!(u128_digits(7), "7");
    assert_eq!(u128_digits(1_000_000), "1000000");
    assert_eq!(u128_digits(u128::MAX), "340282366920938463463374607431768211455");
    assert_eq!(quantity_digits(&Quantity::zero()), "0");
    assert_eq!(
        quantity_digits(&Quantity::max_value()),
        "115792089237316195423570985008687907853269984665640564039457584007913129639935"
    );
}

#[test]
fn bar_width_uses_the_fallback_when_the_product_overflows() {
    // 100 × qty does not fit 128 bits: computed as qty / (max / 100)
    let qty = u128::MAX / 10;
    assert_eq!(bar_width_percent(qty, u128::MAX), 10);
}

#[test]
fn mode_is_shown_with_its_principals() {
    assert_eq!(format_mode(&Mode::GeneralAvailability), "GeneralAvailability");
    assert_eq!(format_mode(&Mode::RestrictedTo(vec![])), "RestrictedTo: (none)");
    assert_eq!(
        format_mode(&Mode::RestrictedTo(vec![Principal::from_slice(&[])])),
        "RestrictedTo: aaaaa-aa"
    );
    assert_eq!(
        format_mode(&Mode::RestrictedTo(vec![Principal::from_slice(&[]), Principal::anonymous()])),
        "RestrictedTo: aaaaa-aa, 2vxsx-fae"
    );
}
