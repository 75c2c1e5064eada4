use surgeist_css::binary::{binary32_scaled_eq, binary64_equals_decimal, serialize_binary32};
use surgeist_css::exact::{decimal_digits_add_small, decimal_digits_sub_small};
use surgeist_css::serialization::CssSpecifiedValueSerializationErrorKind as ErrorKind;

#[test]
fn decimal_midpoint_comparison_uses_exact_binary_value() {
    assert!(binary64_equals_decimal(0.125f64.to_bits(), 125, -3));
    assert!(binary64_equals_decimal(1.5f64.to_bits(), 150, -2));
    assert!(binary64_equals_decimal(
        9007199254740992.0f64.to_bits(),
        9007199254740992,
        0
    ));
    assert!(!binary64_equals_decimal(0.1f64.to_bits(), 1, -1));
    assert!(!binary64_equals_decimal(1, 5, -324));
}

#[test]
fn binary64_comparison_ignores_the_sign_and_rejects_zero_coefficients() {
    assert!(binary64_equals_decimal((-0.125f64).to_bits(), 125, -3));
    assert!(!binary64_equals_decimal(0.0f64.to_bits(), 0, 0));
    assert!(!binary64_equals_decimal(0.0f64.to_bits(), 1, 0));
    assert!(binary64_equals_decimal(1e20f64.to_bits(), 1, 20));
}

#[test]
fn binary32_text_is_the_exact_decimal_in_fixed_notation() {
    for (value, percentage, expected) in [
        (0.5f32, false, "0.5"),
        (0.1, false, "0.100000001490116119384765625"),
        (-2.5, false, "-2.5"),
        (-0.0, false, "0"),
        (0.0, true, "0"),
        (50.0, true, "0.5"),
        (1e10, false, "10000000000"),
        (150.0, true, "1.5"),
    ] {
        assert_eq!(
            serialize_binary32(value.to_bits(), percentage, 1000).unwrap(),
            expected,
            "{value}"
        );
    }
    assert_eq!(
        serialize_binary32(f32::MAX.to_bits(), false, 1000).unwrap(),
        "340282346638528859811704183484516925440"
    );
    assert_eq!(
        serialize_binary32(0.1f32.to_bits(), false, 5).unwrap_err().kind(),
        ErrorKind::ByteLimit
    );
    assert_eq!(serialize_binary32(0.5f32.to_bits(), false, 3).unwrap(), "0.5");
}

#[test]
fn scaled_binary32_equality_is_exact() {
    let bits = |value: f32| value.to_bits();
    assert!(binary32_scaled_eq(bits(0.5), 2, 1, bits(1.0)));
    assert!(binary32_scaled_eq(bits(1.5), 2, 3, bits(1.0)));
    assert!(binary32_scaled_eq(bits(-1.5), 2, 3, bits(-1.0)));
    assert!(!binary32_scaled_eq(bits(-1.5), 2, 3, bits(1.0)));
    assert!(!binary32_scaled_eq(bits(0.1), 3, 1, bits(0.3)));
    assert!(binary32_scaled_eq(bits(0.0), 7, 1, bits(-0.0)));
    assert!(binary32_scaled_eq(bits(5.0), 0, 1, bits(0.0)));
    assert!(!binary32_scaled_eq(bits(1.0), 1, 0, bits(1.0)));
    assert!(!binary32_scaled_eq(bits(f32::INFINITY), 1, 1, bits(f32::INFINITY)));
    assert!(!binary32_scaled_eq(bits(f32::NAN), 1, 1, bits(f32::NAN)));
}

#[test]
fn small_decimal_digit_arithmetic_keeps_the_value() {
    let mut digits = vec![9, 9, 9];
    decimal_digits_add_small(&mut digits, 2).unwrap();
    assert_eq!(digits, vec![1, 0, 0, 1]);
    decimal_digits_sub_small(&mut digits, 1000).unwrap();
    assert_eq!(digits, vec![1]);
    decimal_digits_sub_small(&mut digits, 1).unwrap();
    assert_eq!(digits, vec![0]);
    let error = decimal_digits_sub_small(&mut digits, 1).unwrap_err();
    assert_eq!(error.kind(), ErrorKind::CapacityOverflow);
    let mut digits = vec![1, 2, 3];
    decimal_digits_sub_small(&mut digits, 120).unwrap();
    assert_eq!(digits, vec![3]);
}
