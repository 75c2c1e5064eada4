use std::cmp::Ordering;
use surgeist_css::exact::LexicalDecimal;
use surgeist_css::rational::{ExactFactor, ExactRational};
use surgeist_css::serialization::{
    CssSpecifiedValueSerializationErrorKind as ErrorKind,
    CssSpecifiedValueSerializationLimits as Limits, SpecifiedSerializationContext,
};

fn exact(text: &str, factor: ExactFactor) -> String {
    let mut context = SpecifiedSerializationContext::new(Limits::default());
    let value = ExactRational::from_lexical_factor(text, factor, &mut context).unwrap();
    value.format_exact(1_048_576, &mut context).unwrap()
}

fn rounded(text: &str, places: usize) -> String {
    let mut context = SpecifiedSerializationContext::new(Limits::default());
    let value = ExactRational::from_lexical_factor(
        text,
        ExactFactor {
            numerator: 1,
            denominator: 1,
        },
        &mut context,
    )
    .unwrap();
    value
        .format_rounded(places, 1_048_576, &mut context)
        .unwrap()
}

#[test]
fn fixed_decimal_rounding_uses_nearest_with_ties_toward_positive_infinity() {
    for (input, expected) in [
        ("0.12345649", "0.123456"),
        ("0.1234565", "0.123457"),
        ("-0.1234565", "-0.123456"),
        ("-0.12345651", "-0.123457"),
        ("-0.0000005", "0"),
        ("0.9999996", "1"),
    ] {
        assert_eq!(rounded(input, 6), expected, "{input}");
    }
    assert_eq!(rounded("-0.5", 0), "0");
    assert_eq!(rounded("0.5", 0), "1");
    assert_eq!(
        rounded("1e-170141183460469231731687303715884105727", 6),
        "0"
    );
    let mut context = SpecifiedSerializationContext::new(Limits::default());
    let huge = ExactRational::from_lexical_factor(
        "1e170141183460469231731687303715884105727",
        ExactFactor {
            numerator: 1,
            denominator: 1,
        },
        &mut context,
    )
    .unwrap();
    assert_eq!(
        huge.format_rounded(6, 100, &mut context)
            .unwrap_err()
            .kind(),
        ErrorKind::ByteLimit
    );
    assert_eq!(
        ExactRational::from_lexical_factor(
            "40",
            ExactFactor {
                numerator: 1,
                denominator: 3,
            },
            &mut SpecifiedSerializationContext::new(Limits::default()),
        )
        .and_then(|value| {
            value.format_rounded(
                6,
                100,
                &mut SpecifiedSerializationContext::new(Limits::default()),
            )
        })
        .unwrap(),
        "13.333333"
    );
}

#[test]
fn selected_radian_factor_is_exact_before_formatting_or_modulo() {
    let factor = ExactFactor {
        numerator: 1_007_958_012_753_983,
        denominator: 17_592_186_044_416,
    };
    assert_eq!(
        exact("1", factor),
        "57.29577951308232286464772187173366546630859375"
    );
    assert_eq!(
        exact("0.5", factor),
        "28.647889756541161432323860935866832733154296875"
    );
    assert_eq!(exact("17592186044416", factor), "1007958012753983");

    let huge = "17592186044416e999999999999999999999999999999999999";
    for (input, expected) in [(huge.to_owned(), "320"), (format!("-{huge}"), "40")] {
        let mut context = SpecifiedSerializationContext::new(Limits::default());
        let value =
            ExactRational::from_lexical_factor_modulo(&input, factor, 360, &mut context).unwrap();
        assert_eq!(value.format_exact(100, &mut context).unwrap(), expected);
    }
    let mut context = SpecifiedSerializationContext::new(Limits::default());
    assert_eq!(
        ExactRational::from_lexical_factor_modulo(
            "1e-999999999999999999999999999999999999999999999999",
            factor,
            360,
            &mut context,
        )
        .unwrap_err()
        .kind(),
        ErrorKind::ByteLimit
    );
    let mut context = SpecifiedSerializationContext::new(Limits::default());
    assert_eq!(
        ExactRational::from_lexical_factor_modulo(
            "1e-170141183460469231731687303715884105727",
            factor,
            360,
            &mut context,
        )
        .unwrap_err()
        .kind(),
        ErrorKind::ByteLimit
    );
}

#[test]
fn fractional_hues_reduce_modulo_without_a_magnitude_capacity_error() {
    let factor = ExactFactor {
        numerator: 1,
        denominator: 1,
    };
    for (input, expected) in [
        ("0.1", "0.1"),
        ("-0.1", "359.9"),
        ("360.1", "0.1"),
        ("-360.1", "359.9"),
    ] {
        let mut context = SpecifiedSerializationContext::new(Limits::default());
        let value =
            ExactRational::from_lexical_factor_modulo(input, factor, 360, &mut context).unwrap();
        assert_eq!(value.format_exact(100, &mut context).unwrap(), expected);
    }
}

#[test]
fn exact_coefficient_limbs_consume_the_cumulative_projection_budget() {
    let factor = ExactFactor {
        numerator: 1,
        denominator: 1,
    };
    let mut short = SpecifiedSerializationContext::new(Limits::new(0, 5, 100));
    assert_eq!(
        ExactRational::from_lexical_factor("1234567890123456789", factor, &mut short)
            .unwrap_err()
            .kind(),
        ErrorKind::ProjectionNodeLimit
    );
    let mut exact_context = SpecifiedSerializationContext::new(Limits::new(0, 6, 100));
    assert_eq!(
        ExactRational::from_lexical_factor("1234567890123456789", factor, &mut exact_context)
            .unwrap()
            .format_exact(100, &mut exact_context)
            .unwrap(),
        "1234567890123456789"
    );

    let mut context = SpecifiedSerializationContext::new(Limits::new(0, 2, 100));
    let value = ExactRational::from_lexical_factor("1", factor, &mut context).unwrap();
    assert_eq!(
        value.clone_with_budget(&mut context).unwrap_err().kind(),
        ErrorKind::ProjectionNodeLimit
    );
    let mut context = SpecifiedSerializationContext::new(Limits::new(0, 3, 100));
    let value = ExactRational::from_lexical_factor("1", factor, &mut context).unwrap();
    assert_eq!(
        value
            .clone_with_budget(&mut context)
            .unwrap()
            .format_exact(100, &mut context)
            .unwrap(),
        "1"
    );
}

#[test]
fn clamped_alpha_handles_exponents_beyond_i128_without_binary_narrowing() {
    let factor = ExactFactor {
        numerator: 1,
        denominator: 1,
    };
    let huge = "999999999999999999999999999999999999999999999999";
    for (input, expected, equal_zero, equal_one) in [
        (format!("1e{huge}"), "1", false, true),
        (format!("-1e{huge}"), "0", true, false),
        (format!("1e-{huge}"), "0", false, false),
        (format!("-1e-{huge}"), "0", true, false),
        ("1e1000000".to_owned(), "1", false, true),
        ("1e-1000000".to_owned(), "0", false, false),
    ] {
        let mut context = SpecifiedSerializationContext::new(Limits::default());
        let value =
            ExactRational::from_lexical_factor_clamped_unit(&input, factor, &mut context).unwrap();
        assert_eq!(value.equals_ratio(0, 1, &mut context).unwrap(), equal_zero);
        assert_eq!(value.equals_ratio(1, 1, &mut context).unwrap(), equal_one);
        assert_eq!(
            value.format_rounded(6, 100, &mut context).unwrap(),
            expected
        );
    }
}

#[test]
fn exact_weight_arithmetic_precedes_generated_share_rounding() {
    let factor = ExactFactor {
        numerator: 1,
        denominator: 1,
    };
    let mut context = SpecifiedSerializationContext::new(Limits::default());
    let sixty = ExactRational::from_lexical_factor("60", factor, &mut context).unwrap();
    let remainder = sixty
        .min_integer(100, &mut context)
        .unwrap()
        .subtract_from_integer(100, &mut context)
        .unwrap()
        .divide_by(3)
        .unwrap();
    assert_eq!(
        remainder
            .clone_with_budget(&mut context)
            .unwrap()
            .format_rounded(6, 100, &mut context)
            .unwrap(),
        "13.333333"
    );
    assert!(remainder.equals_ratio(40, 3, &mut context).unwrap());

    let seventy = ExactRational::from_lexical_factor("70", factor, &mut context).unwrap();
    let sum = seventy
        .add_nonnegative(&seventy, &mut context)
        .unwrap()
        .min_integer(100, &mut context)
        .unwrap();
    let remainder = sum
        .subtract_from_integer(100, &mut context)
        .unwrap()
        .divide_by(1)
        .unwrap();
    assert!(remainder.is_zero());
}

#[test]
fn exact_alpha_clamp_and_unity_test_precede_six_place_rounding() {
    let factor = ExactFactor {
        numerator: 1,
        denominator: 1,
    };
    for (input, expected) in [("-0.1", "0"), ("1.1", "1")] {
        let mut context = SpecifiedSerializationContext::new(Limits::default());
        let value = ExactRational::from_lexical_factor(input, factor, &mut context)
            .unwrap()
            .clamp_unit(&mut context)
            .unwrap();
        assert_eq!(
            value.format_rounded(6, 100, &mut context).unwrap(),
            expected
        );
    }
    let mut context = SpecifiedSerializationContext::new(Limits::default());
    let value = ExactRational::from_lexical_factor("0.9999996", factor, &mut context)
        .unwrap()
        .clamp_unit(&mut context)
        .unwrap();
    assert!(!value.equals_ratio(1, 1, &mut context).unwrap());
    assert_eq!(value.format_rounded(6, 100, &mut context).unwrap(), "1");
}

fn exact_legacy_value(text: &str) -> Option<f32> {
    let candidate = text.parse::<f32>().ok().map(f32::to_bits);
    surgeist_css::binary::exact_legacy_bits(text, candidate).map(f32::from_bits)
}

#[test]
fn equality_uses_exact_decimal_value_instead_of_rounded_candidate() {
    for (text, expected) in [
        (".5", 0.5),
        ("-1.50", -1.5),
        ("150", 150.0),
        ("000.50000e+0", 0.5),
    ] {
        assert_eq!(exact_legacy_value(text), Some(expected));
    }
    for text in [".1", "1e100", "-1e100", "1e-47", "-1e-47", "16777217"] {
        assert_eq!(exact_legacy_value(text), None, "{text}");
    }
    assert_eq!(
        exact_legacy_value("0.100000001490116119384765625"),
        Some(0.1)
    );
    assert_eq!(
        exact_legacy_value("340282346638528859811704183484516925440"),
        Some(f32::MAX)
    );
    assert_eq!(
        exact_legacy_value(
            "0.00000000000000000000000000000000000000000000140129846432481707092372958328991613128026194187651577175706828388979108268586060148663818836212158203125"
        ),
        Some(f32::from_bits(1))
    );
}

#[test]
fn programmatic_binary32_uses_its_exact_owned_value_before_scaling() {
    let mut context = SpecifiedSerializationContext::new(Limits::default());
    let value = ExactRational::from_binary32_factor(
        0.1f32.to_bits(),
        ExactFactor {
            numerator: 1,
            denominator: 1,
        },
        &mut context,
    )
    .unwrap();
    assert_eq!(
        value.format_exact(100, &mut context).unwrap(),
        "0.100000001490116119384765625"
    );

    let mut context = SpecifiedSerializationContext::new(Limits::default());
    let value = ExactRational::from_binary32_factor(
        1,
        ExactFactor {
            numerator: 255,
            denominator: 100,
        },
        &mut context,
    )
    .unwrap();
    assert_eq!(value.format_rounded(6, 100, &mut context).unwrap(), "0");
}

#[test]
fn exact_format_cancels_a_shared_non_decimal_denominator_factor_first() {
    let mut context = SpecifiedSerializationContext::new(Limits::default());
    let value = ExactRational::from_lexical_factor(
        "255",
        ExactFactor {
            numerator: 1,
            denominator: 255,
        },
        &mut context,
    )
    .unwrap();
    assert_eq!(value.format_exact(100, &mut context).unwrap(), "1");

    let mut context = SpecifiedSerializationContext::new(Limits::default());
    let value = ExactRational::from_binary32_factor(
        510.0f32.to_bits(),
        ExactFactor {
            numerator: 1,
            denominator: 255,
        },
        &mut context,
    )
    .unwrap();
    assert_eq!(value.format_exact(100, &mut context).unwrap(), "2");
}

#[test]
fn binary32_factor_refuses_non_finite_values_and_zero_denominators() {
    let mut context = SpecifiedSerializationContext::new(Limits::default());
    let one = ExactFactor {
        numerator: 1,
        denominator: 1,
    };
    for bits in [f32::INFINITY.to_bits(), f32::NAN.to_bits()] {
        let error = ExactRational::from_binary32_factor(bits, one, &mut context).unwrap_err();
        assert_eq!(error.kind(), ErrorKind::CapacityOverflow);
    }
    let error = ExactRational::from_binary32_factor(
        1.0f32.to_bits(),
        ExactFactor {
            numerator: 1,
            denominator: 0,
        },
        &mut context,
    )
    .unwrap_err();
    assert_eq!(error.kind(), ErrorKind::CapacityOverflow);
    let value = ExactRational::from_binary32_factor((-0.5f32).to_bits(), one, &mut context).unwrap();
    assert_eq!(value.format_exact(100, &mut context).unwrap(), "-0.5");
}

#[test]
fn huge_positive_exponents_reduce_modulo_without_expanding_the_power() {
    let mut context = SpecifiedSerializationContext::new(Limits::default());
    let one = ExactFactor {
        numerator: 1,
        denominator: 1,
    };
    // 10^(10^40) is 4 modulo 7: 10^k mod 7 cycles with period 6, and 10^40 mod 6 is 4.
    let value = ExactRational::from_lexical_factor_modulo(
        "1e10000000000000000000000000000000000000000",
        one,
        7,
        &mut context,
    )
    .unwrap();
    assert_eq!(value.format_exact(100, &mut context).unwrap(), "4");
    // A negative huge exponent cannot be represented.
    let error = ExactRational::from_lexical_factor_modulo(
        "1e-10000000000000000000000000000000000000000",
        one,
        7,
        &mut context,
    )
    .unwrap_err();
    assert_eq!(error.kind(), ErrorKind::ByteLimit);
}

fn value_of(text: &str, numerator: u64, denominator: u64) -> ExactRational {
    let mut context = SpecifiedSerializationContext::new(Limits::default());
    ExactRational::from_lexical_factor(
        text,
        ExactFactor {
            numerator,
            denominator,
        },
        &mut context,
    )
    .unwrap()
}

#[test]
fn positive_ratios_round_half_up_and_cap_at_the_scale() {
    let mut context = SpecifiedSerializationContext::new(Limits::default());
    let ratio = |a: &str, b: &str, unit: u64, places: u32, context: &mut SpecifiedSerializationContext| {
        value_of(a, 1, 1).rounded_positive_ratio(&value_of(b, 1, 1), unit, places, context)
    };
    assert_eq!(ratio("1", "3", 100, 2, &mut context).unwrap(), 3333);
    assert_eq!(ratio("2", "3", 100, 2, &mut context).unwrap(), 6667);
    assert_eq!(ratio("1", "8", 1, 2, &mut context).unwrap(), 13);
    assert_eq!(ratio("0.1", "8e-1", 1, 2, &mut context).unwrap(), 13);
    assert_eq!(ratio("3", "2", 100, 2, &mut context).unwrap(), 10000);
    assert_eq!(ratio("1", "1", 255, 0, &mut context).unwrap(), 255);
    assert_eq!(ratio("0", "5", 255, 0, &mut context).unwrap(), 0);
    assert_eq!(ratio("1e3", "4e3", 255, 0, &mut context).unwrap(), 64);
    assert_eq!(
        ratio("1", "3", 100, 20, &mut context).unwrap_err().kind(),
        ErrorKind::CapacityOverflow
    );
}

#[test]
fn terminating_values_format_exactly_and_others_round() {
    let format = |text: &str, numerator: u64, denominator: u64| {
        let mut context = SpecifiedSerializationContext::new(Limits::default());
        value_of(text, numerator, denominator)
            .format_exact_or_rounded(6, 100, &mut context)
            .unwrap()
    };
    assert_eq!(format("1", 1, 4), "0.25");
    assert_eq!(format("1", 1, 3), "0.333333");
    assert_eq!(format("2", 2, 3), "1.333333");
    assert_eq!(format("255", 1, 255), "1");
    assert_eq!(format("-1", 1, 6), "-0.166667");
    assert_eq!(format("0.0000001", 1, 1), "0.0000001");
}

#[test]
fn percentage_range_is_zero_through_one_hundred() {
    let inside = |text: &str| LexicalDecimal::new(text.as_bytes()).in_percentage_range();
    for text in [
        "0", "-0", "100", "100.0", "1e2", "1000e-1", "99.999", "0.5", "10e1", "000100",
        "1e-99999999999999999999999999999999999999999999",
    ] {
        assert!(inside(text), "{text}");
    }
    for text in [
        "100.5", "-1", "101", "100.0000001", "1e3", "-0.5",
        "1e99999999999999999999999999999999999999999",
    ] {
        assert!(!inside(text), "{text}");
    }
}

#[test]
fn redundant_digits_and_large_exponents_do_not_require_large_numeric_storage() {
    assert_eq!(
        exact_legacy_value("-0e9999999999999999999999999999999999999999999"),
        Some(0.0)
    );
    assert_eq!(
        exact_legacy_value("1e9999999999999999999999999999999999999999999"),
        None
    );
    assert_eq!(
        exact_legacy_value(&format!("0.5{}", "0".repeat(4096))),
        Some(0.5)
    );
    assert_eq!(
        exact_legacy_value(&format!("1{}e-4096", "0".repeat(4096))),
        Some(1.0)
    );
}

#[test]
fn exact_order_is_antisymmetric_and_ignores_the_sign_of_zero() {
    let one = ExactFactor {
        numerator: 1,
        denominator: 1,
    };
    let mut context = SpecifiedSerializationContext::new(Limits::default());
    let zero = ExactRational::from_lexical_factor("0", one, &mut context).unwrap();
    let negative_zero =
        ExactRational::from_binary32_factor((-0.0f32).to_bits(), one, &mut context).unwrap();
    assert_eq!(zero.compare(&negative_zero, &mut context).unwrap(), Ordering::Equal);
    assert_eq!(negative_zero.compare(&zero, &mut context).unwrap(), Ordering::Equal);
    let a = ExactRational::from_lexical_factor("1.5", one, &mut context).unwrap();
    let b = ExactRational::from_lexical_factor("2", one, &mut context).unwrap();
    assert_eq!(a.compare(&a, &mut context).unwrap(), Ordering::Equal);
    assert_eq!(a.compare(&b, &mut context).unwrap(), Ordering::Less);
    assert_eq!(b.compare(&a, &mut context).unwrap(), Ordering::Greater);
}

#[test]
fn modulo_reduction_succeeds_exactly_when_the_budget_and_denominator_allow() {
    let one = ExactFactor {
        numerator: 1,
        denominator: 1,
    };
    let mut context = SpecifiedSerializationContext::new(Limits::new(1, 2, 100));
    let value = ExactRational::from_lexical_factor_modulo("725", one, 360, &mut context).unwrap();
    let mut output = SpecifiedSerializationContext::new(Limits::default());
    assert_eq!(value.format_exact(100, &mut output).unwrap(), "5");
    let mut starved = SpecifiedSerializationContext::new(Limits::new(1, 1, 100));
    let error =
        ExactRational::from_lexical_factor_modulo("725", one, 360, &mut starved).unwrap_err();
    assert_eq!(error.kind(), ErrorKind::ProjectionNodeLimit);
    let third = ExactFactor {
        numerator: 1,
        denominator: 3,
    };
    let mut context = SpecifiedSerializationContext::new(Limits::default());
    let error = ExactRational::from_lexical_factor_modulo("1", third, u64::MAX, &mut context)
        .unwrap_err();
    assert_eq!(error.kind(), ErrorKind::CapacityOverflow);
    let value =
        ExactRational::from_lexical_factor_modulo("1e99999999999999999999999999999999999999999", one, 360, &mut context)
            .unwrap();
    assert_eq!(value.format_exact(100, &mut context).unwrap(), "280");
}
