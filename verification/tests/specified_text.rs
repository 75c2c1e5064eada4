use surgeist_css::components::{CssComponentValue, CssComponentValueErrorKind, CssValueOrigin};
use surgeist_css::calculation::CssNumericTokenKind;
use surgeist_css::opacity::{serialize_opacity_scalar, CssOpacityScalar, CssOpacityScalarForm, CssOpacityScalarKind};
use surgeist_css::serialization::{
    CssSpecifiedValueSerializationErrorKind as ErrorKind,
    CssSpecifiedValueSerializationLimits as Limits,
};
use surgeist_css::specified::{format_lexical, serialize_keyword_sequence};

#[test]
fn lexical_decimals_are_written_in_fixed_notation_without_rounding() {
    assert_eq!(format_lexical("1.50e2", false, 100).unwrap(), "150");
    assert_eq!(format_lexical("-0.0012500", false, 100).unwrap(), "-0.00125");
    assert_eq!(format_lexical("50", true, 100).unwrap(), "0.5");
    assert_eq!(format_lexical("+12.5E-3", true, 100).unwrap(), "0.000125");
    assert_eq!(format_lexical("-0.000e9", false, 100).unwrap(), "0");
    assert_eq!(format_lexical("0", false, 0).unwrap_err().kind(), ErrorKind::ByteLimit);
    assert_eq!(format_lexical("1e400", false, 100).unwrap_err().kind(), ErrorKind::ByteLimit);
    assert_eq!(format_lexical("1e400", false, 401).unwrap().len(), 401);
    assert_eq!(
        format_lexical("1e99999999999999999999999999999999999999999", false, usize::MAX).unwrap_err().kind(),
        ErrorKind::ByteLimit
    );
}

#[test]
fn keyword_sequences_are_checked_against_each_limit_in_order() {
    assert_eq!(serialize_keyword_sequence("auto", Limits::default()).unwrap(), "auto");
    assert_eq!(serialize_keyword_sequence("auto", Limits::new(0, 0, 0)).unwrap_err().kind(), ErrorKind::InputNodeLimit);
    assert_eq!(serialize_keyword_sequence("auto", Limits::new(1, 0, 0)).unwrap_err().kind(), ErrorKind::ProjectionNodeLimit);
    assert_eq!(serialize_keyword_sequence("auto", Limits::new(1, 1, 3)).unwrap_err().kind(), ErrorKind::ByteLimit);
    assert_eq!(serialize_keyword_sequence("auto", Limits::new(1, 1, 4)).unwrap(), "auto");
}

#[test]
fn opacity_scalars_keep_their_authored_token() {
    let origin = CssValueOrigin::Parsed { start: 3, end: 7 };
    let scalar = CssOpacityScalar::try_from_component(CssComponentValue::Percentage {
        representation: "1e40".to_string(),
        origin,
    })
    .unwrap();
    assert_eq!(scalar.kind(), CssOpacityScalarKind::Percentage);
    assert_eq!(scalar.numeric().representation(), "1e40");
    assert_eq!(scalar.numeric().kind(), CssNumericTokenKind::Number);
    assert_eq!(scalar.origin(), &origin);
    let integer = CssOpacityScalar::try_from_component(CssComponentValue::Number {
        representation: "-3".to_string(),
        origin: CssValueOrigin::Programmatic,
    })
    .unwrap();
    assert_eq!(integer.kind(), CssOpacityScalarKind::Number);
    assert_eq!(integer.numeric().kind(), CssNumericTokenKind::Integer);
    assert!(matches!(integer.component(), CssComponentValue::Number { .. }));
    let error = CssOpacityScalar::try_from_component(CssComponentValue::Dimension {
        representation: "1".to_string(),
        unit: "px".to_string(),
        origin,
    })
    .unwrap_err();
    assert_eq!(error.kind(), CssComponentValueErrorKind::InvalidToken);
    assert_eq!(error.origin(), &origin);
}

#[test]
fn ordinary_opacity_scalars_serialize_exactly_under_the_limits() {
    let half = CssOpacityScalarForm::Binary32 {
        bits: 0.5f32.to_bits(),
        percentage: false,
    };
    assert_eq!(serialize_opacity_scalar(half, Limits::new(1, 1, 100)).unwrap(), "0.5");
    assert_eq!(serialize_opacity_scalar(half, Limits::new(0, 1, 100)).unwrap_err().kind(), ErrorKind::InputNodeLimit);
    assert_eq!(serialize_opacity_scalar(half, Limits::new(1, 0, 100)).unwrap_err().kind(), ErrorKind::ProjectionNodeLimit);
    assert_eq!(serialize_opacity_scalar(half, Limits::new(1, 1, 2)).unwrap_err().kind(), ErrorKind::ByteLimit);
    let tenth = CssOpacityScalarForm::Binary32 {
        bits: 0.1f32.to_bits(),
        percentage: false,
    };
    assert_eq!(
        serialize_opacity_scalar(tenth, Limits::new(1, 1, 100)).unwrap(),
        "0.100000001490116119384765625"
    );
    let fifty = CssOpacityScalarForm::Binary32 {
        bits: 50.0f32.to_bits(),
        percentage: true,
    };
    assert_eq!(serialize_opacity_scalar(fifty, Limits::new(1, 1, 100)).unwrap(), "0.5");
    let scalar = CssOpacityScalar::try_from_component(CssComponentValue::Percentage {
        representation: "1e40".to_string(),
        origin: CssValueOrigin::Programmatic,
    })
    .unwrap();
    let exact = CssOpacityScalarForm::Exact(&scalar);
    assert_eq!(
        serialize_opacity_scalar(exact, Limits::new(1, 1, 100)).unwrap(),
        format!("1{}", "0".repeat(38))
    );
    let malformed = CssOpacityScalar::try_from_component(CssComponentValue::Number {
        representation: "x1".to_string(),
        origin: CssValueOrigin::Programmatic,
    })
    .unwrap();
    assert_eq!(
        serialize_opacity_scalar(CssOpacityScalarForm::Exact(&malformed), Limits::new(1, 1, 100))
            .unwrap_err()
            .kind(),
        ErrorKind::CapacityOverflow
    );
}
