use surgeist_css::numeric_type::{CssCalculationType, CssNumericDimension, CssNumericType};

#[test]
fn a_quotient_by_the_same_operand_undoes_a_product() {
    let length = CssNumericType::dimension(CssNumericDimension::Length);
    let time = CssNumericType::dimension(CssNumericDimension::Time);
    let product = length.product(time, false).unwrap();
    assert_eq!(product.exponent(CssNumericDimension::Length), 1);
    assert_eq!(product.exponent(CssNumericDimension::Time), 1);
    assert_eq!(product.product(time, true), Some(length));
    let speed = length.product(time, true).unwrap();
    assert_eq!(speed.exponent(CssNumericDimension::Time), -1);
    assert_eq!(speed.product(time, false), Some(length));
}

#[test]
fn adding_a_plain_type_to_itself_keeps_it() {
    for dimension in [
        CssNumericDimension::Length,
        CssNumericDimension::Angle,
        CssNumericDimension::Percentage,
    ] {
        let t = CssNumericType::dimension(dimension);
        assert_eq!(t.add(t), Some(t));
    }
    let number = CssNumericType::number();
    assert_eq!(number.add(number), Some(number));
    assert_eq!(number.add(CssNumericType::dimension(CssNumericDimension::Length)), None);
}

#[test]
fn percentages_resolve_into_the_other_operands_basis() {
    let length = CssNumericType::dimension(CssNumericDimension::Length);
    let percentage = CssNumericType::dimension(CssNumericDimension::Percentage);
    let mixed = length.add(percentage).unwrap();
    assert_eq!(mixed.percent_hint(), Some(CssNumericDimension::Length));
    assert_eq!(mixed.exponent(CssNumericDimension::Percentage), 0);
    assert_eq!(CssCalculationType::from_numeric(mixed), CssCalculationType::LengthPercentage);
    let angle = CssNumericType::dimension(CssNumericDimension::Angle);
    assert_eq!(mixed.add(angle), None);
}

#[test]
fn classifications_stand_for_their_types() {
    for class in [
        CssCalculationType::Number,
        CssCalculationType::Length,
        CssCalculationType::Percentage,
        CssCalculationType::LengthPercentage,
        CssCalculationType::Flex,
    ] {
        assert_eq!(CssCalculationType::from_numeric(class.numeric()), class);
    }
    let angle_percentage = CssCalculationType::AnglePercentage;
    assert_eq!(angle_percentage.exponent(CssNumericDimension::Angle), 1);
    assert_eq!(angle_percentage.percent_hint(), Some(CssNumericDimension::Angle));
    assert!(CssNumericType::dimension(CssNumericDimension::Length).simple());
    let area = CssNumericType::dimension(CssNumericDimension::Length)
        .product(CssNumericType::dimension(CssNumericDimension::Length), false)
        .unwrap();
    assert!(!area.simple());
}

#[test]
fn addition_is_commutative_and_idempotent() {
    let length = CssNumericType::dimension(CssNumericDimension::Length);
    let angle = CssNumericType::dimension(CssNumericDimension::Angle);
    let percentage = CssNumericType::dimension(CssNumericDimension::Percentage);
    let number = CssNumericType::number();
    let mixed = length.add(percentage).unwrap();
    let all = [length, angle, percentage, number, mixed];
    for a in all {
        assert_eq!(a.add(a), Some(a));
        for b in all {
            assert_eq!(a.add(b), b.add(a));
        }
    }
    assert_eq!(percentage.add(length), Some(mixed));
    assert_eq!(length.add(angle), None);
}
