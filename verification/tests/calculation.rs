use cssparser::{ParseError, Parser, Token};
use surgeist_css::calculation::{
    admit_input, construct, construct_with_policy, CalculationRoot, NumericInputKind, CssCalculationExpression,
    CssCalculationExpressionRef, CssCalculationProductOperator, CssCalculationSumOperator,
    CssCalculationValueRef, CssIntegerCalculation, CssLengthPercentageCalculation, CssMathFunction,
    CssNumericConstant, CssNumericConstructionErrorKind, CssNumericTokenKind, CssRoundingStrategy,
};
use surgeist_css::components::{
    CssBlockKind, CssComponentValue, CssComponentValueErrorKind, CssComponentValueLimits,
    CssComponentValues, CssValueOrigin,
};
use surgeist_css::numeric_type::CssCalculationType;

fn collect(source: &str, parser: &mut Parser<'_>) -> Result<Vec<CssComponentValue>, ParseError<()>> {
    let mut items = Vec::new();
    loop {
        let start = parser.position().byte_index();
        let token = match parser.next_including_whitespace() {
            Ok(token) => token.clone(),
            Err(_) => break,
        };
        let end = parser.position().byte_index();
        let origin = CssValueOrigin::Parsed { start, end };
        let text = &source[start..end];
        let component = match token {
            Token::Number { .. } => CssComponentValue::Number {
                representation: text.to_string(),
                origin,
            },
            Token::Percentage { .. } => CssComponentValue::Percentage {
                representation: text[..text.len() - 1].to_string(),
                origin,
            },
            Token::Dimension { ref unit, .. } => CssComponentValue::Dimension {
                representation: text[..text.len() - unit.len()].to_string(),
                unit: unit.to_string(),
                origin,
            },
            Token::Ident(ref name) => CssComponentValue::Ident {
                name: name.to_string(),
                origin,
            },
            Token::Delim(value) => CssComponentValue::Delim { value, origin },
            Token::WhiteSpace(_) => CssComponentValue::Whitespace { origin },
            Token::Comma => CssComponentValue::Comma { origin },
            Token::Function(ref name) => {
                let name = name.to_string();
                let values = parser.parse_nested_block(|p| collect(source, p))?;
                let close = parser.position().byte_index();
                let closed = source[..close].ends_with(')');
                CssComponentValue::Function {
                    name,
                    values,
                    origin: CssValueOrigin::Parsed { start, end: close },
                    closing: CssValueOrigin::Parsed {
                        start: if closed { close - 1 } else { close },
                        end: close,
                    },
                    closed,
                }
            }
            Token::ParenthesisBlock | Token::SquareBracketBlock | Token::CurlyBracketBlock => {
                let (kind, closer) = match token {
                    Token::ParenthesisBlock => (CssBlockKind::Parenthesis, ')'),
                    Token::SquareBracketBlock => (CssBlockKind::SquareBracket, ']'),
                    _ => (CssBlockKind::CurlyBracket, '}'),
                };
                let values = parser.parse_nested_block(|p| collect(source, p))?;
                let close = parser.position().byte_index();
                let closed = source[..close].ends_with(closer);
                CssComponentValue::Block {
                    kind,
                    values,
                    origin: CssValueOrigin::Parsed { start, end: close },
                    closing: CssValueOrigin::Parsed {
                        start: if closed { close - 1 } else { close },
                        end: close,
                    },
                    closed,
                }
            }
            _ => CssComponentValue::Ident {
                name: text.to_string(),
                origin,
            },
        };
        items.push(component);
    }
    Ok(items)
}

fn components(source: &str) -> CssComponentValues {
    let mut parser = Parser::new(source);
    CssComponentValues::new(collect(source, &mut parser).unwrap())
}

fn limits(nesting: usize, count: usize, bytes: usize) -> CssComponentValueLimits {
    CssComponentValueLimits::try_new(nesting, count, bytes).unwrap()
}

fn parse(
    source: &str,
    root: CalculationRoot,
) -> Result<CssCalculationExpression, surgeist_css::calculation::CssNumericConstructionError> {
    construct_with_policy(
        components(&format!("calc({source})")),
        root,
        CssComponentValueLimits::default(),
        false,
    )
}

fn body(expression: &CssCalculationExpression) -> CssCalculationExpressionRef<'_> {
    let CssCalculationExpressionRef::NestedCalc(root) = expression.as_ref() else {
        panic!("expected calc root")
    };
    root.operand()
}

#[test]
fn numeric_resource_errors_retain_the_concrete_component_cause() {
    // Limits precede grammar admission, including malformed mathematics.
    for (limits, kind) in [
        (limits(0, 100, 100), CssComponentValueErrorKind::NestingLimit),
        (limits(1, 1, 100), CssComponentValueErrorKind::ComponentLimit),
        (limits(1, 100, 1), CssComponentValueErrorKind::ByteLimit),
    ] {
        let values = components("calc(1+ 2)");
        let error = construct(values, CalculationRoot::Number, limits).unwrap_err();
        assert_eq!(
            error.kind(),
            &CssNumericConstructionErrorKind::ResourceLimit
        );
        assert_eq!(error.component_error().unwrap().kind(), kind);
        assert_eq!(
            error.origin(),
            Some(error.component_error().unwrap().origin())
        );
    }
    let compact = components("calc(1*2)");
    let error = construct(compact, CalculationRoot::Number, limits(1, 10, 9)).unwrap_err();
    assert_eq!(
        error.component_error().unwrap().kind(),
        CssComponentValueErrorKind::ByteLimit
    );
}

#[test]
fn typed_root_parser_preserves_all_compound_node_kinds_and_precedence() {
    let number = parse("1 + 6 / 2", CalculationRoot::Number).unwrap();
    assert_eq!(number.result_type(), CssCalculationType::Number);
    let CssCalculationExpressionRef::Sum(sum) = body(&number) else {
        panic!("expected number sum");
    };
    assert_eq!(sum.len(), 2);
    assert_eq!(sum.term(0).unwrap().operator(), None);
    assert_eq!(
        sum.term(1).unwrap().operator(),
        Some(CssCalculationSumOperator::Add)
    );
    let CssCalculationExpressionRef::Product(quotient) = sum.term(1).unwrap().expression() else {
        panic!("division must bind inside the sum");
    };
    assert_eq!(quotient.len(), 2);
    assert_eq!(quotient.factor(0).unwrap().operator(), None);
    assert_eq!(
        quotient.factor(1).unwrap().operator(),
        Some(CssCalculationProductOperator::Divide)
    );

    let integer = parse("1 + 2 * 3", CalculationRoot::Integer).unwrap();
    assert_eq!(integer.result_type(), CssCalculationType::Number);
    let CssCalculationExpressionRef::Sum(integer_sum) = body(&integer) else {
        panic!("expected integer sum");
    };
    let CssCalculationExpressionRef::Product(integer_product) =
        integer_sum.term(1).unwrap().expression()
    else {
        panic!("expected integer product");
    };
    assert_eq!(
        integer_product.factor(1).unwrap().operator(),
        Some(CssCalculationProductOperator::Multiply)
    );
    assert!(integer_product.factor(integer_product.len()).is_none());

    let percentage = parse("10% - 20%", CalculationRoot::Percentage).unwrap();
    assert_eq!(percentage.result_type(), CssCalculationType::Percentage);
    let CssCalculationExpressionRef::Sum(percentage_sum) = body(&percentage) else {
        panic!("expected percentage sum");
    };
    assert_eq!(
        percentage_sum.term(1).unwrap().operator(),
        Some(CssCalculationSumOperator::Subtract)
    );
    assert!(percentage_sum.term(percentage_sum.len()).is_none());

    let length = parse("1px + (2em * 3)", CalculationRoot::Length).unwrap();
    let CssCalculationExpressionRef::Sum(sum) = body(&length) else {
        panic!("expected length sum");
    };
    let CssCalculationExpressionRef::Group(group) = sum.term(1).unwrap().expression() else {
        panic!("expected retained authored group");
    };
    assert!(matches!(
        group.operand(),
        CssCalculationExpressionRef::Product(_)
    ));

    let angle = parse("1deg + calc(2turn)", CalculationRoot::Angle).unwrap();
    assert_eq!(angle.result_type(), CssCalculationType::Angle);
    let CssCalculationExpressionRef::Sum(sum) = body(&angle) else {
        panic!("expected angle sum");
    };
    let CssCalculationExpressionRef::NestedCalc(nested) = sum.term(1).unwrap().expression() else {
        panic!("expected retained nested calc");
    };
    assert!(matches!(
        nested.operand(),
        CssCalculationExpressionRef::Value(CssCalculationValueRef::Angle(value))
            if value.representation() == "2" && value.unit() == Some("turn")
    ));

    let time = parse("1s + (-2ms)", CalculationRoot::Time).unwrap();
    assert_eq!(time.result_type(), CssCalculationType::Time);
    let CssCalculationExpressionRef::Sum(sum) = body(&time) else {
        panic!("expected time sum")
    };
    let CssCalculationExpressionRef::Group(group) = sum.term(1).unwrap().expression() else {
        panic!("expected group")
    };
    assert!(
        matches!(group.operand(), CssCalculationExpressionRef::Value(CssCalculationValueRef::Time(v)) if v.representation() == "-2" && v.unit() == Some("ms"))
    );
    assert!(parse("1s + -(2ms)", CalculationRoot::Time).is_err());

    let frequency = parse("1khz / 2", CalculationRoot::Frequency).unwrap();
    assert_eq!(frequency.result_type(), CssCalculationType::Frequency);
    assert!(matches!(
        body(&frequency),
        CssCalculationExpressionRef::Product(_)
    ));
}

#[test]
fn typed_root_parser_promotes_only_the_selected_percentage_context() {
    let mixed = parse("1px + 2%", CalculationRoot::LengthPercentage).unwrap();
    assert_eq!(mixed.result_type(), CssCalculationType::LengthPercentage);
    for (root, unit) in [
        (CalculationRoot::Length, "px"),
        (CalculationRoot::Angle, "deg"),
        (CalculationRoot::Time, "s"),
        (CalculationRoot::Frequency, "hz"),
    ] {
        assert!(parse(&format!("1{unit} + 2%"), root).is_err());
    }
}

#[test]
fn typed_root_parser_rejects_invalid_types_and_grammar_but_defers_arithmetic() {
    for (source, root) in [
        ("1px + 2deg", CalculationRoot::Length),
        ("1px * 2em", CalculationRoot::Length),
        ("1px / 2em", CalculationRoot::Length),
        ("1px +", CalculationRoot::Length),
        ("1px red", CalculationRoot::Length),
        ("1px", CalculationRoot::Number),
    ] {
        assert!(parse(source, root).is_err(), "{source}");
    }
    for source in ["1px / 0", "1px / -0", "1px / calc(1 - 1)", "1e999px"] {
        assert_eq!(
            parse(source, CalculationRoot::Length)
                .unwrap()
                .result_type(),
            CssCalculationType::Length
        );
    }
    for source in ["3.4e38 * 2", "1e999", "2147483648"] {
        assert_eq!(
            parse(source, CalculationRoot::Integer)
                .unwrap()
                .result_type(),
            CssCalculationType::Number
        );
    }
    for (source, root) in [
        ("1e999%", CalculationRoot::Percentage),
        ("1e999deg", CalculationRoot::Angle),
        ("1e999s", CalculationRoot::Time),
        ("1e999hz", CalculationRoot::Frequency),
    ] {
        assert!(parse(source, root).is_ok(), "{source}");
    }
}

fn strict(source: &str, root: CalculationRoot) -> CssNumericConstructionErrorKind {
    *construct(components(source), root, CssComponentValueLimits::default())
        .unwrap_err()
        .kind()
}

#[test]
fn each_rejection_kind_has_an_input_that_produces_it() {
    assert_eq!(strict("   ", CalculationRoot::Length), CssNumericConstructionErrorKind::EmptyValue);
    assert_eq!(strict("1px 2px", CalculationRoot::Length), CssNumericConstructionErrorKind::MultipleValues);
    assert_eq!(strict("calc(1px", CalculationRoot::Length), CssNumericConstructionErrorKind::RecoveredComponent);
    assert_eq!(strict("calc(var(--x))", CalculationRoot::Length), CssNumericConstructionErrorKind::SubstitutionRequired);
    assert_eq!(strict("calc(1px +)", CalculationRoot::Length), CssNumericConstructionErrorKind::MalformedExpression);
    assert_eq!(strict("calc(1px+ 2px)", CalculationRoot::Length), CssNumericConstructionErrorKind::MalformedExpression);
    assert_eq!(strict("foo(1px)", CalculationRoot::Length), CssNumericConstructionErrorKind::UnknownFunction);
    assert_eq!(strict("clamp(1px, 2px)", CalculationRoot::Length), CssNumericConstructionErrorKind::Arity);
    assert_eq!(strict("min(1px, )", CalculationRoot::Length), CssNumericConstructionErrorKind::Arity);
    assert_eq!(strict("sin(1px)", CalculationRoot::Number), CssNumericConstructionErrorKind::InvalidArgumentType);
    assert_eq!(strict("calc(1foo)", CalculationRoot::Number), CssNumericConstructionErrorKind::InvalidArgumentType);
    assert_eq!(strict("calc(1px + 1s)", CalculationRoot::Length), CssNumericConstructionErrorKind::IncompatibleTypes);
    assert_eq!(strict("1px", CalculationRoot::Number), CssNumericConstructionErrorKind::RootDomainMismatch);
    assert_eq!(strict("1.5", CalculationRoot::Integer), CssNumericConstructionErrorKind::RootDomainMismatch);
    assert_eq!(strict("auto", CalculationRoot::Length), CssNumericConstructionErrorKind::RootDomainMismatch);
    // A recovered closing token is admitted when recovery is allowed.
    assert!(construct_with_policy(components("calc(1px"), CalculationRoot::Length, CssComponentValueLimits::default(), false).is_ok());
}

#[test]
fn the_first_failing_nested_component_is_reported_before_the_outer_grammar() {
    // The unknown function nested after the stray identifier is checked first.
    assert_eq!(strict("calc(1px red foo(1))", CalculationRoot::Length), CssNumericConstructionErrorKind::UnknownFunction);
    assert_eq!(strict("calc(1px red)", CalculationRoot::Length), CssNumericConstructionErrorKind::MalformedExpression);
}

#[test]
fn admitted_roots_have_a_type_their_root_admits() {
    for (source, root, expected) in [
        ("0", CalculationRoot::Length, CssCalculationType::Length),
        ("-0.0e5", CalculationRoot::LengthPercentage, CssCalculationType::Length),
        ("5%", CalculationRoot::LengthPercentage, CssCalculationType::LengthPercentage),
        ("calc(1px * 2)", CalculationRoot::Length, CssCalculationType::Length),
        ("calc(2 / 1s * 1s)", CalculationRoot::Number, CssCalculationType::Number),
        ("7", CalculationRoot::Integer, CssCalculationType::Number),
        ("calc(1x)", CalculationRoot::Resolution, CssCalculationType::Resolution),
        ("calc(1fr)", CalculationRoot::NamedDimensionOrNumber, CssCalculationType::Flex),
    ] {
        let value = construct(components(source), root, CssComponentValueLimits::default()).unwrap();
        assert_eq!(value.result_type(), expected, "{source}");
    }
    assert!(construct(components("0.5"), CalculationRoot::Length, CssComponentValueLimits::default()).is_err());
    assert!(construct(components("calc(1%)"), CalculationRoot::NamedDimensionOrNumber, CssComponentValueLimits::default()).is_err());
}

#[test]
fn canonical_text_length_is_checked_against_the_byte_limit() {
    // "calc(1 * 2)" is eleven bytes.
    assert!(construct(components("calc(1*2)"), CalculationRoot::Number, limits(1, 10, 11)).is_ok());
    let error = construct(components("calc(1*2)"), CalculationRoot::Number, limits(1, 10, 10)).unwrap_err();
    assert_eq!(error.kind(), &CssNumericConstructionErrorKind::ResourceLimit);
    assert_eq!(error.component_error().unwrap().kind(), CssComponentValueErrorKind::ByteLimit);
    // "min(1, none)" is not a clamp; "clamp(none, 2, none)" writes each absent bound.
    assert!(construct(components("clamp(none,2,none)"), CalculationRoot::Number, limits(2, 20, 20)).is_ok());
    assert!(construct(components("clamp(none,2,none)"), CalculationRoot::Number, limits(2, 20, 19)).is_err());
}

#[test]
fn functions_keep_arguments_absent_bounds_and_rounding_strategies() {
    let value = parse("clamp(none, 2px, none) + round(up, 3px, 1px)", CalculationRoot::Length).unwrap();
    let CssCalculationExpressionRef::Sum(sum) = body(&value) else {
        panic!("expected sum")
    };
    let CssCalculationExpressionRef::Function(clamp) = sum.term(0).unwrap().expression() else {
        panic!("expected clamp")
    };
    assert_eq!(clamp.function(), CssMathFunction::Clamp);
    assert_eq!(clamp.len(), 3);
    assert!(clamp.argument(0).unwrap().is_none());
    assert!(clamp.argument(1).unwrap().is_some());
    assert!(clamp.argument(2).unwrap().is_none());
    assert!(clamp.argument(3).is_none());
    assert_eq!(clamp.rounding_strategy(), None);
    let CssCalculationExpressionRef::Function(round) = sum.term(1).unwrap().expression() else {
        panic!("expected round")
    };
    assert_eq!(round.rounding_strategy(), Some(CssRoundingStrategy::Up));
    assert_eq!(round.len(), 2);
    let constant = parse("pi * 1px", CalculationRoot::Length).unwrap();
    let CssCalculationExpressionRef::Product(product) = body(&constant) else {
        panic!("expected product")
    };
    let CssCalculationExpressionRef::Constant(pi) = product.factor(0).unwrap().expression() else {
        panic!("expected constant")
    };
    assert_eq!(pi.value(), CssNumericConstant::Pi);
}

#[test]
fn operators_keep_their_authored_origins() {
    let value = parse("1px + 2px", CalculationRoot::Length).unwrap();
    let CssCalculationExpressionRef::Sum(sum) = body(&value) else {
        panic!("expected sum")
    };
    assert_eq!(sum.term(0).unwrap().operator_origin(), None);
    // "calc(1px + 2px)": the plus sign is byte nine.
    assert_eq!(
        sum.term(1).unwrap().operator_origin(),
        Some(&CssValueOrigin::Parsed { start: 9, end: 10 })
    );
    assert_eq!(sum.origin(), &CssValueOrigin::Parsed { start: 5, end: 8 });
}

#[test]
fn literal_leaves_expose_spelling_unit_and_token_kind() {
    let value = parse("1.5E1Px * 2", CalculationRoot::Length).unwrap();
    let CssCalculationExpressionRef::Product(product) = body(&value) else {
        panic!("expected product")
    };
    let CssCalculationExpressionRef::Value(CssCalculationValueRef::Length(length)) = product.factor(0).unwrap().expression() else {
        panic!("expected length")
    };
    assert_eq!(length.representation(), "1.5E1");
    assert_eq!(length.unit(), Some("Px"));
    assert_eq!(length.numeric().kind(), CssNumericTokenKind::Number);
    assert!(length.canonical_unit().is_some());
    let CssCalculationExpressionRef::Value(CssCalculationValueRef::Integer(two)) = product.factor(1).unwrap().expression() else {
        panic!("expected integer")
    };
    assert_eq!(two.numeric().kind(), CssNumericTokenKind::Integer);
    assert_eq!(two.unit(), None);
}

#[test]
fn math_function_names_round_trip_ignoring_case() {
    for function in [
        CssMathFunction::Calc,
        CssMathFunction::Min,
        CssMathFunction::Clamp,
        CssMathFunction::Atan2,
        CssMathFunction::Hypot,
        CssMathFunction::Sign,
    ] {
        assert_eq!(CssMathFunction::parse(function.name()), Some(function));
        assert_eq!(CssMathFunction::parse(&function.name().to_uppercase()), Some(function));
    }
    assert_eq!(CssMathFunction::parse("atan3"), None);
}

#[test]
fn integer_literals_are_checked_integer_roots() {
    for value in [0, 42, -7, i32::MAX, i32::MIN] {
        let literal = CssIntegerCalculation::literal(value);
        assert_eq!(literal.result_type(), CssCalculationType::Number);
        assert!(!literal.requires_rounding());
        match &literal.components().items[0] {
            CssComponentValue::Number { representation, .. } => assert_eq!(representation, &value.to_string()),
            other => panic!("unexpected {other:?}"),
        }
    }
    let rounded = CssIntegerCalculation::try_from_components(components("round(2.5)")).unwrap();
    assert!(rounded.requires_rounding());
}

#[test]
fn sums_of_length_percentages_are_wrapped_and_rechecked() {
    let first = CssLengthPercentageCalculation::try_from_components(components("1px")).unwrap();
    let second = CssLengthPercentageCalculation::try_from_components(components("2%")).unwrap();
    let sum = CssLengthPercentageCalculation::try_sum(first, vec![(CssCalculationSumOperator::Subtract, second)]).unwrap();
    assert_eq!(sum.result_type(), CssCalculationType::LengthPercentage);
    assert_eq!(sum.components().items.len(), 1);
    let CssCalculationExpressionRef::NestedCalc(root) = sum.expression() else {
        panic!("expected calc wrapper")
    };
    let CssCalculationExpressionRef::Sum(terms) = root.operand() else {
        panic!("expected sum")
    };
    assert_eq!(terms.term(1).unwrap().operator(), Some(CssCalculationSumOperator::Subtract));
    assert_eq!(terms.term(1).unwrap().operator_origin(), Some(&CssValueOrigin::Programmatic));
    let single = CssLengthPercentageCalculation::try_from_components(components("3px")).unwrap();
    let wrapped = CssLengthPercentageCalculation::try_sum(single, vec![]).unwrap();
    assert!(matches!(wrapped.expression(), CssCalculationExpressionRef::NestedCalc(_)));
    // A root-only unitless zero is an ordinary number once it is an operand.
    let zero = CssLengthPercentageCalculation::try_from_components(components("0")).unwrap();
    let one = CssLengthPercentageCalculation::try_from_components(components("1px")).unwrap();
    let error = CssLengthPercentageCalculation::try_sum(zero, vec![(CssCalculationSumOperator::Add, one)]).unwrap_err();
    assert_eq!(error.kind(), &CssNumericConstructionErrorKind::IncompatibleTypes);
}

#[test]
fn canonical_text_normalizes_spacing_and_unit_case() {
    let value = parse("1PX+(2em*3)", CalculationRoot::Length);
    assert!(value.is_err());
    let value = parse("1PX + (2em*3) - min(1px,2%)", CalculationRoot::LengthPercentage).unwrap();
    assert_eq!(value.to_css_fragment(), "calc(1px + (2em * 3) - min(1px, 2%))");
    let rounded = parse("round(to-zero,1px,none) + clamp(none,1px,2px)", CalculationRoot::Length);
    assert!(rounded.is_err());
    let clamp = parse("clamp(none,1px,2px)", CalculationRoot::Length).unwrap();
    assert_eq!(clamp.to_css_fragment(), "calc(clamp(none, 1px, 2px))");
    let round = parse("ROUND(to-zero,1px,2px) / -infinity", CalculationRoot::Length).unwrap();
    assert_eq!(round.to_css_fragment(), "calc(round(to-zero, 1px, 2px) / -infinity)");
}

#[test]
fn parsed_input_admits_recovered_closings_and_supplied_components_do_not() {
    assert!(admit_input(NumericInputKind::Parsed, components("calc(1px + 2px"), CalculationRoot::Length).is_ok());
    let error = admit_input(NumericInputKind::Components, components("calc(1px + 2px"), CalculationRoot::Length).unwrap_err();
    assert_eq!(error.kind(), &CssNumericConstructionErrorKind::RecoveredComponent);
}

#[test]
fn generic_media_numbers_admit_named_dimensions_but_not_percentages_or_products() {
    for source in [
        "calc(1)",
        "calc(1px)",
        "calc(1deg)",
        "calc(1s)",
        "calc(1Hz)",
        "calc(1dppx)",
        "calc(1fr)",
    ] {
        let expression = surgeist_css::calculation::admit_with_limits(
            NumericInputKind::Components,
            components(source),
            CalculationRoot::NamedDimensionOrNumber,
            CssComponentValueLimits::default(),
        )
        .unwrap();
        let retained = format!("Some({:?})", components(source));
        assert!(format!("{expression:?}").contains(&retained), "{source}");
    }
    for (source, expected) in [
        (
            "calc(1%)",
            CssNumericConstructionErrorKind::RootDomainMismatch,
        ),
        (
            "calc(1px * 1px)",
            CssNumericConstructionErrorKind::InvalidArgumentType,
        ),
    ] {
        let error = construct(
            components(source),
            CalculationRoot::NamedDimensionOrNumber,
            CssComponentValueLimits::default(),
        )
        .unwrap_err();
        assert_eq!(error.kind(), &expected, "{source}");
    }
}

#[test]
fn canonical_pieces_carry_the_authored_origins() {
    let expression = construct_with_policy(
        components("calc(2DEG*2)"),
        CalculationRoot::Angle,
        CssComponentValueLimits::default(),
        true,
    )
    .unwrap();
    let pieces = expression.to_css_pieces();
    let at = |start: usize, end: usize| CssValueOrigin::Parsed { start, end };
    assert_eq!(
        pieces,
        vec![
            ("calc(".to_string(), at(0, 12)),
            ("2deg".to_string(), at(5, 9)),
            (" * ".to_string(), at(9, 10)),
            ("2".to_string(), at(10, 11)),
            (")".to_string(), at(11, 12)),
        ]
    );
    let joined: String = pieces.iter().map(|(text, _)| text.as_str()).collect();
    assert_eq!(joined, expression.to_css_fragment());
}

#[test]
fn compound_nodes_take_their_first_operands_origin() {
    let expression = parse("1 + 2 * 3 - 4", CalculationRoot::Number).unwrap();
    let CssCalculationExpressionRef::Sum(sum) = body(&expression) else {
        panic!("expected sum");
    };
    assert_eq!(sum.len(), 3);
    assert_eq!(sum.origin(), sum.term(0).unwrap().expression().origin());
    assert_eq!(sum.term(0).unwrap().operator_origin(), None);
    for i in 1..sum.len() {
        assert!(sum.term(i).unwrap().operator().is_some());
        assert!(sum.term(i).unwrap().operator_origin().is_some());
    }
    let CssCalculationExpressionRef::Product(product) = sum.term(1).unwrap().expression() else {
        panic!("expected product");
    };
    assert_eq!(product.origin(), product.factor(0).unwrap().expression().origin());
    let constant = parse("pi", CalculationRoot::Number).unwrap();
    let CssCalculationExpressionRef::Constant(pi) = body(&constant) else {
        panic!("expected constant");
    };
    assert_eq!(pi.numeric_type(), surgeist_css::numeric_type::CssNumericType::number());
}

#[test]
fn wrappers_take_their_operands_type() {
    let expression = parse("(2% + 1px) * 2", CalculationRoot::LengthPercentage).unwrap();
    let CssCalculationExpressionRef::NestedCalc(root) = expression.as_ref() else {
        panic!("expected calc root");
    };
    assert_eq!(expression.as_ref().numeric_type(), root.operand().numeric_type());
    let CssCalculationExpressionRef::Product(product) = root.operand() else {
        panic!("expected product");
    };
    let group_ref = product.factor(0).unwrap().expression();
    let CssCalculationExpressionRef::Group(group) = group_ref else {
        panic!("expected group");
    };
    assert_eq!(group_ref.numeric_type(), group.operand().numeric_type());
    let percentage = parse("(5%)", CalculationRoot::LengthPercentage).unwrap();
    let CssCalculationExpressionRef::Group(group) = body(&percentage) else {
        panic!("expected group");
    };
    assert_eq!(body(&percentage).numeric_type(), group.operand().numeric_type());
}
