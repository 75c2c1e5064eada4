use surgeist_css::media_features::{grid_literal, CssGridMode};
use surgeist_css::media_features::{
    CssMediaFeatureKind, CssMediaRange, CssMediaRangeRef, CssQueryComparison, MediaRangeState,
    MediaValueFamily,
};

#[test]
fn feature_names_round_trip_ignoring_case() {
    for kind in [
        CssMediaFeatureKind::Width,
        CssMediaFeatureKind::DeviceAspectRatio,
        CssMediaFeatureKind::HorizontalViewportSegments,
        CssMediaFeatureKind::PrefersReducedTransparency,
        CssMediaFeatureKind::NavControls,
        CssMediaFeatureKind::PrefersReducedData,
    ] {
        assert_eq!(CssMediaFeatureKind::from_name(kind.name()), Some(kind));
        assert_eq!(CssMediaFeatureKind::from_name(&kind.name().to_uppercase()), Some(kind));
    }
    assert_eq!(CssMediaFeatureKind::from_name("min-width"), None);
    assert_eq!(CssMediaFeatureKind::AspectRatio.name(), "aspect-ratio");
}

#[test]
fn feature_families_select_value_grammars() {
    assert_eq!(CssMediaFeatureKind::Height.family(), MediaValueFamily::Length);
    assert_eq!(CssMediaFeatureKind::AspectRatio.family(), MediaValueFamily::Ratio);
    assert_eq!(CssMediaFeatureKind::Resolution.family(), MediaValueFamily::Resolution);
    assert_eq!(CssMediaFeatureKind::Monochrome.family(), MediaValueFamily::Integer);
    assert_eq!(CssMediaFeatureKind::Scripting.family(), MediaValueFamily::Discrete);
}

#[test]
fn ranges_keep_their_authored_form_and_bound_order() {
    let range = CssMediaRange::new(MediaRangeState::Descending {
        left: 10,
        left_inclusive: false,
        right: 2,
        right_inclusive: true,
    });
    match range.view() {
        CssMediaRangeRef::Descending { left, left_inclusive, right, right_inclusive } => {
            assert_eq!((*left, left_inclusive, *right, right_inclusive), (10, false, 2, true));
        }
        other => panic!("unexpected {other:?}"),
    }
    let range = CssMediaRange::new(MediaRangeState::ValueFirst {
        value: 3,
        comparison: CssQueryComparison::LessThanOrEqual,
    });
    assert!(matches!(
        range.view(),
        CssMediaRangeRef::ValueFirst { value: 3, comparison: CssQueryComparison::LessThanOrEqual }
    ));
}

#[test]
fn grid_literals_are_zero_or_one() {
    for zero in ["0", "+0", "-0", "000"] {
        assert_eq!(grid_literal(zero), Some(CssGridMode::Bitmap), "{zero}");
    }
    for one in ["1", "+1", "001"] {
        assert_eq!(grid_literal(one), Some(CssGridMode::Grid), "{one}");
    }
    for other in ["-1", "2", "10", "1.0"] {
        assert_eq!(grid_literal(other), None, "{other}");
    }
}
