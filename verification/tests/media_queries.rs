use surgeist_css::media_features::{
    CssMediaFeatureKind, CssMediaFeatureQuery, CssMediaScripting, CssPointerCapability,
    CssQueryComparison, MediaRangeState,
};
use surgeist_css::media_queries::{
    discrete_query, query_comparison, query_plain_range, query_range_chain, MediaFeatureName,
    RangePrefix,
};

#[test]
fn feature_names_take_range_prefixes_only_for_range_features() {
    assert_eq!(
        MediaFeatureName::parse("Width"),
        Some(MediaFeatureName { id: CssMediaFeatureKind::Width, prefix: None })
    );
    assert_eq!(
        MediaFeatureName::parse("MIN-aspect-ratio"),
        Some(MediaFeatureName { id: CssMediaFeatureKind::AspectRatio, prefix: Some(RangePrefix::Min) })
    );
    assert_eq!(
        MediaFeatureName::parse("max-color"),
        Some(MediaFeatureName { id: CssMediaFeatureKind::Color, prefix: Some(RangePrefix::Max) })
    );
    assert_eq!(MediaFeatureName::parse("min-hover"), None);
    assert_eq!(MediaFeatureName::parse("max-"), None);
    assert_eq!(MediaFeatureName::parse("mid-width"), None);
    assert_eq!(MediaFeatureName::parse("min-width").unwrap().boolean_kind(), None);
    assert_eq!(MediaFeatureName::parse("grid").unwrap().boolean_kind(), Some(CssMediaFeatureKind::Grid));
}

#[test]
fn comparisons_and_range_forms_keep_authored_order() {
    assert_eq!(query_comparison('<', true), CssQueryComparison::LessThanOrEqual);
    assert_eq!(query_comparison('>', false), CssQueryComparison::GreaterThan);
    assert_eq!(query_comparison('=', false), CssQueryComparison::Equal);
    assert_eq!(query_plain_range(4, Some(RangePrefix::Max)), MediaRangeState::Max { value: 4 });
    assert_eq!(
        query_range_chain(1, CssQueryComparison::LessThan, 9, CssQueryComparison::LessThanOrEqual),
        Some(MediaRangeState::Ascending { left: 1, left_inclusive: false, right: 9, right_inclusive: true })
    );
    assert_eq!(
        query_range_chain(9, CssQueryComparison::GreaterThanOrEqual, 1, CssQueryComparison::GreaterThan),
        Some(MediaRangeState::Descending { left: 9, left_inclusive: true, right: 1, right_inclusive: false })
    );
    assert_eq!(query_range_chain(1, CssQueryComparison::LessThan, 9, CssQueryComparison::GreaterThan), None);
    assert_eq!(query_range_chain(1, CssQueryComparison::Equal, 9, CssQueryComparison::Equal), None);
}

#[test]
fn discrete_features_read_their_own_keywords() {
    assert!(matches!(
        discrete_query(CssMediaFeatureKind::AnyPointer, "Coarse"),
        Some(CssMediaFeatureQuery::AnyPointer(CssPointerCapability::Coarse))
    ));
    assert!(matches!(
        discrete_query(CssMediaFeatureKind::Scripting, "initial-only"),
        Some(CssMediaFeatureQuery::Scripting(CssMediaScripting::InitialOnly))
    ));
    assert!(discrete_query(CssMediaFeatureKind::Scripting, "coarse").is_none());
    assert!(discrete_query(CssMediaFeatureKind::Width, "auto").is_none());
    let query = discrete_query(CssMediaFeatureKind::VideoColorGamut, "P3").unwrap();
    assert_eq!(query.kind(), CssMediaFeatureKind::VideoColorGamut);
    assert_eq!(query.name(), "video-color-gamut");
}
