//! Media query decisions on plain values: feature names with range prefixes,
//! comparisons, range forms and the keyword values of discrete features.

use crate::media_features::{
    feature_at, feature_family, feature_from, feature_name, CssColorSchemePreference, CssContrastPreference, CssDisplayMode,
    CssForcedColorsMode, CssHoverCapability, CssMediaColorGamut, CssMediaDynamicRange,
    CssMediaEnvironmentBlending, CssMediaFeatureKind, CssMediaFeatureQuery,
    CssMediaInvertedColors, CssMediaNavigationControls, CssMediaOverflowBlock,
    CssMediaOverflowInline, CssMediaReducedDataPreference, CssMediaScripting, CssMediaUpdate,
    CssOrientation, CssPointerCapability, CssQueryComparison, CssReducedMotionPreference,
    CssReducedTransparencyPreference, CssScanMode, MediaRangeState, MediaValueFamily,
};
use crate::units::{eq_ignore_ascii_case, lemma_differs_at, lemma_same_case_shared, same_ignoring_case};
use vstd::prelude::*;
use vstd::string::StringSliceAdditionalSpecFns;

verus! {

/// The `min-` or `max-` prefix of a range feature name.
#[derive(Clone, Copy, Debug, PartialEq, Eq, Structural)]
pub enum RangePrefix {
    Min,
    Max,
}

/// A feature name: the feature and an optional range prefix.
#[derive(Clone, Copy, Debug, PartialEq, Eq, Structural)]
pub struct MediaFeatureName {
    pub id: CssMediaFeatureKind,
    pub prefix: Option<RangePrefix>,
}

/// Whether `s` starts with `p`, ignoring ASCII case.
pub open spec fn prefixed(s: Seq<char>, p: Seq<char>) -> bool {
    s.len() >= p.len() && same_ignoring_case(s.subrange(0, p.len() as int), p)
}

/// The feature a name spells: a known feature, or `min-`/`max-` before a feature that
/// is not discrete.
pub open spec fn feature_name_of(s: Seq<char>) -> Option<MediaFeatureName> {
    match feature_from(s, 0) {
        Some(id) => Some(MediaFeatureName { id, prefix: None }),
        None => {
            let prefix = if prefixed(s, "min-"@) {
                Some(RangePrefix::Min)
            } else if prefixed(s, "max-"@) {
                Some(RangePrefix::Max)
            } else {
                None
            };
            match prefix {
                None => None,
                Some(p) => match feature_from(s.subrange(4, s.len() as int), 0) {
                    Some(id) => if feature_family(id) != MediaValueFamily::Discrete {
                        Some(MediaFeatureName { id, prefix: Some(p) })
                    } else {
                        None
                    },
                    None => None,
                },
            }
        },
    }
}

/// No feature's name starts with `min-` or `max-`.
proof fn lemma_no_feature_prefixed(k: CssMediaFeatureKind)
    ensures
        !prefixed(feature_name(k)@, "min-"@),
        !prefixed(feature_name(k)@, "max-"@),
{
    reveal_strlit("min-");
    reveal_strlit("max-");
    reveal_strlit("width");
    reveal_strlit("height");
    reveal_strlit("device-width");
    reveal_strlit("device-height");
    reveal_strlit("aspect-ratio");
    reveal_strlit("device-aspect-ratio");
    reveal_strlit("resolution");
    reveal_strlit("color");
    reveal_strlit("color-index");
    reveal_strlit("monochrome");
    reveal_strlit("horizontal-viewport-segments");
    reveal_strlit("vertical-viewport-segments");
    reveal_strlit("orientation");
    reveal_strlit("scan");
    reveal_strlit("grid");
    reveal_strlit("prefers-color-scheme");
    reveal_strlit("prefers-reduced-motion");
    reveal_strlit("prefers-reduced-transparency");
    reveal_strlit("prefers-contrast");
    reveal_strlit("forced-colors");
    reveal_strlit("hover");
    reveal_strlit("any-hover");
    reveal_strlit("pointer");
    reveal_strlit("any-pointer");
    reveal_strlit("display-mode");
    reveal_strlit("update");
    reveal_strlit("overflow-block");
    reveal_strlit("overflow-inline");
    reveal_strlit("color-gamut");
    reveal_strlit("video-color-gamut");
    reveal_strlit("dynamic-range");
    reveal_strlit("video-dynamic-range");
    reveal_strlit("environment-blending");
    reveal_strlit("inverted-colors");
    reveal_strlit("nav-controls");
    reveal_strlit("scripting");
    reveal_strlit("prefers-reduced-data");
    match k {
        CssMediaFeatureKind::Width => { lemma_differs_at("width"@.subrange(0, 4), "min-"@, 0); lemma_differs_at("width"@.subrange(0, 4), "max-"@, 0); },
        CssMediaFeatureKind::Height => { lemma_differs_at("height"@.subrange(0, 4), "min-"@, 0); lemma_differs_at("height"@.subrange(0, 4), "max-"@, 0); },
        CssMediaFeatureKind::DeviceWidth => { lemma_differs_at("device-width"@.subrange(0, 4), "min-"@, 0); lemma_differs_at("device-width"@.subrange(0, 4), "max-"@, 0); },
        CssMediaFeatureKind::DeviceHeight => { lemma_differs_at("device-height"@.subrange(0, 4), "min-"@, 0); lemma_differs_at("device-height"@.subrange(0, 4), "max-"@, 0); },
        CssMediaFeatureKind::AspectRatio => { lemma_differs_at("aspect-ratio"@.subrange(0, 4), "min-"@, 0); lemma_differs_at("aspect-ratio"@.subrange(0, 4), "max-"@, 0); },
        CssMediaFeatureKind::DeviceAspectRatio => { lemma_differs_at("device-aspect-ratio"@.subrange(0, 4), "min-"@, 0); lemma_differs_at("device-aspect-ratio"@.subrange(0, 4), "max-"@, 0); },
        CssMediaFeatureKind::Resolution => { lemma_differs_at("resolution"@.subrange(0, 4), "min-"@, 0); lemma_differs_at("resolution"@.subrange(0, 4), "max-"@, 0); },
        CssMediaFeatureKind::Color => { lemma_differs_at("color"@.subrange(0, 4), "min-"@, 0); lemma_differs_at("color"@.subrange(0, 4), "max-"@, 0); },
        CssMediaFeatureKind::ColorIndex => { lemma_differs_at("color-index"@.subrange(0, 4), "min-"@, 0); lemma_differs_at("color-index"@.subrange(0, 4), "max-"@, 0); },
        CssMediaFeatureKind::Monochrome => { lemma_differs_at("monochrome"@.subrange(0, 4), "min-"@, 1); lemma_differs_at("monochrome"@.subrange(0, 4), "max-"@, 1); },
        CssMediaFeatureKind::HorizontalViewportSegments => { lemma_differs_at("horizontal-viewport-segments"@.subrange(0, 4), "min-"@, 0); lemma_differs_at("horizontal-viewport-segments"@.subrange(0, 4), "max-"@, 0); },
        CssMediaFeatureKind::VerticalViewportSegments => { lemma_differs_at("vertical-viewport-segments"@.subrange(0, 4), "min-"@, 0); lemma_differs_at("vertical-viewport-segments"@.subrange(0, 4), "max-"@, 0); },
        CssMediaFeatureKind::Orientation => { lemma_differs_at("orientation"@.subrange(0, 4), "min-"@, 0); lemma_differs_at("orientation"@.subrange(0, 4), "max-"@, 0); },
        CssMediaFeatureKind::Scan => { lemma_differs_at("scan"@.subrange(0, 4), "min-"@, 0); lemma_differs_at("scan"@.subrange(0, 4), "max-"@, 0); },
        CssMediaFeatureKind::Grid => { lemma_differs_at("grid"@.subrange(0, 4), "min-"@, 0); lemma_differs_at("grid"@.subrange(0, 4), "max-"@, 0); },
        CssMediaFeatureKind::PrefersColorScheme => { lemma_differs_at("prefers-color-scheme"@.subrange(0, 4), "min-"@, 0); lemma_differs_at("prefers-color-scheme"@.subrange(0, 4), "max-"@, 0); },
        CssMediaFeatureKind::PrefersReducedMotion => { lemma_differs_at("prefers-reduced-motion"@.subrange(0, 4), "min-"@, 0); lemma_differs_at("prefers-reduced-motion"@.subrange(0, 4), "max-"@, 0); },
        CssMediaFeatureKind::PrefersReducedTransparency => { lemma_differs_at("prefers-reduced-transparency"@.subrange(0, 4), "min-"@, 0); lemma_differs_at("prefers-reduced-transparency"@.subrange(0, 4), "max-"@, 0); },
        CssMediaFeatureKind::PrefersContrast => { lemma_differs_at("prefers-contrast"@.subrange(0, 4), "min-"@, 0); lemma_differs_at("prefers-contrast"@.subrange(0, 4), "max-"@, 0); },
        CssMediaFeatureKind::ForcedColors => { lemma_differs_at("forced-colors"@.subrange(0, 4), "min-"@, 0); lemma_differs_at("forced-colors"@.subrange(0, 4), "max-"@, 0); },
        CssMediaFeatureKind::Hover => { lemma_differs_at("hover"@.subrange(0, 4), "min-"@, 0); lemma_differs_at("hover"@.subrange(0, 4), "max-"@, 0); },
        CssMediaFeatureKind::AnyHover => { lemma_differs_at("any-hover"@.subrange(0, 4), "min-"@, 0); lemma_differs_at("any-hover"@.subrange(0, 4), "max-"@, 0); },
        CssMediaFeatureKind::Pointer => { lemma_differs_at("pointer"@.subrange(0, 4), "min-"@, 0); lemma_differs_at("pointer"@.subrange(0, 4), "max-"@, 0); },
        CssMediaFeatureKind::AnyPointer => { lemma_differs_at("any-pointer"@.subrange(0, 4), "min-"@, 0); lemma_differs_at("any-pointer"@.subrange(0, 4), "max-"@, 0); },
        CssMediaFeatureKind::DisplayMode => { lemma_differs_at("display-mode"@.subrange(0, 4), "min-"@, 0); lemma_differs_at("display-mode"@.subrange(0, 4), "max-"@, 0); },
        CssMediaFeatureKind::Update => { lemma_differs_at("update"@.subrange(0, 4), "min-"@, 0); lemma_differs_at("update"@.subrange(0, 4), "max-"@, 0); },
        CssMediaFeatureKind::OverflowBlock => { lemma_differs_at("overflow-block"@.subrange(0, 4), "min-"@, 0); lemma_differs_at("overflow-block"@.subrange(0, 4), "max-"@, 0); },
        CssMediaFeatureKind::OverflowInline => { lemma_differs_at("overflow-inline"@.subrange(0, 4), "min-"@, 0); lemma_differs_at("overflow-inline"@.subrange(0, 4), "max-"@, 0); },
        CssMediaFeatureKind::ColorGamut => { lemma_differs_at("color-gamut"@.subrange(0, 4), "min-"@, 0); lemma_differs_at("color-gamut"@.subrange(0, 4), "max-"@, 0); },
        CssMediaFeatureKind::VideoColorGamut => { lemma_differs_at("video-color-gamut"@.subrange(0, 4), "min-"@, 0); lemma_differs_at("video-color-gamut"@.subrange(0, 4), "max-"@, 0); },
        CssMediaFeatureKind::DynamicRange => { lemma_differs_at("dynamic-range"@.subrange(0, 4), "min-"@, 0); lemma_differs_at("dynamic-range"@.subrange(0, 4), "max-"@, 0); },
        CssMediaFeatureKind::VideoDynamicRange => { lemma_differs_at("video-dynamic-range"@.subrange(0, 4), "min-"@, 0); lemma_differs_at("video-dynamic-range"@.subrange(0, 4), "max-"@, 0); },
        CssMediaFeatureKind::EnvironmentBlending => { lemma_differs_at("environment-blending"@.subrange(0, 4), "min-"@, 0); lemma_differs_at("environment-blending"@.subrange(0, 4), "max-"@, 0); },
        CssMediaFeatureKind::InvertedColors => { lemma_differs_at("inverted-colors"@.subrange(0, 4), "min-"@, 0); lemma_differs_at("inverted-colors"@.subrange(0, 4), "max-"@, 0); },
        CssMediaFeatureKind::NavControls => { lemma_differs_at("nav-controls"@.subrange(0, 4), "min-"@, 0); lemma_differs_at("nav-controls"@.subrange(0, 4), "max-"@, 0); },
        CssMediaFeatureKind::Scripting => { lemma_differs_at("scripting"@.subrange(0, 4), "min-"@, 0); lemma_differs_at("scripting"@.subrange(0, 4), "max-"@, 0); },
        CssMediaFeatureKind::PrefersReducedData => { lemma_differs_at("prefers-reduced-data"@.subrange(0, 4), "min-"@, 0); lemma_differs_at("prefers-reduced-data"@.subrange(0, 4), "max-"@, 0); },
    }
}

/// A text equal up to case to one that starts with `p` starts with `p` too.
proof fn lemma_prefixed_same_case(x: Seq<char>, y: Seq<char>, p: Seq<char>)
    requires
        prefixed(x, p),
        same_ignoring_case(x, y),
    ensures
        prefixed(y, p),
{
    assert(same_ignoring_case(x.subrange(0, p.len() as int), y.subrange(0, p.len() as int))) by {
        assert forall|i: int| 0 <= i < p.len() implies crate::units::lower_code(
            #[trigger] x.subrange(0, p.len() as int)[i],
        ) == crate::units::lower_code(y.subrange(0, p.len() as int)[i]) by {
            assert(crate::units::lower_code(x[i]) == crate::units::lower_code(y[i]));
        }
    }
    lemma_same_case_shared(x.subrange(0, p.len() as int), y.subrange(0, p.len() as int), p);
}

proof fn lemma_feature_from_prefixed(x: Seq<char>, p: Seq<char>, i: int)
    requires
        prefixed(x, p),
        p == "min-"@ || p == "max-"@,
    ensures
        feature_from(x, i) is None,
    decreases 37 - i,
{
    if 0 <= i < 37 {
        lemma_no_feature_prefixed(feature_at(i));
        if same_ignoring_case(x, feature_name(feature_at(i))@) {
            lemma_prefixed_same_case(x, feature_name(feature_at(i))@, p);
        }
        lemma_feature_from_prefixed(x, p, i + 1);
    }
}

proof fn lemma_feature_from_same_case(a: Seq<char>, b: Seq<char>, i: int)
    requires
        same_ignoring_case(a, b),
    ensures
        feature_from(a, i) == feature_from(b, i),
    decreases 37 - i,
{
    if 0 <= i < 37 {
        lemma_same_case_shared(a, b, feature_name(feature_at(i))@);
        lemma_feature_from_same_case(a, b, i + 1);
    }
}

/// A feature's name, in any ASCII case, reads as that feature; after `min-` or `max-`
/// it reads as that feature with the prefix exactly when the feature is not discrete,
/// and as nothing when it is.
pub proof fn lemma_feature_names(k: CssMediaFeatureKind, t: Seq<char>)
    requires
        same_ignoring_case(t, feature_name(k)@),
    ensures
        feature_name_of(t) == Some(MediaFeatureName { id: k, prefix: None }),
        feature_family(k) != MediaValueFamily::Discrete ==> feature_name_of("min-"@ + t) == Some(
            MediaFeatureName { id: k, prefix: Some(RangePrefix::Min) },
        ) && feature_name_of("max-"@ + t) == Some(MediaFeatureName { id: k, prefix: Some(RangePrefix::Max) }),
        feature_family(k) == MediaValueFamily::Discrete ==> feature_name_of("min-"@ + t) is None
            && feature_name_of("max-"@ + t) is None,
{
    reveal_strlit("min-");
    reveal_strlit("max-");
    crate::media_features::lemma_feature_name_round_trip(k);
    lemma_feature_from_same_case(t, feature_name(k)@, 0);
    let lo = "min-"@ + t;
    let hi = "max-"@ + t;
    assert(lo.subrange(0, 4) =~= "min-"@);
    assert(hi.subrange(0, 4) =~= "max-"@);
    assert(lo.subrange(4, lo.len() as int) =~= t);
    assert(hi.subrange(4, hi.len() as int) =~= t);
    lemma_same_case_shared("min-"@, "min-"@, "min-"@);
    lemma_same_case_shared("max-"@, "max-"@, "max-"@);
    assert(prefixed(lo, "min-"@));
    assert(prefixed(hi, "max-"@));
    lemma_differs_at("max-"@, "min-"@, 1);
    assert(!prefixed(hi, "min-"@));
    lemma_feature_from_prefixed(lo, "min-"@, 0);
    lemma_feature_from_prefixed(hi, "max-"@, 0);
}

impl MediaFeatureName {
    /// Reads a feature name.
    pub fn parse(name: &str) -> (r: Option<Self>)
        ensures
            r == feature_name_of(name@),
    {
        proof {
            reveal_strlit("min-");
            reveal_strlit("max-");
        }
        if let Some(id) = CssMediaFeatureKind::from_name(name) {
            return Some(Self { id, prefix: None });
        }
        let n = name.unicode_len();
        if n < 4 {
            return None;
        }
        let head = name.substring_char(0, 4);
        let prefix = if eq_ignore_ascii_case(head, "min-") {
            RangePrefix::Min
        } else if eq_ignore_ascii_case(head, "max-") {
            RangePrefix::Max
        } else {
            return None;
        };
        let rest = name.substring_char(4, n);
        match CssMediaFeatureKind::from_name(rest) {
            Some(id) => match id.family() {
                MediaValueFamily::Discrete => None,
                _ => Some(Self { id, prefix: Some(prefix) }),
            },
            None => None,
        }
    }

    /// The feature a boolean test names: only an unprefixed name.
    pub fn boolean_kind(self) -> (r: Option<CssMediaFeatureKind>)
        ensures
            r == if self.prefix is None {
                Some(self.id)
            } else {
                None
            },
    {
        if self.prefix.is_none() {
            Some(self.id)
        } else {
            None
        }
    }
}

/// The comparison a symbol writes, with `=` after `<` or `>` making it inclusive.
pub open spec fn comparison_of(symbol: char, inclusive: bool) -> CssQueryComparison {
    if symbol == '<' {
        if inclusive {
            CssQueryComparison::LessThanOrEqual
        } else {
            CssQueryComparison::LessThan
        }
    } else if symbol == '>' {
        if inclusive {
            CssQueryComparison::GreaterThanOrEqual
        } else {
            CssQueryComparison::GreaterThan
        }
    } else {
        CssQueryComparison::Equal
    }
}

/// The comparison of a checked symbol: `<`, `>`, or `=` alone.
pub fn query_comparison(symbol: char, inclusive: bool) -> (r: CssQueryComparison)
    requires
        symbol == '<' || symbol == '>' || (symbol == '=' && !inclusive),
    ensures
        r == comparison_of(symbol, inclusive),
{
    if symbol == '<' {
        if inclusive {
            CssQueryComparison::LessThanOrEqual
        } else {
            CssQueryComparison::LessThan
        }
    } else if symbol == '>' {
        if inclusive {
            CssQueryComparison::GreaterThanOrEqual
        } else {
            CssQueryComparison::GreaterThan
        }
    } else {
        CssQueryComparison::Equal
    }
}

/// A plain value, or a `min-`/`max-` bound.
pub fn query_plain_range<T>(value: T, prefix: Option<RangePrefix>) -> (r: MediaRangeState<T>)
    ensures
        r == match prefix {
            None => MediaRangeState::Plain { value },
            Some(RangePrefix::Min) => MediaRangeState::Min { value },
            Some(RangePrefix::Max) => MediaRangeState::Max { value },
        },
{
    match prefix {
        None => MediaRangeState::Plain { value },
        Some(RangePrefix::Min) => MediaRangeState::Min { value },
        Some(RangePrefix::Max) => MediaRangeState::Max { value },
    }
}

pub open spec fn is_less(c: CssQueryComparison) -> bool {
    c is LessThan || c is LessThanOrEqual
}

pub open spec fn is_greater(c: CssQueryComparison) -> bool {
    c is GreaterThan || c is GreaterThanOrEqual
}

/// Two comparisons around the feature in one direction, in authored order; mixed
/// directions and `=` are not a range.
pub fn query_range_chain<T>(left: T, first: CssQueryComparison, right: T, second: CssQueryComparison) -> (r: Option<MediaRangeState<T>>)
    ensures
        is_less(first) && is_less(second) ==> r == Some(MediaRangeState::Ascending {
            left,
            left_inclusive: first is LessThanOrEqual,
            right,
            right_inclusive: second is LessThanOrEqual,
        }),
        is_greater(first) && is_greater(second) ==> r == Some(MediaRangeState::Descending {
            left,
            left_inclusive: first is GreaterThanOrEqual,
            right,
            right_inclusive: second is GreaterThanOrEqual,
        }),
        !(is_less(first) && is_less(second)) && !(is_greater(first) && is_greater(second)) ==> r is None,
{
    let first_less = matches!(first, CssQueryComparison::LessThan | CssQueryComparison::LessThanOrEqual);
    let second_less = matches!(second, CssQueryComparison::LessThan | CssQueryComparison::LessThanOrEqual);
    let first_greater = matches!(first, CssQueryComparison::GreaterThan | CssQueryComparison::GreaterThanOrEqual);
    let second_greater = matches!(second, CssQueryComparison::GreaterThan | CssQueryComparison::GreaterThanOrEqual);
    if first_less && second_less {
        Some(MediaRangeState::Ascending {
            left,
            left_inclusive: matches!(first, CssQueryComparison::LessThanOrEqual),
            right,
            right_inclusive: matches!(second, CssQueryComparison::LessThanOrEqual),
        })
    } else if first_greater && second_greater {
        Some(MediaRangeState::Descending {
            left,
            left_inclusive: matches!(first, CssQueryComparison::GreaterThanOrEqual),
            right,
            right_inclusive: matches!(second, CssQueryComparison::GreaterThanOrEqual),
        })
    } else {
        None
    }
}

/// The orientation keyword an identifier names, ignoring ASCII case.
pub open spec fn orientation_of(s: Seq<char>) -> Option<CssOrientation> {
    if same_ignoring_case(s, "portrait"@) {
        Some(CssOrientation::Portrait)
    } else if same_ignoring_case(s, "landscape"@) {
        Some(CssOrientation::Landscape)
    } else {
        None
    }
}

pub fn orientation_named(ident: &str) -> (r: Option<CssOrientation>)
    ensures
        r == orientation_of(ident@),
{
    if eq_ignore_ascii_case(ident, "portrait") {
        Some(CssOrientation::Portrait)
    } else if eq_ignore_ascii_case(ident, "landscape") {
        Some(CssOrientation::Landscape)
    } else {
        None
    }
}

/// The scan mode keyword an identifier names, ignoring ASCII case.
pub open spec fn scan_mode_of(s: Seq<char>) -> Option<CssScanMode> {
    if same_ignoring_case(s, "progressive"@) {
        Some(CssScanMode::Progressive)
    } else if same_ignoring_case(s, "interlace"@) {
        Some(CssScanMode::Interlace)
    } else {
        None
    }
}

pub fn scan_mode_named(ident: &str) -> (r: Option<CssScanMode>)
    ensures
        r == scan_mode_of(ident@),
{
    if eq_ignore_ascii_case(ident, "progressive") {
        Some(CssScanMode::Progressive)
    } else if eq_ignore_ascii_case(ident, "interlace") {
        Some(CssScanMode::Interlace)
    } else {
        None
    }
}

/// The color scheme keyword an identifier names, ignoring ASCII case.
pub open spec fn color_scheme_of(s: Seq<char>) -> Option<CssColorSchemePreference> {
    if same_ignoring_case(s, "light"@) {
        Some(CssColorSchemePreference::Light)
    } else if same_ignoring_case(s, "dark"@) {
        Some(CssColorSchemePreference::Dark)
    } else {
        None
    }
}

pub fn color_scheme_named(ident: &str) -> (r: Option<CssColorSchemePreference>)
    ensures
        r == color_scheme_of(ident@),
{
    if eq_ignore_ascii_case(ident, "light") {
        Some(CssColorSchemePreference::Light)
    } else if eq_ignore_ascii_case(ident, "dark") {
        Some(CssColorSchemePreference::Dark)
    } else {
        None
    }
}

/// The reduced motion keyword an identifier names, ignoring ASCII case.
pub open spec fn reduced_motion_of(s: Seq<char>) -> Option<CssReducedMotionPreference> {
    if same_ignoring_case(s, "reduce"@) {
        Some(CssReducedMotionPreference::Reduce)
    } else if same_ignoring_case(s, "no-preference"@) {
        Some(CssReducedMotionPreference::NoPreference)
    } else {
        None
    }
}

pub fn reduced_motion_named(ident: &str) -> (r: Option<CssReducedMotionPreference>)
    ensures
        r == reduced_motion_of(ident@),
{
    if eq_ignore_ascii_case(ident, "reduce") {
        Some(CssReducedMotionPreference::Reduce)
    } else if eq_ignore_ascii_case(ident, "no-preference") {
        Some(CssReducedMotionPreference::NoPreference)
    } else {
        None
    }
}

/// The reduced transparency keyword an identifier names, ignoring ASCII case.
pub open spec fn reduced_transparency_of(s: Seq<char>) -> Option<CssReducedTransparencyPreference> {
    if same_ignoring_case(s, "reduce"@) {
        Some(CssReducedTransparencyPreference::Reduce)
    } else if same_ignoring_case(s, "no-preference"@) {
        Some(CssReducedTransparencyPreference::NoPreference)
    } else {
        None
    }
}

pub fn reduced_transparency_named(ident: &str) -> (r: Option<CssReducedTransparencyPreference>)
    ensures
        r == reduced_transparency_of(ident@),
{
    if eq_ignore_ascii_case(ident, "reduce") {
        Some(CssReducedTransparencyPreference::Reduce)
    } else if eq_ignore_ascii_case(ident, "no-preference") {
        Some(CssReducedTransparencyPreference::NoPreference)
    } else {
        None
    }
}

/// The contrast keyword an identifier names, ignoring ASCII case.
pub open spec fn contrast_of(s: Seq<char>) -> Option<CssContrastPreference> {
    if same_ignoring_case(s, "no-preference"@) {
        Some(CssContrastPreference::NoPreference)
    } else if same_ignoring_case(s, "more"@) {
        Some(CssContrastPreference::More)
    } else if same_ignoring_case(s, "less"@) {
        Some(CssContrastPreference::Less)
    } else if same_ignoring_case(s, "custom"@) {
        Some(CssContrastPreference::Custom)
    } else {
        None
    }
}

pub fn contrast_named(ident: &str) -> (r: Option<CssContrastPreference>)
    ensures
        r == contrast_of(ident@),
{
    if eq_ignore_ascii_case(ident, "no-preference") {
        Some(CssContrastPreference::NoPreference)
    } else if eq_ignore_ascii_case(ident, "more") {
        Some(CssContrastPreference::More)
    } else if eq_ignore_ascii_case(ident, "less") {
        Some(CssContrastPreference::Less)
    } else if eq_ignore_ascii_case(ident, "custom") {
        Some(CssContrastPreference::Custom)
    } else {
        None
    }
}

/// The forced colors keyword an identifier names, ignoring ASCII case.
pub open spec fn forced_colors_of(s: Seq<char>) -> Option<CssForcedColorsMode> {
    if same_ignoring_case(s, "none"@) {
        Some(CssForcedColorsMode::Inactive)
    } else if same_ignoring_case(s, "active"@) {
        Some(CssForcedColorsMode::Active)
    } else {
        None
    }
}

pub fn forced_colors_named(ident: &str) -> (r: Option<CssForcedColorsMode>)
    ensures
        r == forced_colors_of(ident@),
{
    if eq_ignore_ascii_case(ident, "none") {
        Some(CssForcedColorsMode::Inactive)
    } else if eq_ignore_ascii_case(ident, "active") {
        Some(CssForcedColorsMode::Active)
    } else {
        None
    }
}

/// The hover keyword an identifier names, ignoring ASCII case.
pub open spec fn hover_of(s: Seq<char>) -> Option<CssHoverCapability> {
    if same_ignoring_case(s, "none"@) {
        Some(CssHoverCapability::NoHover)
    } else if same_ignoring_case(s, "hover"@) {
        Some(CssHoverCapability::Hover)
    } else {
        None
    }
}

pub fn hover_named(ident: &str) -> (r: Option<CssHoverCapability>)
    ensures
        r == hover_of(ident@),
{
    if eq_ignore_ascii_case(ident, "none") {
        Some(CssHoverCapability::NoHover)
    } else if eq_ignore_ascii_case(ident, "hover") {
        Some(CssHoverCapability::Hover)
    } else {
        None
    }
}

/// The pointer keyword an identifier names, ignoring ASCII case.
pub open spec fn pointer_of(s: Seq<char>) -> Option<CssPointerCapability> {
    if same_ignoring_case(s, "none"@) {
        Some(CssPointerCapability::NoPointer)
    } else if same_ignoring_case(s, "coarse"@) {
        Some(CssPointerCapability::Coarse)
    } else if same_ignoring_case(s, "fine"@) {
        Some(CssPointerCapability::Fine)
    } else {
        None
    }
}

pub fn pointer_named(ident: &str) -> (r: Option<CssPointerCapability>)
    ensures
        r == pointer_of(ident@),
{
    if eq_ignore_ascii_case(ident, "none") {
        Some(CssPointerCapability::NoPointer)
    } else if eq_ignore_ascii_case(ident, "coarse") {
        Some(CssPointerCapability::Coarse)
    } else if eq_ignore_ascii_case(ident, "fine") {
        Some(CssPointerCapability::Fine)
    } else {
        None
    }
}

/// The display mode keyword an identifier names, ignoring ASCII case.
pub open spec fn display_mode_of(s: Seq<char>) -> Option<CssDisplayMode> {
    if same_ignoring_case(s, "fullscreen"@) {
        Some(CssDisplayMode::Fullscreen)
    } else if same_ignoring_case(s, "standalone"@) {
        Some(CssDisplayMode::Standalone)
    } else if same_ignoring_case(s, "minimal-ui"@) {
        Some(CssDisplayMode::MinimalUi)
    } else if same_ignoring_case(s, "browser"@) {
        Some(CssDisplayMode::Browser)
    } else if same_ignoring_case(s, "picture-in-picture"@) {
        Some(CssDisplayMode::PictureInPicture)
    } else {
        None
    }
}

pub fn display_mode_named(ident: &str) -> (r: Option<CssDisplayMode>)
    ensures
        r == display_mode_of(ident@),
{
    if eq_ignore_ascii_case(ident, "fullscreen") {
        Some(CssDisplayMode::Fullscreen)
    } else if eq_ignore_ascii_case(ident, "standalone") {
        Some(CssDisplayMode::Standalone)
    } else if eq_ignore_ascii_case(ident, "minimal-ui") {
        Some(CssDisplayMode::MinimalUi)
    } else if eq_ignore_ascii_case(ident, "browser") {
        Some(CssDisplayMode::Browser)
    } else if eq_ignore_ascii_case(ident, "picture-in-picture") {
        Some(CssDisplayMode::PictureInPicture)
    } else {
        None
    }
}

/// The update keyword an identifier names, ignoring ASCII case.
pub open spec fn update_of(s: Seq<char>) -> Option<CssMediaUpdate> {
    if same_ignoring_case(s, "none"@) {
        Some(CssMediaUpdate::NoUpdate)
    } else if same_ignoring_case(s, "slow"@) {
        Some(CssMediaUpdate::Slow)
    } else if same_ignoring_case(s, "fast"@) {
        Some(CssMediaUpdate::Fast)
    } else {
        None
    }
}

pub fn update_named(ident: &str) -> (r: Option<CssMediaUpdate>)
    ensures
        r == update_of(ident@),
{
    if eq_ignore_ascii_case(ident, "none") {
        Some(CssMediaUpdate::NoUpdate)
    } else if eq_ignore_ascii_case(ident, "slow") {
        Some(CssMediaUpdate::Slow)
    } else if eq_ignore_ascii_case(ident, "fast") {
        Some(CssMediaUpdate::Fast)
    } else {
        None
    }
}

/// The overflow block keyword an identifier names, ignoring ASCII case.
pub open spec fn overflow_block_of(s: Seq<char>) -> Option<CssMediaOverflowBlock> {
    if same_ignoring_case(s, "none"@) {
        Some(CssMediaOverflowBlock::NoOverflow)
    } else if same_ignoring_case(s, "scroll"@) {
        Some(CssMediaOverflowBlock::Scroll)
    } else if same_ignoring_case(s, "paged"@) {
        Some(CssMediaOverflowBlock::Paged)
    } else {
        None
    }
}

pub fn overflow_block_named(ident: &str) -> (r: Option<CssMediaOverflowBlock>)
    ensures
        r == overflow_block_of(ident@),
{
    if eq_ignore_ascii_case(ident, "none") {
        Some(CssMediaOverflowBlock::NoOverflow)
    } else if eq_ignore_ascii_case(ident, "scroll") {
        Some(CssMediaOverflowBlock::Scroll)
    } else if eq_ignore_ascii_case(ident, "paged") {
        Some(CssMediaOverflowBlock::Paged)
    } else {
        None
    }
}

/// The overflow inline keyword an identifier names, ignoring ASCII case.
pub open spec fn overflow_inline_of(s: Seq<char>) -> Option<CssMediaOverflowInline> {
    if same_ignoring_case(s, "none"@) {
        Some(CssMediaOverflowInline::NoOverflow)
    } else if same_ignoring_case(s, "scroll"@) {
        Some(CssMediaOverflowInline::Scroll)
    } else {
        None
    }
}

pub fn overflow_inline_named(ident: &str) -> (r: Option<CssMediaOverflowInline>)
    ensures
        r == overflow_inline_of(ident@),
{
    if eq_ignore_ascii_case(ident, "none") {
        Some(CssMediaOverflowInline::NoOverflow)
    } else if eq_ignore_ascii_case(ident, "scroll") {
        Some(CssMediaOverflowInline::Scroll)
    } else {
        None
    }
}

/// The color gamut keyword an identifier names, ignoring ASCII case.
pub open spec fn color_gamut_of(s: Seq<char>) -> Option<CssMediaColorGamut> {
    if same_ignoring_case(s, "srgb"@) {
        Some(CssMediaColorGamut::Srgb)
    } else if same_ignoring_case(s, "p3"@) {
        Some(CssMediaColorGamut::P3)
    } else if same_ignoring_case(s, "rec2020"@) {
        Some(CssMediaColorGamut::Rec2020)
    } else {
        None
    }
}

pub fn color_gamut_named(ident: &str) -> (r: Option<CssMediaColorGamut>)
    ensures
        r == color_gamut_of(ident@),
{
    if eq_ignore_ascii_case(ident, "srgb") {
        Some(CssMediaColorGamut::Srgb)
    } else if eq_ignore_ascii_case(ident, "p3") {
        Some(CssMediaColorGamut::P3)
    } else if eq_ignore_ascii_case(ident, "rec2020") {
        Some(CssMediaColorGamut::Rec2020)
    } else {
        None
    }
}

/// The dynamic range keyword an identifier names, ignoring ASCII case.
pub open spec fn dynamic_range_of(s: Seq<char>) -> Option<CssMediaDynamicRange> {
    if same_ignoring_case(s, "standard"@) {
        Some(CssMediaDynamicRange::Standard)
    } else if same_ignoring_case(s, "high"@) {
        Some(CssMediaDynamicRange::High)
    } else {
        None
    }
}

pub fn dynamic_range_named(ident: &str) -> (r: Option<CssMediaDynamicRange>)
    ensures
        r == dynamic_range_of(ident@),
{
    if eq_ignore_ascii_case(ident, "standard") {
        Some(CssMediaDynamicRange::Standard)
    } else if eq_ignore_ascii_case(ident, "high") {
        Some(CssMediaDynamicRange::High)
    } else {
        None
    }
}

/// The environment blending keyword an identifier names, ignoring ASCII case.
pub open spec fn environment_blending_of(s: Seq<char>) -> Option<CssMediaEnvironmentBlending> {
    if same_ignoring_case(s, "opaque"@) {
        Some(CssMediaEnvironmentBlending::Opaque)
    } else if same_ignoring_case(s, "additive"@) {
        Some(CssMediaEnvironmentBlending::Additive)
    } else if same_ignoring_case(s, "subtractive"@) {
        Some(CssMediaEnvironmentBlending::Subtractive)
    } else {
        None
    }
}

pub fn environment_blending_named(ident: &str) -> (r: Option<CssMediaEnvironmentBlending>)
    ensures
        r == environment_blending_of(ident@),
{
    if eq_ignore_ascii_case(ident, "opaque") {
        Some(CssMediaEnvironmentBlending::Opaque)
    } else if eq_ignore_ascii_case(ident, "additive") {
        Some(CssMediaEnvironmentBlending::Additive)
    } else if eq_ignore_ascii_case(ident, "subtractive") {
        Some(CssMediaEnvironmentBlending::Subtractive)
    } else {
        None
    }
}

/// The inverted colors keyword an identifier names, ignoring ASCII case.
pub open spec fn inverted_colors_of(s: Seq<char>) -> Option<CssMediaInvertedColors> {
    if same_ignoring_case(s, "none"@) {
        Some(CssMediaInvertedColors::NotInverted)
    } else if same_ignoring_case(s, "inverted"@) {
        Some(CssMediaInvertedColors::Inverted)
    } else {
        None
    }
}

pub fn inverted_colors_named(ident: &str) -> (r: Option<CssMediaInvertedColors>)
    ensures
        r == inverted_colors_of(ident@),
{
    if eq_ignore_ascii_case(ident, "none") {
        Some(CssMediaInvertedColors::NotInverted)
    } else if eq_ignore_ascii_case(ident, "inverted") {
        Some(CssMediaInvertedColors::Inverted)
    } else {
        None
    }
}

/// The nav controls keyword an identifier names, ignoring ASCII case.
pub open spec fn nav_controls_of(s: Seq<char>) -> Option<CssMediaNavigationControls> {
    if same_ignoring_case(s, "none"@) {
        Some(CssMediaNavigationControls::NoControls)
    } else if same_ignoring_case(s, "back"@) {
        Some(CssMediaNavigationControls::Back)
    } else {
        None
    }
}

pub fn nav_controls_named(ident: &str) -> (r: Option<CssMediaNavigationControls>)
    ensures
        r == nav_controls_of(ident@),
{
    if eq_ignore_ascii_case(ident, "none") {
        Some(CssMediaNavigationControls::NoControls)
    } else if eq_ignore_ascii_case(ident, "back") {
        Some(CssMediaNavigationControls::Back)
    } else {
        None
    }
}

/// The scripting keyword an identifier names, ignoring ASCII case.
pub open spec fn scripting_of(s: Seq<char>) -> Option<CssMediaScripting> {
    if same_ignoring_case(s, "none"@) {
        Some(CssMediaScripting::NoScripting)
    } else if same_ignoring_case(s, "initial-only"@) {
        Some(CssMediaScripting::InitialOnly)
    } else if same_ignoring_case(s, "enabled"@) {
        Some(CssMediaScripting::Enabled)
    } else {
        None
    }
}

pub fn scripting_named(ident: &str) -> (r: Option<CssMediaScripting>)
    ensures
        r == scripting_of(ident@),
{
    if eq_ignore_ascii_case(ident, "none") {
        Some(CssMediaScripting::NoScripting)
    } else if eq_ignore_ascii_case(ident, "initial-only") {
        Some(CssMediaScripting::InitialOnly)
    } else if eq_ignore_ascii_case(ident, "enabled") {
        Some(CssMediaScripting::Enabled)
    } else {
        None
    }
}

/// The reduced data keyword an identifier names, ignoring ASCII case.
pub open spec fn reduced_data_of(s: Seq<char>) -> Option<CssMediaReducedDataPreference> {
    if same_ignoring_case(s, "no-preference"@) {
        Some(CssMediaReducedDataPreference::NoPreference)
    } else if same_ignoring_case(s, "reduce"@) {
        Some(CssMediaReducedDataPreference::Reduce)
    } else {
        None
    }
}

pub fn reduced_data_named(ident: &str) -> (r: Option<CssMediaReducedDataPreference>)
    ensures
        r == reduced_data_of(ident@),
{
    if eq_ignore_ascii_case(ident, "no-preference") {
        Some(CssMediaReducedDataPreference::NoPreference)
    } else if eq_ignore_ascii_case(ident, "reduce") {
        Some(CssMediaReducedDataPreference::Reduce)
    } else {
        None
    }
}

/// The query a keyword value makes of a discrete feature other than `grid`, or `None`
/// for a keyword the feature does not take.
pub open spec fn discrete_query_of(kind: CssMediaFeatureKind, s: Seq<char>) -> Option<CssMediaFeatureQuery> {
    match kind {
        CssMediaFeatureKind::Orientation => match orientation_of(s) {
            Some(v) => Some(CssMediaFeatureQuery::Orientation(v)),
            None => None,
        },
        CssMediaFeatureKind::Scan => match scan_mode_of(s) {
            Some(v) => Some(CssMediaFeatureQuery::Scan(v)),
            None => None,
        },
        CssMediaFeatureKind::PrefersColorScheme => match color_scheme_of(s) {
            Some(v) => Some(CssMediaFeatureQuery::PrefersColorScheme(v)),
            None => None,
        },
        CssMediaFeatureKind::PrefersReducedMotion => match reduced_motion_of(s) {
            Some(v) => Some(CssMediaFeatureQuery::PrefersReducedMotion(v)),
            None => None,
        },
        CssMediaFeatureKind::PrefersReducedTransparency => match reduced_transparency_of(s) {
            Some(v) => Some(CssMediaFeatureQuery::PrefersReducedTransparency(v)),
            None => None,
        },
        CssMediaFeatureKind::PrefersContrast => match contrast_of(s) {
            Some(v) => Some(CssMediaFeatureQuery::PrefersContrast(v)),
            None => None,
        },
        CssMediaFeatureKind::ForcedColors => match forced_colors_of(s) {
            Some(v) => Some(CssMediaFeatureQuery::ForcedColors(v)),
            None => None,
        },
        CssMediaFeatureKind::Hover => match hover_of(s) {
            Some(v) => Some(CssMediaFeatureQuery::Hover(v)),
            None => None,
        },
        CssMediaFeatureKind::AnyHover => match hover_of(s) {
            Some(v) => Some(CssMediaFeatureQuery::AnyHover(v)),
            None => None,
        },
        CssMediaFeatureKind::Pointer => match pointer_of(s) {
            Some(v) => Some(CssMediaFeatureQuery::Pointer(v)),
            None => None,
        },
        CssMediaFeatureKind::AnyPointer => match pointer_of(s) {
            Some(v) => Some(CssMediaFeatureQuery::AnyPointer(v)),
            None => None,
        },
        CssMediaFeatureKind::DisplayMode => match display_mode_of(s) {
            Some(v) => Some(CssMediaFeatureQuery::DisplayMode(v)),
            None => None,
        },
        CssMediaFeatureKind::Update => match update_of(s) {
            Some(v) => Some(CssMediaFeatureQuery::Update(v)),
            None => None,
        },
        CssMediaFeatureKind::OverflowBlock => match overflow_block_of(s) {
            Some(v) => Some(CssMediaFeatureQuery::OverflowBlock(v)),
            None => None,
        },
        CssMediaFeatureKind::OverflowInline => match overflow_inline_of(s) {
            Some(v) => Some(CssMediaFeatureQuery::OverflowInline(v)),
            None => None,
        },
        CssMediaFeatureKind::ColorGamut => match color_gamut_of(s) {
            Some(v) => Some(CssMediaFeatureQuery::ColorGamut(v)),
            None => None,
        },
        CssMediaFeatureKind::VideoColorGamut => match color_gamut_of(s) {
            Some(v) => Some(CssMediaFeatureQuery::VideoColorGamut(v)),
            None => None,
        },
        CssMediaFeatureKind::DynamicRange => match dynamic_range_of(s) {
            Some(v) => Some(CssMediaFeatureQuery::DynamicRange(v)),
            None => None,
        },
        CssMediaFeatureKind::VideoDynamicRange => match dynamic_range_of(s) {
            Some(v) => Some(CssMediaFeatureQuery::VideoDynamicRange(v)),
            None => None,
        },
        CssMediaFeatureKind::EnvironmentBlending => match environment_blending_of(s) {
            Some(v) => Some(CssMediaFeatureQuery::EnvironmentBlending(v)),
            None => None,
        },
        CssMediaFeatureKind::InvertedColors => match inverted_colors_of(s) {
            Some(v) => Some(CssMediaFeatureQuery::InvertedColors(v)),
            None => None,
        },
        CssMediaFeatureKind::NavControls => match nav_controls_of(s) {
            Some(v) => Some(CssMediaFeatureQuery::NavControls(v)),
            None => None,
        },
        CssMediaFeatureKind::Scripting => match scripting_of(s) {
            Some(v) => Some(CssMediaFeatureQuery::Scripting(v)),
            None => None,
        },
        CssMediaFeatureKind::PrefersReducedData => match reduced_data_of(s) {
            Some(v) => Some(CssMediaFeatureQuery::PrefersReducedData(v)),
            None => None,
        },
        _ => None,
    }
}

/// An identifier reads as the orientation keyword it spells, ignoring ASCII case
/// (`portrait` or `landscape`), and as nothing else.
pub proof fn lemma_orientation_keywords(s: Seq<char>)
    ensures
        (orientation_of(s) == Some(CssOrientation::Portrait)) <==> same_ignoring_case(s, "portrait"@),
        (orientation_of(s) == Some(CssOrientation::Landscape)) <==> same_ignoring_case(s, "landscape"@),
        orientation_of(s) is None <==> !same_ignoring_case(s, "portrait"@) && !same_ignoring_case(s, "landscape"@),
{
    reveal_strlit("portrait");
    reveal_strlit("landscape");
    lemma_differs_at("portrait"@, "landscape"@, 0);
    lemma_differs_at("landscape"@, "portrait"@, 0);
    if same_ignoring_case(s, "portrait"@) {
        lemma_same_case_shared(s, "portrait"@, "landscape"@);
    }
    if same_ignoring_case(s, "landscape"@) {
        lemma_same_case_shared(s, "landscape"@, "portrait"@);
    }
}

/// An identifier reads as the scan mode keyword it spells, ignoring ASCII case
/// (`progressive` or `interlace`), and as nothing else.
pub proof fn lemma_scan_mode_keywords(s: Seq<char>)
    ensures
        (scan_mode_of(s) == Some(CssScanMode::Progressive)) <==> same_ignoring_case(s, "progressive"@),
        (scan_mode_of(s) == Some(CssScanMode::Interlace)) <==> same_ignoring_case(s, "interlace"@),
        scan_mode_of(s) is None <==> !same_ignoring_case(s, "progressive"@) && !same_ignoring_case(s, "interlace"@),
{
    reveal_strlit("progressive");
    reveal_strlit("interlace");
    lemma_differs_at("progressive"@, "interlace"@, 0);
    lemma_differs_at("interlace"@, "progressive"@, 0);
    if same_ignoring_case(s, "progressive"@) {
        lemma_same_case_shared(s, "progressive"@, "interlace"@);
    }
    if same_ignoring_case(s, "interlace"@) {
        lemma_same_case_shared(s, "interlace"@, "progressive"@);
    }
}

/// An identifier reads as the color scheme keyword it spells, ignoring ASCII case
/// (`light` or `dark`), and as nothing else.
pub proof fn lemma_color_scheme_keywords(s: Seq<char>)
    ensures
        (color_scheme_of(s) == Some(CssColorSchemePreference::Light)) <==> same_ignoring_case(s, "light"@),
        (color_scheme_of(s) == Some(CssColorSchemePreference::Dark)) <==> same_ignoring_case(s, "dark"@),
        color_scheme_of(s) is None <==> !same_ignoring_case(s, "light"@) && !same_ignoring_case(s, "dark"@),
{
    reveal_strlit("light");
    reveal_strlit("dark");
    lemma_differs_at("light"@, "dark"@, 0);
    lemma_differs_at("dark"@, "light"@, 0);
    if same_ignoring_case(s, "light"@) {
        lemma_same_case_shared(s, "light"@, "dark"@);
    }
    if same_ignoring_case(s, "dark"@) {
        lemma_same_case_shared(s, "dark"@, "light"@);
    }
}

/// An identifier reads as the reduced motion keyword it spells, ignoring ASCII case
/// (`reduce` or `no-preference`), and as nothing else.
pub proof fn lemma_reduced_motion_keywords(s: Seq<char>)
    ensures
        (reduced_motion_of(s) == Some(CssReducedMotionPreference::Reduce)) <==> same_ignoring_case(s, "reduce"@),
        (reduced_motion_of(s) == Some(CssReducedMotionPreference::NoPreference)) <==> same_ignoring_case(s, "no-preference"@),
        reduced_motion_of(s) is None <==> !same_ignoring_case(s, "reduce"@) && !same_ignoring_case(s, "no-preference"@),
{
    reveal_strlit("reduce");
    reveal_strlit("no-preference");
    lemma_differs_at("reduce"@, "no-preference"@, 0);
    lemma_differs_at("no-preference"@, "reduce"@, 0);
    if same_ignoring_case(s, "reduce"@) {
        lemma_same_case_shared(s, "reduce"@, "no-preference"@);
    }
    if same_ignoring_case(s, "no-preference"@) {
        lemma_same_case_shared(s, "no-preference"@, "reduce"@);
    }
}

/// An identifier reads as the reduced transparency keyword it spells, ignoring ASCII case
/// (`reduce` or `no-preference`), and as nothing else.
pub proof fn lemma_reduced_transparency_keywords(s: Seq<char>)
    ensures
        (reduced_transparency_of(s) == Some(CssReducedTransparencyPreference::Reduce)) <==> same_ignoring_case(s, "reduce"@),
        (reduced_transparency_of(s) == Some(CssReducedTransparencyPreference::NoPreference)) <==> same_ignoring_case(s, "no-preference"@),
        reduced_transparency_of(s) is None <==> !same_ignoring_case(s, "reduce"@) && !same_ignoring_case(s, "no-preference"@),
{
    reveal_strlit("reduce");
    reveal_strlit("no-preference");
    lemma_differs_at("reduce"@, "no-preference"@, 0);
    lemma_differs_at("no-preference"@, "reduce"@, 0);
    if same_ignoring_case(s, "reduce"@) {
        lemma_same_case_shared(s, "reduce"@, "no-preference"@);
    }
    if same_ignoring_case(s, "no-preference"@) {
        lemma_same_case_shared(s, "no-preference"@, "reduce"@);
    }
}

/// An identifier reads as the contrast keyword it spells, ignoring ASCII case
/// (`no-preference` or `more` or `less` or `custom`), and as nothing else.
pub proof fn lemma_contrast_keywords(s: Seq<char>)
    ensures
        (contrast_of(s) == Some(CssContrastPreference::NoPreference)) <==> same_ignoring_case(s, "no-preference"@),
        (contrast_of(s) == Some(CssContrastPreference::More)) <==> same_ignoring_case(s, "more"@),
        (contrast_of(s) == Some(CssContrastPreference::Less)) <==> same_ignoring_case(s, "less"@),
        (contrast_of(s) == Some(CssContrastPreference::Custom)) <==> same_ignoring_case(s, "custom"@),
        contrast_of(s) is None <==> !same_ignoring_case(s, "no-preference"@) && !same_ignoring_case(s, "more"@) && !same_ignoring_case(s, "less"@) && !same_ignoring_case(s, "custom"@),
{
    reveal_strlit("no-preference");
    reveal_strlit("more");
    reveal_strlit("less");
    reveal_strlit("custom");
    lemma_differs_at("no-preference"@, "more"@, 0);
    lemma_differs_at("no-preference"@, "less"@, 0);
    lemma_differs_at("no-preference"@, "custom"@, 0);
    lemma_differs_at("more"@, "no-preference"@, 0);
    lemma_differs_at("more"@, "less"@, 0);
    lemma_differs_at("more"@, "custom"@, 0);
    lemma_differs_at("less"@, "no-preference"@, 0);
    lemma_differs_at("less"@, "more"@, 0);
    lemma_differs_at("less"@, "custom"@, 0);
    lemma_differs_at("custom"@, "no-preference"@, 0);
    lemma_differs_at("custom"@, "more"@, 0);
    lemma_differs_at("custom"@, "less"@, 0);
    if same_ignoring_case(s, "no-preference"@) {
        lemma_same_case_shared(s, "no-preference"@, "more"@);
        lemma_same_case_shared(s, "no-preference"@, "less"@);
        lemma_same_case_shared(s, "no-preference"@, "custom"@);
    }
    if same_ignoring_case(s, "more"@) {
        lemma_same_case_shared(s, "more"@, "no-preference"@);
        lemma_same_case_shared(s, "more"@, "less"@);
        lemma_same_case_shared(s, "more"@, "custom"@);
    }
    if same_ignoring_case(s, "less"@) {
        lemma_same_case_shared(s, "less"@, "no-preference"@);
        lemma_same_case_shared(s, "less"@, "more"@);
        lemma_same_case_shared(s, "less"@, "custom"@);
    }
    if same_ignoring_case(s, "custom"@) {
        lemma_same_case_shared(s, "custom"@, "no-preference"@);
        lemma_same_case_shared(s, "custom"@, "more"@);
        lemma_same_case_shared(s, "custom"@, "less"@);
    }
}

/// An identifier reads as the forced colors keyword it spells, ignoring ASCII case
/// (`none` or `active`), and as nothing else.
pub proof fn lemma_forced_colors_keywords(s: Seq<char>)
    ensures
        (forced_colors_of(s) == Some(CssForcedColorsMode::Inactive)) <==> same_ignoring_case(s, "none"@),
        (forced_colors_of(s) == Some(CssForcedColorsMode::Active)) <==> same_ignoring_case(s, "active"@),
        forced_colors_of(s) is None <==> !same_ignoring_case(s, "none"@) && !same_ignoring_case(s, "active"@),
{
    reveal_strlit("none");
    reveal_strlit("active");
    lemma_differs_at("none"@, "active"@, 0);
    lemma_differs_at("active"@, "none"@, 0);
    if same_ignoring_case(s, "none"@) {
        lemma_same_case_shared(s, "none"@, "active"@);
    }
    if same_ignoring_case(s, "active"@) {
        lemma_same_case_shared(s, "active"@, "none"@);
    }
}

/// An identifier reads as the hover keyword it spells, ignoring ASCII case
/// (`none` or `hover`), and as nothing else.
pub proof fn lemma_hover_keywords(s: Seq<char>)
    ensures
        (hover_of(s) == Some(CssHoverCapability::NoHover)) <==> same_ignoring_case(s, "none"@),
        (hover_of(s) == Some(CssHoverCapability::Hover)) <==> same_ignoring_case(s, "hover"@),
        hover_of(s) is None <==> !same_ignoring_case(s, "none"@) && !same_ignoring_case(s, "hover"@),
{
    reveal_strlit("none");
    reveal_strlit("hover");
    lemma_differs_at("none"@, "hover"@, 0);
    lemma_differs_at("hover"@, "none"@, 0);
    if same_ignoring_case(s, "none"@) {
        lemma_same_case_shared(s, "none"@, "hover"@);
    }
    if same_ignoring_case(s, "hover"@) {
        lemma_same_case_shared(s, "hover"@, "none"@);
    }
}

/// An identifier reads as the pointer keyword it spells, ignoring ASCII case
/// (`none` or `coarse` or `fine`), and as nothing else.
pub proof fn lemma_pointer_keywords(s: Seq<char>)
    ensures
        (pointer_of(s) == Some(CssPointerCapability::NoPointer)) <==> same_ignoring_case(s, "none"@),
        (pointer_of(s) == Some(CssPointerCapability::Coarse)) <==> same_ignoring_case(s, "coarse"@),
        (pointer_of(s) == Some(CssPointerCapability::Fine)) <==> same_ignoring_case(s, "fine"@),
        pointer_of(s) is None <==> !same_ignoring_case(s, "none"@) && !same_ignoring_case(s, "coarse"@) && !same_ignoring_case(s, "fine"@),
{
    reveal_strlit("none");
    reveal_strlit("coarse");
    reveal_strlit("fine");
    lemma_differs_at("none"@, "coarse"@, 0);
    lemma_differs_at("none"@, "fine"@, 0);
    lemma_differs_at("coarse"@, "none"@, 0);
    lemma_differs_at("coarse"@, "fine"@, 0);
    lemma_differs_at("fine"@, "none"@, 0);
    lemma_differs_at("fine"@, "coarse"@, 0);
    if same_ignoring_case(s, "none"@) {
        lemma_same_case_shared(s, "none"@, "coarse"@);
        lemma_same_case_shared(s, "none"@, "fine"@);
    }
    if same_ignoring_case(s, "coarse"@) {
        lemma_same_case_shared(s, "coarse"@, "none"@);
        lemma_same_case_shared(s, "coarse"@, "fine"@);
    }
    if same_ignoring_case(s, "fine"@) {
        lemma_same_case_shared(s, "fine"@, "none"@);
        lemma_same_case_shared(s, "fine"@, "coarse"@);
    }
}

/// An identifier reads as the display mode keyword it spells, ignoring ASCII case
/// (`fullscreen` or `standalone` or `minimal-ui` or `browser` or `picture-in-picture`), and as nothing else.
pub proof fn lemma_display_mode_keywords(s: Seq<char>)
    ensures
        (display_mode_of(s) == Some(CssDisplayMode::Fullscreen)) <==> same_ignoring_case(s, "fullscreen"@),
        (display_mode_of(s) == Some(CssDisplayMode::Standalone)) <==> same_ignoring_case(s, "standalone"@),
        (display_mode_of(s) == Some(CssDisplayMode::MinimalUi)) <==> same_ignoring_case(s, "minimal-ui"@),
        (display_mode_of(s) == Some(CssDisplayMode::Browser)) <==> same_ignoring_case(s, "browser"@),
        (display_mode_of(s) == Some(CssDisplayMode::PictureInPicture)) <==> same_ignoring_case(s, "picture-in-picture"@),
        display_mode_of(s) is None <==> !same_ignoring_case(s, "fullscreen"@) && !same_ignoring_case(s, "standalone"@) && !same_ignoring_case(s, "minimal-ui"@) && !same_ignoring_case(s, "browser"@) && !same_ignoring_case(s, "picture-in-picture"@),
{
    reveal_strlit("fullscreen");
    reveal_strlit("standalone");
    reveal_strlit("minimal-ui");
    reveal_strlit("browser");
    reveal_strlit("picture-in-picture");
    lemma_differs_at("fullscreen"@, "standalone"@, 0);
    lemma_differs_at("fullscreen"@, "minimal-ui"@, 0);
    lemma_differs_at("fullscreen"@, "browser"@, 0);
    lemma_differs_at("fullscreen"@, "picture-in-picture"@, 0);
    lemma_differs_at("standalone"@, "fullscreen"@, 0);
    lemma_differs_at("standalone"@, "minimal-ui"@, 0);
    lemma_differs_at("standalone"@, "browser"@, 0);
    lemma_differs_at("standalone"@, "picture-in-picture"@, 0);
    lemma_differs_at("minimal-ui"@, "fullscreen"@, 0);
    lemma_differs_at("minimal-ui"@, "standalone"@, 0);
    lemma_differs_at("minimal-ui"@, "browser"@, 0);
    lemma_differs_at("minimal-ui"@, "picture-in-picture"@, 0);
    lemma_differs_at("browser"@, "fullscreen"@, 0);
    lemma_differs_at("browser"@, "standalone"@, 0);
    lemma_differs_at("browser"@, "minimal-ui"@, 0);
    lemma_differs_at("browser"@, "picture-in-picture"@, 0);
    lemma_differs_at("picture-in-picture"@, "fullscreen"@, 0);
    lemma_differs_at("picture-in-picture"@, "standalone"@, 0);
    lemma_differs_at("picture-in-picture"@, "minimal-ui"@, 0);
    lemma_differs_at("picture-in-picture"@, "browser"@, 0);
    if same_ignoring_case(s, "fullscreen"@) {
        lemma_same_case_shared(s, "fullscreen"@, "standalone"@);
        lemma_same_case_shared(s, "fullscreen"@, "minimal-ui"@);
        lemma_same_case_shared(s, "fullscreen"@, "browser"@);
        lemma_same_case_shared(s, "fullscreen"@, "picture-in-picture"@);
    }
    if same_ignoring_case(s, "standalone"@) {
        lemma_same_case_shared(s, "standalone"@, "fullscreen"@);
        lemma_same_case_shared(s, "standalone"@, "minimal-ui"@);
        lemma_same_case_shared(s, "standalone"@, "browser"@);
        lemma_same_case_shared(s, "standalone"@, "picture-in-picture"@);
    }
    if same_ignoring_case(s, "minimal-ui"@) {
        lemma_same_case_shared(s, "minimal-ui"@, "fullscreen"@);
        lemma_same_case_shared(s, "minimal-ui"@, "standalone"@);
        lemma_same_case_shared(s, "minimal-ui"@, "browser"@);
        lemma_same_case_shared(s, "minimal-ui"@, "picture-in-picture"@);
    }
    if same_ignoring_case(s, "browser"@) {
        lemma_same_case_shared(s, "browser"@, "fullscreen"@);
        lemma_same_case_shared(s, "browser"@, "standalone"@);
        lemma_same_case_shared(s, "browser"@, "minimal-ui"@);
        lemma_same_case_shared(s, "browser"@, "picture-in-picture"@);
    }
    if same_ignoring_case(s, "picture-in-picture"@) {
        lemma_same_case_shared(s, "picture-in-picture"@, "fullscreen"@);
        lemma_same_case_shared(s, "picture-in-picture"@, "standalone"@);
        lemma_same_case_shared(s, "picture-in-picture"@, "minimal-ui"@);
        lemma_same_case_shared(s, "picture-in-picture"@, "browser"@);
    }
}

/// An identifier reads as the update keyword it spells, ignoring ASCII case
/// (`none` or `slow` or `fast`), and as nothing else.
pub proof fn lemma_update_keywords(s: Seq<char>)
    ensures
        (update_of(s) == Some(CssMediaUpdate::NoUpdate)) <==> same_ignoring_case(s, "none"@),
        (update_of(s) == Some(CssMediaUpdate::Slow)) <==> same_ignoring_case(s, "slow"@),
        (update_of(s) == Some(CssMediaUpdate::Fast)) <==> same_ignoring_case(s, "fast"@),
        update_of(s) is None <==> !same_ignoring_case(s, "none"@) && !same_ignoring_case(s, "slow"@) && !same_ignoring_case(s, "fast"@),
{
    reveal_strlit("none");
    reveal_strlit("slow");
    reveal_strlit("fast");
    lemma_differs_at("none"@, "slow"@, 0);
    lemma_differs_at("none"@, "fast"@, 0);
    lemma_differs_at("slow"@, "none"@, 0);
    lemma_differs_at("slow"@, "fast"@, 0);
    lemma_differs_at("fast"@, "none"@, 0);
    lemma_differs_at("fast"@, "slow"@, 0);
    if same_ignoring_case(s, "none"@) {
        lemma_same_case_shared(s, "none"@, "slow"@);
        lemma_same_case_shared(s, "none"@, "fast"@);
    }
    if same_ignoring_case(s, "slow"@) {
        lemma_same_case_shared(s, "slow"@, "none"@);
        lemma_same_case_shared(s, "slow"@, "fast"@);
    }
    if same_ignoring_case(s, "fast"@) {
        lemma_same_case_shared(s, "fast"@, "none"@);
        lemma_same_case_shared(s, "fast"@, "slow"@);
    }
}

/// An identifier reads as the overflow block keyword it spells, ignoring ASCII case
/// (`none` or `scroll` or `paged`), and as nothing else.
pub proof fn lemma_overflow_block_keywords(s: Seq<char>)
    ensures
        (overflow_block_of(s) == Some(CssMediaOverflowBlock::NoOverflow)) <==> same_ignoring_case(s, "none"@),
        (overflow_block_of(s) == Some(CssMediaOverflowBlock::Scroll)) <==> same_ignoring_case(s, "scroll"@),
        (overflow_block_of(s) == Some(CssMediaOverflowBlock::Paged)) <==> same_ignoring_case(s, "paged"@),
        overflow_block_of(s) is None <==> !same_ignoring_case(s, "none"@) && !same_ignoring_case(s, "scroll"@) && !same_ignoring_case(s, "paged"@),
{
    reveal_strlit("none");
    reveal_strlit("scroll");
    reveal_strlit("paged");
    lemma_differs_at("none"@, "scroll"@, 0);
    lemma_differs_at("none"@, "paged"@, 0);
    lemma_differs_at("scroll"@, "none"@, 0);
    lemma_differs_at("scroll"@, "paged"@, 0);
    lemma_differs_at("paged"@, "none"@, 0);
    lemma_differs_at("paged"@, "scroll"@, 0);
    if same_ignoring_case(s, "none"@) {
        lemma_same_case_shared(s, "none"@, "scroll"@);
        lemma_same_case_shared(s, "none"@, "paged"@);
    }
    if same_ignoring_case(s, "scroll"@) {
        lemma_same_case_shared(s, "scroll"@, "none"@);
        lemma_same_case_shared(s, "scroll"@, "paged"@);
    }
    if same_ignoring_case(s, "paged"@) {
        lemma_same_case_shared(s, "paged"@, "none"@);
        lemma_same_case_shared(s, "paged"@, "scroll"@);
    }
}

/// An identifier reads as the overflow inline keyword it spells, ignoring ASCII case
/// (`none` or `scroll`), and as nothing else.
pub proof fn lemma_overflow_inline_keywords(s: Seq<char>)
    ensures
        (overflow_inline_of(s) == Some(CssMediaOverflowInline::NoOverflow)) <==> same_ignoring_case(s, "none"@),
        (overflow_inline_of(s) == Some(CssMediaOverflowInline::Scroll)) <==> same_ignoring_case(s, "scroll"@),
        overflow_inline_of(s) is None <==> !same_ignoring_case(s, "none"@) && !same_ignoring_case(s, "scroll"@),
{
    reveal_strlit("none");
    reveal_strlit("scroll");
    lemma_differs_at("none"@, "scroll"@, 0);
    lemma_differs_at("scroll"@, "none"@, 0);
    if same_ignoring_case(s, "none"@) {
        lemma_same_case_shared(s, "none"@, "scroll"@);
    }
    if same_ignoring_case(s, "scroll"@) {
        lemma_same_case_shared(s, "scroll"@, "none"@);
    }
}

/// An identifier reads as the color gamut keyword it spells, ignoring ASCII case
/// (`srgb` or `p3` or `rec2020`), and as nothing else.
pub proof fn lemma_color_gamut_keywords(s: Seq<char>)
    ensures
        (color_gamut_of(s) == Some(CssMediaColorGamut::Srgb)) <==> same_ignoring_case(s, "srgb"@),
        (color_gamut_of(s) == Some(CssMediaColorGamut::P3)) <==> same_ignoring_case(s, "p3"@),
        (color_gamut_of(s) == Some(CssMediaColorGamut::Rec2020)) <==> same_ignoring_case(s, "rec2020"@),
        color_gamut_of(s) is None <==> !same_ignoring_case(s, "srgb"@) && !same_ignoring_case(s, "p3"@) && !same_ignoring_case(s, "rec2020"@),
{
    reveal_strlit("srgb");
    reveal_strlit("p3");
    reveal_strlit("rec2020");
    lemma_differs_at("srgb"@, "p3"@, 0);
    lemma_differs_at("srgb"@, "rec2020"@, 0);
    lemma_differs_at("p3"@, "srgb"@, 0);
    lemma_differs_at("p3"@, "rec2020"@, 0);
    lemma_differs_at("rec2020"@, "srgb"@, 0);
    lemma_differs_at("rec2020"@, "p3"@, 0);
    if same_ignoring_case(s, "srgb"@) {
        lemma_same_case_shared(s, "srgb"@, "p3"@);
        lemma_same_case_shared(s, "srgb"@, "rec2020"@);
    }
    if same_ignoring_case(s, "p3"@) {
        lemma_same_case_shared(s, "p3"@, "srgb"@);
        lemma_same_case_shared(s, "p3"@, "rec2020"@);
    }
    if same_ignoring_case(s, "rec2020"@) {
        lemma_same_case_shared(s, "rec2020"@, "srgb"@);
        lemma_same_case_shared(s, "rec2020"@, "p3"@);
    }
}

/// An identifier reads as the dynamic range keyword it spells, ignoring ASCII case
/// (`standard` or `high`), and as nothing else.
pub proof fn lemma_dynamic_range_keywords(s: Seq<char>)
    ensures
        (dynamic_range_of(s) == Some(CssMediaDynamicRange::Standard)) <==> same_ignoring_case(s, "standard"@),
        (dynamic_range_of(s) == Some(CssMediaDynamicRange::High)) <==> same_ignoring_case(s, "high"@),
        dynamic_range_of(s) is None <==> !same_ignoring_case(s, "standard"@) && !same_ignoring_case(s, "high"@),
{
    reveal_strlit("standard");
    reveal_strlit("high");
    lemma_differs_at("standard"@, "high"@, 0);
    lemma_differs_at("high"@, "standard"@, 0);
    if same_ignoring_case(s, "standard"@) {
        lemma_same_case_shared(s, "standard"@, "high"@);
    }
    if same_ignoring_case(s, "high"@) {
        lemma_same_case_shared(s, "high"@, "standard"@);
    }
}

/// An identifier reads as the environment blending keyword it spells, ignoring ASCII case
/// (`opaque` or `additive` or `subtractive`), and as nothing else.
pub proof fn lemma_environment_blending_keywords(s: Seq<char>)
    ensures
        (environment_blending_of(s) == Some(CssMediaEnvironmentBlending::Opaque)) <==> same_ignoring_case(s, "opaque"@),
        (environment_blending_of(s) == Some(CssMediaEnvironmentBlending::Additive)) <==> same_ignoring_case(s, "additive"@),
        (environment_blending_of(s) == Some(CssMediaEnvironmentBlending::Subtractive)) <==> same_ignoring_case(s, "subtractive"@),
        environment_blending_of(s) is None <==> !same_ignoring_case(s, "opaque"@) && !same_ignoring_case(s, "additive"@) && !same_ignoring_case(s, "subtractive"@),
{
    reveal_strlit("opaque");
    reveal_strlit("additive");
    reveal_strlit("subtractive");
    lemma_differs_at("opaque"@, "additive"@, 0);
    lemma_differs_at("opaque"@, "subtractive"@, 0);
    lemma_differs_at("additive"@, "opaque"@, 0);
    lemma_differs_at("additive"@, "subtractive"@, 0);
    lemma_differs_at("subtractive"@, "opaque"@, 0);
    lemma_differs_at("subtractive"@, "additive"@, 0);
    if same_ignoring_case(s, "opaque"@) {
        lemma_same_case_shared(s, "opaque"@, "additive"@);
        lemma_same_case_shared(s, "opaque"@, "subtractive"@);
    }
    if same_ignoring_case(s, "additive"@) {
        lemma_same_case_shared(s, "additive"@, "opaque"@);
        lemma_same_case_shared(s, "additive"@, "subtractive"@);
    }
    if same_ignoring_case(s, "subtractive"@) {
        lemma_same_case_shared(s, "subtractive"@, "opaque"@);
        lemma_same_case_shared(s, "subtractive"@, "additive"@);
    }
}

/// An identifier reads as the inverted colors keyword it spells, ignoring ASCII case
/// (`none` or `inverted`), and as nothing else.
pub proof fn lemma_inverted_colors_keywords(s: Seq<char>)
    ensures
        (inverted_colors_of(s) == Some(CssMediaInvertedColors::NotInverted)) <==> same_ignoring_case(s, "none"@),
        (inverted_colors_of(s) == Some(CssMediaInvertedColors::Inverted)) <==> same_ignoring_case(s, "inverted"@),
        inverted_colors_of(s) is None <==> !same_ignoring_case(s, "none"@) && !same_ignoring_case(s, "inverted"@),
{
    reveal_strlit("none");
    reveal_strlit("inverted");
    lemma_differs_at("none"@, "inverted"@, 0);
    lemma_differs_at("inverted"@, "none"@, 0);
    if same_ignoring_case(s, "none"@) {
        lemma_same_case_shared(s, "none"@, "inverted"@);
    }
    if same_ignoring_case(s, "inverted"@) {
        lemma_same_case_shared(s, "inverted"@, "none"@);
    }
}

/// An identifier reads as the nav controls keyword it spells, ignoring ASCII case
/// (`none` or `back`), and as nothing else.
pub proof fn lemma_nav_controls_keywords(s: Seq<char>)
    ensures
        (nav_controls_of(s) == Some(CssMediaNavigationControls::NoControls)) <==> same_ignoring_case(s, "none"@),
        (nav_controls_of(s) == Some(CssMediaNavigationControls::Back)) <==> same_ignoring_case(s, "back"@),
        nav_controls_of(s) is None <==> !same_ignoring_case(s, "none"@) && !same_ignoring_case(s, "back"@),
{
    reveal_strlit("none");
    reveal_strlit("back");
    lemma_differs_at("none"@, "back"@, 0);
    lemma_differs_at("back"@, "none"@, 0);
    if same_ignoring_case(s, "none"@) {
        lemma_same_case_shared(s, "none"@, "back"@);
    }
    if same_ignoring_case(s, "back"@) {
        lemma_same_case_shared(s, "back"@, "none"@);
    }
}

/// An identifier reads as the scripting keyword it spells, ignoring ASCII case
/// (`none` or `initial-only` or `enabled`), and as nothing else.
pub proof fn lemma_scripting_keywords(s: Seq<char>)
    ensures
        (scripting_of(s) == Some(CssMediaScripting::NoScripting)) <==> same_ignoring_case(s, "none"@),
        (scripting_of(s) == Some(CssMediaScripting::InitialOnly)) <==> same_ignoring_case(s, "initial-only"@),
        (scripting_of(s) == Some(CssMediaScripting::Enabled)) <==> same_ignoring_case(s, "enabled"@),
        scripting_of(s) is None <==> !same_ignoring_case(s, "none"@) && !same_ignoring_case(s, "initial-only"@) && !same_ignoring_case(s, "enabled"@),
{
    reveal_strlit("none");
    reveal_strlit("initial-only");
    reveal_strlit("enabled");
    lemma_differs_at("none"@, "initial-only"@, 0);
    lemma_differs_at("none"@, "enabled"@, 0);
    lemma_differs_at("initial-only"@, "none"@, 0);
    lemma_differs_at("initial-only"@, "enabled"@, 0);
    lemma_differs_at("enabled"@, "none"@, 0);
    lemma_differs_at("enabled"@, "initial-only"@, 0);
    if same_ignoring_case(s, "none"@) {
        lemma_same_case_shared(s, "none"@, "initial-only"@);
        lemma_same_case_shared(s, "none"@, "enabled"@);
    }
    if same_ignoring_case(s, "initial-only"@) {
        lemma_same_case_shared(s, "initial-only"@, "none"@);
        lemma_same_case_shared(s, "initial-only"@, "enabled"@);
    }
    if same_ignoring_case(s, "enabled"@) {
        lemma_same_case_shared(s, "enabled"@, "none"@);
        lemma_same_case_shared(s, "enabled"@, "initial-only"@);
    }
}

/// An identifier reads as the reduced data keyword it spells, ignoring ASCII case
/// (`no-preference` or `reduce`), and as nothing else.
pub proof fn lemma_reduced_data_keywords(s: Seq<char>)
    ensures
        (reduced_data_of(s) == Some(CssMediaReducedDataPreference::NoPreference)) <==> same_ignoring_case(s, "no-preference"@),
        (reduced_data_of(s) == Some(CssMediaReducedDataPreference::Reduce)) <==> same_ignoring_case(s, "reduce"@),
        reduced_data_of(s) is None <==> !same_ignoring_case(s, "no-preference"@) && !same_ignoring_case(s, "reduce"@),
{
    reveal_strlit("no-preference");
    reveal_strlit("reduce");
    lemma_differs_at("no-preference"@, "reduce"@, 0);
    lemma_differs_at("reduce"@, "no-preference"@, 0);
    if same_ignoring_case(s, "no-preference"@) {
        lemma_same_case_shared(s, "no-preference"@, "reduce"@);
    }
    if same_ignoring_case(s, "reduce"@) {
        lemma_same_case_shared(s, "reduce"@, "no-preference"@);
    }
}

/// A discrete feature's keyword value reads as a query of that same feature, holding the
/// value whose keyword the identifier spells, ignoring ASCII case.
#[verifier::spinoff_prover]
#[verifier::rlimit(100)]
pub proof fn lemma_discrete_query_keywords(kind: CssMediaFeatureKind, s: Seq<char>)
    ensures
        discrete_query_of(kind, s) matches Some(q) ==> crate::media_features::query_kind(q) == kind,
        (discrete_query_of(CssMediaFeatureKind::Orientation, s) == Some(CssMediaFeatureQuery::Orientation(CssOrientation::Portrait))) <==> same_ignoring_case(s, "portrait"@),
        (discrete_query_of(CssMediaFeatureKind::Orientation, s) == Some(CssMediaFeatureQuery::Orientation(CssOrientation::Landscape))) <==> same_ignoring_case(s, "landscape"@),
        (discrete_query_of(CssMediaFeatureKind::Scan, s) == Some(CssMediaFeatureQuery::Scan(CssScanMode::Progressive))) <==> same_ignoring_case(s, "progressive"@),
        (discrete_query_of(CssMediaFeatureKind::Scan, s) == Some(CssMediaFeatureQuery::Scan(CssScanMode::Interlace))) <==> same_ignoring_case(s, "interlace"@),
        (discrete_query_of(CssMediaFeatureKind::PrefersColorScheme, s) == Some(CssMediaFeatureQuery::PrefersColorScheme(CssColorSchemePreference::Light))) <==> same_ignoring_case(s, "light"@),
        (discrete_query_of(CssMediaFeatureKind::PrefersColorScheme, s) == Some(CssMediaFeatureQuery::PrefersColorScheme(CssColorSchemePreference::Dark))) <==> same_ignoring_case(s, "dark"@),
        (discrete_query_of(CssMediaFeatureKind::PrefersReducedMotion, s) == Some(CssMediaFeatureQuery::PrefersReducedMotion(CssReducedMotionPreference::Reduce))) <==> same_ignoring_case(s, "reduce"@),
        (discrete_query_of(CssMediaFeatureKind::PrefersReducedMotion, s) == Some(CssMediaFeatureQuery::PrefersReducedMotion(CssReducedMotionPreference::NoPreference))) <==> same_ignoring_case(s, "no-preference"@),
        (discrete_query_of(CssMediaFeatureKind::PrefersReducedTransparency, s) == Some(CssMediaFeatureQuery::PrefersReducedTransparency(CssReducedTransparencyPreference::Reduce))) <==> same_ignoring_case(s, "reduce"@),
        (discrete_query_of(CssMediaFeatureKind::PrefersReducedTransparency, s) == Some(CssMediaFeatureQuery::PrefersReducedTransparency(CssReducedTransparencyPreference::NoPreference))) <==> same_ignoring_case(s, "no-preference"@),
        (discrete_query_of(CssMediaFeatureKind::PrefersContrast, s) == Some(CssMediaFeatureQuery::PrefersContrast(CssContrastPreference::NoPreference))) <==> same_ignoring_case(s, "no-preference"@),
        (discrete_query_of(CssMediaFeatureKind::PrefersContrast, s) == Some(CssMediaFeatureQuery::PrefersContrast(CssContrastPreference::More))) <==> same_ignoring_case(s, "more"@),
        (discrete_query_of(CssMediaFeatureKind::PrefersContrast, s) == Some(CssMediaFeatureQuery::PrefersContrast(CssContrastPreference::Less))) <==> same_ignoring_case(s, "less"@),
        (discrete_query_of(CssMediaFeatureKind::PrefersContrast, s) == Some(CssMediaFeatureQuery::PrefersContrast(CssContrastPreference::Custom))) <==> same_ignoring_case(s, "custom"@),
        (discrete_query_of(CssMediaFeatureKind::ForcedColors, s) == Some(CssMediaFeatureQuery::ForcedColors(CssForcedColorsMode::Inactive))) <==> same_ignoring_case(s, "none"@),
        (discrete_query_of(CssMediaFeatureKind::ForcedColors, s) == Some(CssMediaFeatureQuery::ForcedColors(CssForcedColorsMode::Active))) <==> same_ignoring_case(s, "active"@),
        (discrete_query_of(CssMediaFeatureKind::Hover, s) == Some(CssMediaFeatureQuery::Hover(CssHoverCapability::NoHover))) <==> same_ignoring_case(s, "none"@),
        (discrete_query_of(CssMediaFeatureKind::Hover, s) == Some(CssMediaFeatureQuery::Hover(CssHoverCapability::Hover))) <==> same_ignoring_case(s, "hover"@),
        (discrete_query_of(CssMediaFeatureKind::AnyHover, s) == Some(CssMediaFeatureQuery::AnyHover(CssHoverCapability::NoHover))) <==> same_ignoring_case(s, "none"@),
        (discrete_query_of(CssMediaFeatureKind::AnyHover, s) == Some(CssMediaFeatureQuery::AnyHover(CssHoverCapability::Hover))) <==> same_ignoring_case(s, "hover"@),
        (discrete_query_of(CssMediaFeatureKind::Pointer, s) == Some(CssMediaFeatureQuery::Pointer(CssPointerCapability::NoPointer))) <==> same_ignoring_case(s, "none"@),
        (discrete_query_of(CssMediaFeatureKind::Pointer, s) == Some(CssMediaFeatureQuery::Pointer(CssPointerCapability::Coarse))) <==> same_ignoring_case(s, "coarse"@),
        (discrete_query_of(CssMediaFeatureKind::Pointer, s) == Some(CssMediaFeatureQuery::Pointer(CssPointerCapability::Fine))) <==> same_ignoring_case(s, "fine"@),
        (discrete_query_of(CssMediaFeatureKind::AnyPointer, s) == Some(CssMediaFeatureQuery::AnyPointer(CssPointerCapability::NoPointer))) <==> same_ignoring_case(s, "none"@),
        (discrete_query_of(CssMediaFeatureKind::AnyPointer, s) == Some(CssMediaFeatureQuery::AnyPointer(CssPointerCapability::Coarse))) <==> same_ignoring_case(s, "coarse"@),
        (discrete_query_of(CssMediaFeatureKind::AnyPointer, s) == Some(CssMediaFeatureQuery::AnyPointer(CssPointerCapability::Fine))) <==> same_ignoring_case(s, "fine"@),
        (discrete_query_of(CssMediaFeatureKind::DisplayMode, s) == Some(CssMediaFeatureQuery::DisplayMode(CssDisplayMode::Fullscreen))) <==> same_ignoring_case(s, "fullscreen"@),
        (discrete_query_of(CssMediaFeatureKind::DisplayMode, s) == Some(CssMediaFeatureQuery::DisplayMode(CssDisplayMode::Standalone))) <==> same_ignoring_case(s, "standalone"@),
        (discrete_query_of(CssMediaFeatureKind::DisplayMode, s) == Some(CssMediaFeatureQuery::DisplayMode(CssDisplayMode::MinimalUi))) <==> same_ignoring_case(s, "minimal-ui"@),
        (discrete_query_of(CssMediaFeatureKind::DisplayMode, s) == Some(CssMediaFeatureQuery::DisplayMode(CssDisplayMode::Browser))) <==> same_ignoring_case(s, "browser"@),
        (discrete_query_of(CssMediaFeatureKind::DisplayMode, s) == Some(CssMediaFeatureQuery::DisplayMode(CssDisplayMode::PictureInPicture))) <==> same_ignoring_case(s, "picture-in-picture"@),
        (discrete_query_of(CssMediaFeatureKind::Update, s) == Some(CssMediaFeatureQuery::Update(CssMediaUpdate::NoUpdate))) <==> same_ignoring_case(s, "none"@),
        (discrete_query_of(CssMediaFeatureKind::Update, s) == Some(CssMediaFeatureQuery::Update(CssMediaUpdate::Slow))) <==> same_ignoring_case(s, "slow"@),
        (discrete_query_of(CssMediaFeatureKind::Update, s) == Some(CssMediaFeatureQuery::Update(CssMediaUpdate::Fast))) <==> same_ignoring_case(s, "fast"@),
        (discrete_query_of(CssMediaFeatureKind::OverflowBlock, s) == Some(CssMediaFeatureQuery::OverflowBlock(CssMediaOverflowBlock::NoOverflow))) <==> same_ignoring_case(s, "none"@),
        (discrete_query_of(CssMediaFeatureKind::OverflowBlock, s) == Some(CssMediaFeatureQuery::OverflowBlock(CssMediaOverflowBlock::Scroll))) <==> same_ignoring_case(s, "scroll"@),
        (discrete_query_of(CssMediaFeatureKind::OverflowBlock, s) == Some(CssMediaFeatureQuery::OverflowBlock(CssMediaOverflowBlock::Paged))) <==> same_ignoring_case(s, "paged"@),
        (discrete_query_of(CssMediaFeatureKind::OverflowInline, s) == Some(CssMediaFeatureQuery::OverflowInline(CssMediaOverflowInline::NoOverflow))) <==> same_ignoring_case(s, "none"@),
        (discrete_query_of(CssMediaFeatureKind::OverflowInline, s) == Some(CssMediaFeatureQuery::OverflowInline(CssMediaOverflowInline::Scroll))) <==> same_ignoring_case(s, "scroll"@),
        (discrete_query_of(CssMediaFeatureKind::ColorGamut, s) == Some(CssMediaFeatureQuery::ColorGamut(CssMediaColorGamut::Srgb))) <==> same_ignoring_case(s, "srgb"@),
        (discrete_query_of(CssMediaFeatureKind::ColorGamut, s) == Some(CssMediaFeatureQuery::ColorGamut(CssMediaColorGamut::P3))) <==> same_ignoring_case(s, "p3"@),
        (discrete_query_of(CssMediaFeatureKind::ColorGamut, s) == Some(CssMediaFeatureQuery::ColorGamut(CssMediaColorGamut::Rec2020))) <==> same_ignoring_case(s, "rec2020"@),
        (discrete_query_of(CssMediaFeatureKind::VideoColorGamut, s) == Some(CssMediaFeatureQuery::VideoColorGamut(CssMediaColorGamut::Srgb))) <==> same_ignoring_case(s, "srgb"@),
        (discrete_query_of(CssMediaFeatureKind::VideoColorGamut, s) == Some(CssMediaFeatureQuery::VideoColorGamut(CssMediaColorGamut::P3))) <==> same_ignoring_case(s, "p3"@),
        (discrete_query_of(CssMediaFeatureKind::VideoColorGamut, s) == Some(CssMediaFeatureQuery::VideoColorGamut(CssMediaColorGamut::Rec2020))) <==> same_ignoring_case(s, "rec2020"@),
        (discrete_query_of(CssMediaFeatureKind::DynamicRange, s) == Some(CssMediaFeatureQuery::DynamicRange(CssMediaDynamicRange::Standard))) <==> same_ignoring_case(s, "standard"@),
        (discrete_query_of(CssMediaFeatureKind::DynamicRange, s) == Some(CssMediaFeatureQuery::DynamicRange(CssMediaDynamicRange::High))) <==> same_ignoring_case(s, "high"@),
        (discrete_query_of(CssMediaFeatureKind::VideoDynamicRange, s) == Some(CssMediaFeatureQuery::VideoDynamicRange(CssMediaDynamicRange::Standard))) <==> same_ignoring_case(s, "standard"@),
        (discrete_query_of(CssMediaFeatureKind::VideoDynamicRange, s) == Some(CssMediaFeatureQuery::VideoDynamicRange(CssMediaDynamicRange::High))) <==> same_ignoring_case(s, "high"@),
        (discrete_query_of(CssMediaFeatureKind::EnvironmentBlending, s) == Some(CssMediaFeatureQuery::EnvironmentBlending(CssMediaEnvironmentBlending::Opaque))) <==> same_ignoring_case(s, "opaque"@),
        (discrete_query_of(CssMediaFeatureKind::EnvironmentBlending, s) == Some(CssMediaFeatureQuery::EnvironmentBlending(CssMediaEnvironmentBlending::Additive))) <==> same_ignoring_case(s, "additive"@),
        (discrete_query_of(CssMediaFeatureKind::EnvironmentBlending, s) == Some(CssMediaFeatureQuery::EnvironmentBlending(CssMediaEnvironmentBlending::Subtractive))) <==> same_ignoring_case(s, "subtractive"@),
        (discrete_query_of(CssMediaFeatureKind::InvertedColors, s) == Some(CssMediaFeatureQuery::InvertedColors(CssMediaInvertedColors::NotInverted))) <==> same_ignoring_case(s, "none"@),
        (discrete_query_of(CssMediaFeatureKind::InvertedColors, s) == Some(CssMediaFeatureQuery::InvertedColors(CssMediaInvertedColors::Inverted))) <==> same_ignoring_case(s, "inverted"@),
        (discrete_query_of(CssMediaFeatureKind::NavControls, s) == Some(CssMediaFeatureQuery::NavControls(CssMediaNavigationControls::NoControls))) <==> same_ignoring_case(s, "none"@),
        (discrete_query_of(CssMediaFeatureKind::NavControls, s) == Some(CssMediaFeatureQuery::NavControls(CssMediaNavigationControls::Back))) <==> same_ignoring_case(s, "back"@),
        (discrete_query_of(CssMediaFeatureKind::Scripting, s) == Some(CssMediaFeatureQuery::Scripting(CssMediaScripting::NoScripting))) <==> same_ignoring_case(s, "none"@),
        (discrete_query_of(CssMediaFeatureKind::Scripting, s) == Some(CssMediaFeatureQuery::Scripting(CssMediaScripting::InitialOnly))) <==> same_ignoring_case(s, "initial-only"@),
        (discrete_query_of(CssMediaFeatureKind::Scripting, s) == Some(CssMediaFeatureQuery::Scripting(CssMediaScripting::Enabled))) <==> same_ignoring_case(s, "enabled"@),
        (discrete_query_of(CssMediaFeatureKind::PrefersReducedData, s) == Some(CssMediaFeatureQuery::PrefersReducedData(CssMediaReducedDataPreference::NoPreference))) <==> same_ignoring_case(s, "no-preference"@),
        (discrete_query_of(CssMediaFeatureKind::PrefersReducedData, s) == Some(CssMediaFeatureQuery::PrefersReducedData(CssMediaReducedDataPreference::Reduce))) <==> same_ignoring_case(s, "reduce"@),
{
    lemma_color_gamut_keywords(s);
    lemma_color_scheme_keywords(s);
    lemma_contrast_keywords(s);
    lemma_display_mode_keywords(s);
    lemma_dynamic_range_keywords(s);
    lemma_environment_blending_keywords(s);
    lemma_forced_colors_keywords(s);
    lemma_hover_keywords(s);
    lemma_inverted_colors_keywords(s);
    lemma_nav_controls_keywords(s);
    lemma_orientation_keywords(s);
    lemma_overflow_block_keywords(s);
    lemma_overflow_inline_keywords(s);
    lemma_pointer_keywords(s);
    lemma_reduced_data_keywords(s);
    lemma_reduced_motion_keywords(s);
    lemma_reduced_transparency_keywords(s);
    lemma_scan_mode_keywords(s);
    lemma_scripting_keywords(s);
    lemma_update_keywords(s);
}

/// Reads the keyword value of a discrete feature other than `grid`.
pub fn discrete_query(kind: CssMediaFeatureKind, ident: &str) -> (r: Option<CssMediaFeatureQuery>)
    ensures
        r == discrete_query_of(kind, ident@),
{
    match kind {
        CssMediaFeatureKind::Orientation => match orientation_named(ident) {
            Some(v) => Some(CssMediaFeatureQuery::Orientation(v)),
            None => None,
        },
        CssMediaFeatureKind::Scan => match scan_mode_named(ident) {
            Some(v) => Some(CssMediaFeatureQuery::Scan(v)),
            None => None,
        },
        CssMediaFeatureKind::PrefersColorScheme => match color_scheme_named(ident) {
            Some(v) => Some(CssMediaFeatureQuery::PrefersColorScheme(v)),
            None => None,
        },
        CssMediaFeatureKind::PrefersReducedMotion => match reduced_motion_named(ident) {
            Some(v) => Some(CssMediaFeatureQuery::PrefersReducedMotion(v)),
            None => None,
        },
        CssMediaFeatureKind::PrefersReducedTransparency => match reduced_transparency_named(ident) {
            Some(v) => Some(CssMediaFeatureQuery::PrefersReducedTransparency(v)),
            None => None,
        },
        CssMediaFeatureKind::PrefersContrast => match contrast_named(ident) {
            Some(v) => Some(CssMediaFeatureQuery::PrefersContrast(v)),
            None => None,
        },
        CssMediaFeatureKind::ForcedColors => match forced_colors_named(ident) {
            Some(v) => Some(CssMediaFeatureQuery::ForcedColors(v)),
            None => None,
        },
        CssMediaFeatureKind::Hover => match hover_named(ident) {
            Some(v) => Some(CssMediaFeatureQuery::Hover(v)),
            None => None,
        },
        CssMediaFeatureKind::AnyHover => match hover_named(ident) {
            Some(v) => Some(CssMediaFeatureQuery::AnyHover(v)),
            None => None,
        },
        CssMediaFeatureKind::Pointer => match pointer_named(ident) {
            Some(v) => Some(CssMediaFeatureQuery::Pointer(v)),
            None => None,
        },
        CssMediaFeatureKind::AnyPointer => match pointer_named(ident) {
            Some(v) => Some(CssMediaFeatureQuery::AnyPointer(v)),
            None => None,
        },
        CssMediaFeatureKind::DisplayMode => match display_mode_named(ident) {
            Some(v) => Some(CssMediaFeatureQuery::DisplayMode(v)),
            None => None,
        },
        CssMediaFeatureKind::Update => match update_named(ident) {
            Some(v) => Some(CssMediaFeatureQuery::Update(v)),
            None => None,
        },
        CssMediaFeatureKind::OverflowBlock => match overflow_block_named(ident) {
            Some(v) => Some(CssMediaFeatureQuery::OverflowBlock(v)),
            None => None,
        },
        CssMediaFeatureKind::OverflowInline => match overflow_inline_named(ident) {
            Some(v) => Some(CssMediaFeatureQuery::OverflowInline(v)),
            None => None,
        },
        CssMediaFeatureKind::ColorGamut => match color_gamut_named(ident) {
            Some(v) => Some(CssMediaFeatureQuery::ColorGamut(v)),
            None => None,
        },
        CssMediaFeatureKind::VideoColorGamut => match color_gamut_named(ident) {
            Some(v) => Some(CssMediaFeatureQuery::VideoColorGamut(v)),
            None => None,
        },
        CssMediaFeatureKind::DynamicRange => match dynamic_range_named(ident) {
            Some(v) => Some(CssMediaFeatureQuery::DynamicRange(v)),
            None => None,
        },
        CssMediaFeatureKind::VideoDynamicRange => match dynamic_range_named(ident) {
            Some(v) => Some(CssMediaFeatureQuery::VideoDynamicRange(v)),
            None => None,
        },
        CssMediaFeatureKind::EnvironmentBlending => match environment_blending_named(ident) {
            Some(v) => Some(CssMediaFeatureQuery::EnvironmentBlending(v)),
            None => None,
        },
        CssMediaFeatureKind::InvertedColors => match inverted_colors_named(ident) {
            Some(v) => Some(CssMediaFeatureQuery::InvertedColors(v)),
            None => None,
        },
        CssMediaFeatureKind::NavControls => match nav_controls_named(ident) {
            Some(v) => Some(CssMediaFeatureQuery::NavControls(v)),
            None => None,
        },
        CssMediaFeatureKind::Scripting => match scripting_named(ident) {
            Some(v) => Some(CssMediaFeatureQuery::Scripting(v)),
            None => None,
        },
        CssMediaFeatureKind::PrefersReducedData => match reduced_data_named(ident) {
            Some(v) => Some(CssMediaFeatureQuery::PrefersReducedData(v)),
            None => None,
        },
        _ => None,
    }
}

} // verus!
