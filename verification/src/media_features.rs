//! Authored media feature domains. Ranges keep their authored form and bound order;
//! matching against a device and resolving calculations happen elsewhere.

use crate::calculation::{
    CssIntegerCalculation, CssLengthCalculation, CssNumberCalculation, CssResolutionCalculation,
};
use crate::components::{CssComponentValue, CssComponentValues};
use crate::units::same_ignoring_case;
use vstd::prelude::*;
use vstd::string::StringSliceAdditionalSpecFns;

verus! {

/// A comparison in a range form.
#[derive(Clone, Copy, Debug, PartialEq, Eq, Structural)]
pub enum CssQueryComparison {
    LessThan,
    LessThanOrEqual,
    GreaterThan,
    GreaterThanOrEqual,
    Equal,
}

#[derive(Clone, Copy, Debug, PartialEq, Eq, Structural)]
pub enum CssOrientation {
    Portrait,
    Landscape,
}

#[derive(Clone, Copy, Debug, PartialEq, Eq, Structural)]
pub enum CssScanMode {
    Interlace,
    Progressive,
}

#[derive(Clone, Copy, Debug, PartialEq, Eq, Structural)]
pub enum CssGridMode {
    Bitmap,
    Grid,
}

/// The position after the run of bytes `a` or `b` that starts at `i`.
pub open spec fn skip_bytes(t: Seq<u8>, i: int, a: u8, b: u8) -> int
    decreases t.len() - i,
{
    if 0 <= i < t.len() && (t[i] == a || t[i] == b) {
        skip_bytes(t, i + 1, a, b)
    } else {
        i
    }
}

/// The grid mode an integer literal spells: with its signs and leading zeros skipped,
/// nothing left is `bitmap`, a lone `1` without a minus sign is `grid`, and anything
/// else is no grid mode.
pub open spec fn grid_literal_of(t: Seq<u8>) -> Option<CssGridMode> {
    let k = skip_bytes(t, skip_bytes(t, 0, 43, 45), 48, 48);
    if k >= t.len() {
        Some(CssGridMode::Bitmap)
    } else if !(t.len() > 0 && t[0] == 45) && k + 1 == t.len() && t[k] == 49 {
        Some(CssGridMode::Grid)
    } else {
        None
    }
}

proof fn lemma_skip_run(t: Seq<u8>, i: int, n: int, a: u8, b: u8)
    requires
        0 <= i,
        0 <= n,
        i + n <= t.len(),
        forall|j: int| i <= j < i + n ==> (#[trigger] t[j]) == a || t[j] == b,
        i + n < t.len() ==> t[i + n] != a && t[i + n] != b,
    ensures
        skip_bytes(t, i, a, b) == i + n,
    decreases n,
{
    if n > 0 {
        assert(t[i] == a || t[i] == b);
        lemma_skip_run(t, i + 1, n - 1, a, b);
    }
}

/// A literal of zeros, with or without a sign, is `bitmap`; the same zeros then a
/// digit `1` are `grid` unless a minus sign comes first, and then any other digit is
/// no grid mode.
pub proof fn lemma_grid_literal_values(sign: Seq<u8>, z: Seq<u8>, d: u8)
    requires
        sign.len() <= 1,
        sign.len() == 1 ==> sign[0] == 43 || sign[0] == 45,
        forall|j: int| 0 <= j < z.len() ==> (#[trigger] z[j]) == 48,
        49 <= d <= 57,
    ensures
        grid_literal_of(sign + z) == Some(CssGridMode::Bitmap),
        grid_literal_of(sign + z + seq![d]) == if d == 49 && !(sign.len() == 1 && sign[0] == 45) {
            Some(CssGridMode::Grid)
        } else {
            None
        },
{
    let n = sign.len() as int;
    let t1 = sign + z;
    let t2 = sign + z + seq![d];
    assert forall|j: int| n <= j < n + z.len() implies (#[trigger] t1[j]) == 48 && t2[j] == 48 by {
        assert(t1[j] == z[j - n]);
        assert(t2[j] == z[j - n]);
    }
    assert forall|j: int| 0 <= j < n implies (#[trigger] t1[j]) == 43 || t1[j] == 45 by {
        assert(t1[j] == sign[j]);
    }
    assert forall|j: int| 0 <= j < n implies (#[trigger] t2[j]) == 43 || t2[j] == 45 by {
        assert(t2[j] == sign[j]);
    }
    lemma_skip_run(t1, 0, n, 43, 45);
    lemma_skip_run(t2, 0, n, 43, 45);
    lemma_skip_run(t1, n, z.len() as int, 48, 48);
    lemma_skip_run(t2, n, z.len() as int, 48, 48);
    assert(t2[n + z.len()] == d);
    if n == 1 {
        assert(t2[0] == sign[0]);
    }
}

fn skip_bytes_exec(t: &[u8], i: usize, a: u8, b: u8) -> (r: usize)
    requires
        i <= t@.len(),
    ensures
        r == skip_bytes(t@, i as int, a, b),
        i <= r <= t@.len(),
{
    let mut j = i;
    while j < t.len() && (t[j] == a || t[j] == b)
        invariant
            i <= j <= t@.len(),
            skip_bytes(t@, i as int, a, b) == skip_bytes(t@, j as int, a, b),
        decreases t@.len() - j,
    {
        j = j + 1;
    }
    j
}

/// The grid mode of an integer literal's spelling: zero, with any sign, is `bitmap`;
/// an unsigned or plus-signed one is `grid`; any other value is refused with `None`.
pub fn grid_literal(representation: &str) -> (r: Option<CssGridMode>)
    ensures
        r == grid_literal_of(representation.spec_bytes()),
{
    let t = representation.as_bytes();
    let signs = skip_bytes_exec(t, 0, 43u8, 45u8);
    let k = skip_bytes_exec(t, signs, 48u8, 48u8);
    if k >= t.len() {
        Some(CssGridMode::Bitmap)
    } else if !(t.len() > 0 && t[0] == 45u8) && k + 1 == t.len() && t[k] == 49u8 {
        Some(CssGridMode::Grid)
    } else {
        None
    }
}

#[derive(Clone, Copy, Debug, PartialEq, Eq, Structural)]
pub enum CssColorSchemePreference {
    Light,
    Dark,
}

#[derive(Clone, Copy, Debug, PartialEq, Eq, Structural)]
pub enum CssReducedMotionPreference {
    NoPreference,
    Reduce,
}

#[derive(Clone, Copy, Debug, PartialEq, Eq, Structural)]
pub enum CssReducedTransparencyPreference {
    NoPreference,
    Reduce,
}

#[derive(Clone, Copy, Debug, PartialEq, Eq, Structural)]
pub enum CssContrastPreference {
    NoPreference,
    More,
    Less,
    Custom,
}

#[derive(Clone, Copy, Debug, PartialEq, Eq, Structural)]
pub enum CssForcedColorsMode {
    Inactive,
    Active,
}

#[derive(Clone, Copy, Debug, PartialEq, Eq, Structural)]
pub enum CssHoverCapability {
    NoHover,
    Hover,
}

#[derive(Clone, Copy, Debug, PartialEq, Eq, Structural)]
pub enum CssPointerCapability {
    NoPointer,
    Coarse,
    Fine,
}

#[derive(Clone, Copy, Debug, PartialEq, Eq, Structural)]
pub enum CssDisplayMode {
    Fullscreen,
    Standalone,
    MinimalUi,
    Browser,
    PictureInPicture,
}

#[derive(Clone, Copy, Debug, PartialEq, Eq, Structural)]
pub enum CssMediaUpdate {
    NoUpdate,
    Slow,
    Fast,
}

#[derive(Clone, Copy, Debug, PartialEq, Eq, Structural)]
pub enum CssMediaOverflowBlock {
    NoOverflow,
    Scroll,
    Paged,
}

#[derive(Clone, Copy, Debug, PartialEq, Eq, Structural)]
pub enum CssMediaOverflowInline {
    NoOverflow,
    Scroll,
}

#[derive(Clone, Copy, Debug, PartialEq, Eq, Structural)]
pub enum CssMediaColorGamut {
    Srgb,
    P3,
    Rec2020,
}

#[derive(Clone, Copy, Debug, PartialEq, Eq, Structural)]
pub enum CssMediaDynamicRange {
    Standard,
    High,
}

#[derive(Clone, Copy, Debug, PartialEq, Eq, Structural)]
pub enum CssMediaEnvironmentBlending {
    Opaque,
    Additive,
    Subtractive,
}

#[derive(Clone, Copy, Debug, PartialEq, Eq, Structural)]
pub enum CssMediaInvertedColors {
    NotInverted,
    Inverted,
}

#[derive(Clone, Copy, Debug, PartialEq, Eq, Structural)]
pub enum CssMediaNavigationControls {
    NoControls,
    Back,
}

#[derive(Clone, Copy, Debug, PartialEq, Eq, Structural)]
pub enum CssMediaScripting {
    NoScripting,
    InitialOnly,
    Enabled,
}

#[derive(Clone, Copy, Debug, PartialEq, Eq, Structural)]
pub enum CssMediaReducedDataPreference {
    NoPreference,
    Reduce,
}

/// The authored form of a range: a plain value, `min-`/`max-` prefixed, one comparison
/// with the feature first or the value first, or two comparisons in either direction.
#[derive(Debug, PartialEq)]
pub enum MediaRangeState<T> {
    Plain { value: T },
    Min { value: T },
    Max { value: T },
    FeatureFirst { comparison: CssQueryComparison, value: T },
    ValueFirst { value: T, comparison: CssQueryComparison },
    Ascending { left: T, left_inclusive: bool, right: T, right_inclusive: bool },
    Descending { left: T, left_inclusive: bool, right: T, right_inclusive: bool },
}

/// An authored range, preserving source order and the selected grammar form.
#[derive(Debug)]
pub struct CssMediaRange<T> {
    state: MediaRangeState<T>,
}

/// Borrowed authored range state. Bounds are neither reordered nor evaluated.
#[derive(Debug)]
pub enum CssMediaRangeRef<'a, T> {
    Plain { value: &'a T },
    Min { value: &'a T },
    Max { value: &'a T },
    FeatureFirst { comparison: CssQueryComparison, value: &'a T },
    ValueFirst { value: &'a T, comparison: CssQueryComparison },
    Ascending { left: &'a T, left_inclusive: bool, right: &'a T, right_inclusive: bool },
    Descending { left: &'a T, left_inclusive: bool, right: &'a T, right_inclusive: bool },
}

/// The range form a borrowed view shows.
pub open spec fn shown_state<'a, T>(r: CssMediaRangeRef<'a, T>) -> MediaRangeState<T> {
    match r {
        CssMediaRangeRef::Plain { value } => MediaRangeState::Plain { value: *value },
        CssMediaRangeRef::Min { value } => MediaRangeState::Min { value: *value },
        CssMediaRangeRef::Max { value } => MediaRangeState::Max { value: *value },
        CssMediaRangeRef::FeatureFirst { comparison, value } => MediaRangeState::FeatureFirst { comparison, value: *value },
        CssMediaRangeRef::ValueFirst { value, comparison } => MediaRangeState::ValueFirst { value: *value, comparison },
        CssMediaRangeRef::Ascending { left, left_inclusive, right, right_inclusive } => MediaRangeState::Ascending {
            left: *left,
            left_inclusive,
            right: *right,
            right_inclusive,
        },
        CssMediaRangeRef::Descending { left, left_inclusive, right, right_inclusive } => MediaRangeState::Descending {
            left: *left,
            left_inclusive,
            right: *right,
            right_inclusive,
        },
    }
}

impl<T> CssMediaRange<T> {
    pub closed spec fn state_of(&self) -> MediaRangeState<T> {
        self.state
    }

    pub fn new(state: MediaRangeState<T>) -> (r: Self)
        ensures
            r.state_of() == state,
    {
        Self { state }
    }

    /// The authored form, borrowed.
    pub fn view(&self) -> (r: CssMediaRangeRef<'_, T>)
        ensures
            shown_state(r) == self.state_of(),
    {
        match &self.state {
            MediaRangeState::Plain { value } => CssMediaRangeRef::Plain { value },
            MediaRangeState::Min { value } => CssMediaRangeRef::Min { value },
            MediaRangeState::Max { value } => CssMediaRangeRef::Max { value },
            MediaRangeState::FeatureFirst { comparison, value } => CssMediaRangeRef::FeatureFirst {
                comparison: *comparison,
                value,
            },
            MediaRangeState::ValueFirst { value, comparison } => CssMediaRangeRef::ValueFirst {
                value,
                comparison: *comparison,
            },
            MediaRangeState::Ascending { left, left_inclusive, right, right_inclusive } => CssMediaRangeRef::Ascending {
                left,
                left_inclusive: *left_inclusive,
                right,
                right_inclusive: *right_inclusive,
            },
            MediaRangeState::Descending { left, left_inclusive, right, right_inclusive } => CssMediaRangeRef::Descending {
                left,
                left_inclusive: *left_inclusive,
                right,
                right_inclusive: *right_inclusive,
            },
        }
    }
}

/// A signed authored media length, retaining its exact numeric components.
#[derive(Debug)]
pub struct CssMediaLength {
    calculation: CssLengthCalculation,
}

impl CssMediaLength {
    pub closed spec fn calculation_of(&self) -> CssLengthCalculation {
        self.calculation
    }

    pub fn new(calculation: CssLengthCalculation) -> (r: Self)
        ensures
            r.calculation_of() == calculation,
    {
        Self { calculation }
    }

    pub fn calculation(&self) -> (r: &CssLengthCalculation)
        ensures
            *r == self.calculation_of(),
    {
        &self.calculation
    }

    pub fn components(&self) -> (r: &CssComponentValues)
        ensures
            self.calculation_of().calculation().components_view() == Some(r.items@),
    {
        self.calculation.components()
    }
}

/// A signed authored media integer, retaining its exact numeric components.
#[derive(Debug)]
pub struct CssMediaInteger {
    calculation: CssIntegerCalculation,
}

impl CssMediaInteger {
    pub closed spec fn calculation_of(&self) -> CssIntegerCalculation {
        self.calculation
    }

    pub fn new(calculation: CssIntegerCalculation) -> (r: Self)
        ensures
            r.calculation_of() == calculation,
    {
        Self { calculation }
    }

    pub fn calculation(&self) -> (r: &CssIntegerCalculation)
        ensures
            *r == self.calculation_of(),
    {
        &self.calculation
    }

    pub fn components(&self) -> (r: &CssComponentValues)
        ensures
            self.calculation_of().calculation().components_view() == Some(r.items@),
    {
        self.calculation.components()
    }
}

#[derive(Debug)]
pub enum MediaResolutionValue {
    Numeric(CssResolutionCalculation),
    Infinite(CssComponentValue),
}

/// Signed resolution syntax or the distinct `infinite` keyword.
#[derive(Debug)]
pub struct CssMediaResolution {
    value: MediaResolutionValue,
}

#[derive(Debug)]
pub enum CssMediaResolutionRef<'a> {
    Numeric(&'a CssResolutionCalculation),
    Infinite(&'a CssComponentValue),
}

impl CssMediaResolution {
    pub closed spec fn value_of(&self) -> MediaResolutionValue {
        self.value
    }

    pub fn numeric(value: CssResolutionCalculation) -> (r: Self)
        ensures
            r.value_of() == MediaResolutionValue::Numeric(value),
    {
        Self { value: MediaResolutionValue::Numeric(value) }
    }

    pub fn infinite(value: CssComponentValue) -> (r: Self)
        ensures
            r.value_of() == MediaResolutionValue::Infinite(value),
    {
        Self { value: MediaResolutionValue::Infinite(value) }
    }

    pub fn view(&self) -> (r: CssMediaResolutionRef<'_>)
        ensures
            match r {
                CssMediaResolutionRef::Numeric(v) => self.value_of() == MediaResolutionValue::Numeric(*v),
                CssMediaResolutionRef::Infinite(v) => self.value_of() == MediaResolutionValue::Infinite(*v),
            },
    {
        match &self.value {
            MediaResolutionValue::Numeric(v) => CssMediaResolutionRef::Numeric(v),
            MediaResolutionValue::Infinite(v) => CssMediaResolutionRef::Infinite(v),
        }
    }
}

/// A pair of authored number values, each constrained to be nonnegative when resolved.
#[derive(Debug)]
pub struct CssMediaRatio {
    numerator: CssNumberCalculation,
    denominator: CssNumberCalculation,
    denominator_is_omitted: bool,
}

impl CssMediaRatio {
    pub closed spec fn parts(&self) -> (CssNumberCalculation, CssNumberCalculation, bool) {
        (self.numerator, self.denominator, self.denominator_is_omitted)
    }

    pub fn new(numerator: CssNumberCalculation, denominator: CssNumberCalculation, denominator_is_omitted: bool) -> (r: Self)
        ensures
            r.parts() == (numerator, denominator, denominator_is_omitted),
    {
        Self { numerator, denominator, denominator_is_omitted }
    }

    pub fn numerator(&self) -> (r: &CssNumberCalculation)
        ensures
            *r == self.parts().0,
    {
        &self.numerator
    }

    pub fn denominator(&self) -> (r: &CssNumberCalculation)
        ensures
            *r == self.parts().1,
    {
        &self.denominator
    }

    /// Whether the authored ratio was a single number, its denominator implied.
    pub fn denominator_is_omitted(&self) -> (r: bool)
        ensures
            r == self.parts().2,
    {
        self.denominator_is_omitted
    }
}

/// An authored grid value with a deferred closed `[0,1]` integer constraint.
#[derive(Debug)]
pub struct CssMediaGrid {
    calculation: CssIntegerCalculation,
    literal: Option<CssGridMode>,
}

#[derive(Debug)]
pub enum CssMediaGridRef<'a> {
    Literal(CssGridMode),
    Calculation(&'a CssIntegerCalculation),
}

impl CssMediaGrid {
    pub closed spec fn parts(&self) -> (CssIntegerCalculation, Option<CssGridMode>) {
        (self.calculation, self.literal)
    }

    pub fn new(calculation: CssIntegerCalculation, literal: Option<CssGridMode>) -> (r: Self)
        ensures
            r.parts() == (calculation, literal),
    {
        Self { calculation, literal }
    }

    /// The literal grid mode where the value was one, else the calculation.
    pub fn view(&self) -> (r: CssMediaGridRef<'_>)
        ensures
            match r {
                CssMediaGridRef::Literal(m) => self.parts().1 == Some(m),
                CssMediaGridRef::Calculation(c) => self.parts().1 is None && *c == self.parts().0,
            },
    {
        match self.literal {
            Some(v) => CssMediaGridRef::Literal(v),
            None => CssMediaGridRef::Calculation(&self.calculation),
        }
    }

    pub fn components(&self) -> (r: &CssComponentValues)
        ensures
            self.parts().0.calculation().components_view() == Some(r.items@),
    {
        self.calculation.components()
    }
}

/// Every known feature of the media feature index.
#[derive(Clone, Copy, Debug, PartialEq, Eq, Hash, Structural)]
pub enum CssMediaFeatureKind {
    Width,
    Height,
    DeviceWidth,
    DeviceHeight,
    AspectRatio,
    DeviceAspectRatio,
    Resolution,
    Color,
    ColorIndex,
    Monochrome,
    HorizontalViewportSegments,
    VerticalViewportSegments,
    Orientation,
    Scan,
    Grid,
    PrefersColorScheme,
    PrefersReducedMotion,
    PrefersReducedTransparency,
    PrefersContrast,
    ForcedColors,
    Hover,
    AnyHover,
    Pointer,
    AnyPointer,
    DisplayMode,
    Update,
    OverflowBlock,
    OverflowInline,
    ColorGamut,
    VideoColorGamut,
    DynamicRange,
    VideoDynamicRange,
    EnvironmentBlending,
    InvertedColors,
    NavControls,
    Scripting,
    PrefersReducedData,
}

/// The value family a feature's plain and range forms take.
#[derive(Clone, Copy, Debug, PartialEq, Eq, Structural)]
pub enum MediaValueFamily {
    Length,
    Integer,
    Ratio,
    Resolution,
    Discrete,
}

/// The feature's name.
pub open spec fn feature_name(k: CssMediaFeatureKind) -> &'static str {
    match k {
        CssMediaFeatureKind::Width => "width",
        CssMediaFeatureKind::Height => "height",
        CssMediaFeatureKind::DeviceWidth => "device-width",
        CssMediaFeatureKind::DeviceHeight => "device-height",
        CssMediaFeatureKind::AspectRatio => "aspect-ratio",
        CssMediaFeatureKind::DeviceAspectRatio => "device-aspect-ratio",
        CssMediaFeatureKind::Resolution => "resolution",
        CssMediaFeatureKind::Color => "color",
        CssMediaFeatureKind::ColorIndex => "color-index",
        CssMediaFeatureKind::Monochrome => "monochrome",
        CssMediaFeatureKind::HorizontalViewportSegments => "horizontal-viewport-segments",
        CssMediaFeatureKind::VerticalViewportSegments => "vertical-viewport-segments",
        CssMediaFeatureKind::Orientation => "orientation",
        CssMediaFeatureKind::Scan => "scan",
        CssMediaFeatureKind::Grid => "grid",
        CssMediaFeatureKind::PrefersColorScheme => "prefers-color-scheme",
        CssMediaFeatureKind::PrefersReducedMotion => "prefers-reduced-motion",
        CssMediaFeatureKind::PrefersReducedTransparency => "prefers-reduced-transparency",
        CssMediaFeatureKind::PrefersContrast => "prefers-contrast",
        CssMediaFeatureKind::ForcedColors => "forced-colors",
        CssMediaFeatureKind::Hover => "hover",
        CssMediaFeatureKind::AnyHover => "any-hover",
        CssMediaFeatureKind::Pointer => "pointer",
        CssMediaFeatureKind::AnyPointer => "any-pointer",
        CssMediaFeatureKind::DisplayMode => "display-mode",
        CssMediaFeatureKind::Update => "update",
        CssMediaFeatureKind::OverflowBlock => "overflow-block",
        CssMediaFeatureKind::OverflowInline => "overflow-inline",
        CssMediaFeatureKind::ColorGamut => "color-gamut",
        CssMediaFeatureKind::VideoColorGamut => "video-color-gamut",
        CssMediaFeatureKind::DynamicRange => "dynamic-range",
        CssMediaFeatureKind::VideoDynamicRange => "video-dynamic-range",
        CssMediaFeatureKind::EnvironmentBlending => "environment-blending",
        CssMediaFeatureKind::InvertedColors => "inverted-colors",
        CssMediaFeatureKind::NavControls => "nav-controls",
        CssMediaFeatureKind::Scripting => "scripting",
        CssMediaFeatureKind::PrefersReducedData => "prefers-reduced-data",
    }
}

/// The feature's value family.
pub open spec fn feature_family(k: CssMediaFeatureKind) -> MediaValueFamily {
    match k {
        CssMediaFeatureKind::Width => MediaValueFamily::Length,
        CssMediaFeatureKind::Height => MediaValueFamily::Length,
        CssMediaFeatureKind::DeviceWidth => MediaValueFamily::Length,
        CssMediaFeatureKind::DeviceHeight => MediaValueFamily::Length,
        CssMediaFeatureKind::AspectRatio => MediaValueFamily::Ratio,
        CssMediaFeatureKind::DeviceAspectRatio => MediaValueFamily::Ratio,
        CssMediaFeatureKind::Resolution => MediaValueFamily::Resolution,
        CssMediaFeatureKind::Color => MediaValueFamily::Integer,
        CssMediaFeatureKind::ColorIndex => MediaValueFamily::Integer,
        CssMediaFeatureKind::Monochrome => MediaValueFamily::Integer,
        CssMediaFeatureKind::HorizontalViewportSegments => MediaValueFamily::Integer,
        CssMediaFeatureKind::VerticalViewportSegments => MediaValueFamily::Integer,
        CssMediaFeatureKind::Orientation => MediaValueFamily::Discrete,
        CssMediaFeatureKind::Scan => MediaValueFamily::Discrete,
        CssMediaFeatureKind::Grid => MediaValueFamily::Discrete,
        CssMediaFeatureKind::PrefersColorScheme => MediaValueFamily::Discrete,
        CssMediaFeatureKind::PrefersReducedMotion => MediaValueFamily::Discrete,
        CssMediaFeatureKind::PrefersReducedTransparency => MediaValueFamily::Discrete,
        CssMediaFeatureKind::PrefersContrast => MediaValueFamily::Discrete,
        CssMediaFeatureKind::ForcedColors => MediaValueFamily::Discrete,
        CssMediaFeatureKind::Hover => MediaValueFamily::Discrete,
        CssMediaFeatureKind::AnyHover => MediaValueFamily::Discrete,
        CssMediaFeatureKind::Pointer => MediaValueFamily::Discrete,
        CssMediaFeatureKind::AnyPointer => MediaValueFamily::Discrete,
        CssMediaFeatureKind::DisplayMode => MediaValueFamily::Discrete,
        CssMediaFeatureKind::Update => MediaValueFamily::Discrete,
        CssMediaFeatureKind::OverflowBlock => MediaValueFamily::Discrete,
        CssMediaFeatureKind::OverflowInline => MediaValueFamily::Discrete,
        CssMediaFeatureKind::ColorGamut => MediaValueFamily::Discrete,
        CssMediaFeatureKind::VideoColorGamut => MediaValueFamily::Discrete,
        CssMediaFeatureKind::DynamicRange => MediaValueFamily::Discrete,
        CssMediaFeatureKind::VideoDynamicRange => MediaValueFamily::Discrete,
        CssMediaFeatureKind::EnvironmentBlending => MediaValueFamily::Discrete,
        CssMediaFeatureKind::InvertedColors => MediaValueFamily::Discrete,
        CssMediaFeatureKind::NavControls => MediaValueFamily::Discrete,
        CssMediaFeatureKind::Scripting => MediaValueFamily::Discrete,
        CssMediaFeatureKind::PrefersReducedData => MediaValueFamily::Discrete,
    }
}

/// The feature at a catalog position.
pub open spec fn feature_at(i: int) -> CssMediaFeatureKind {
    if i == 0 {
        CssMediaFeatureKind::Width
    }
 else if i == 1 {
        CssMediaFeatureKind::Height
    }
 else if i == 2 {
        CssMediaFeatureKind::DeviceWidth
    }
 else if i == 3 {
        CssMediaFeatureKind::DeviceHeight
    }
 else if i == 4 {
        CssMediaFeatureKind::AspectRatio
    }
 else if i == 5 {
        CssMediaFeatureKind::DeviceAspectRatio
    }
 else if i == 6 {
        CssMediaFeatureKind::Resolution
    }
 else if i == 7 {
        CssMediaFeatureKind::Color
    }
 else if i == 8 {
        CssMediaFeatureKind::ColorIndex
    }
 else if i == 9 {
        CssMediaFeatureKind::Monochrome
    }
 else if i == 10 {
        CssMediaFeatureKind::HorizontalViewportSegments
    }
 else if i == 11 {
        CssMediaFeatureKind::VerticalViewportSegments
    }
 else if i == 12 {
        CssMediaFeatureKind::Orientation
    }
 else if i == 13 {
        CssMediaFeatureKind::Scan
    }
 else if i == 14 {
        CssMediaFeatureKind::Grid
    }
 else if i == 15 {
        CssMediaFeatureKind::PrefersColorScheme
    }
 else if i == 16 {
        CssMediaFeatureKind::PrefersReducedMotion
    }
 else if i == 17 {
        CssMediaFeatureKind::PrefersReducedTransparency
    }
 else if i == 18 {
        CssMediaFeatureKind::PrefersContrast
    }
 else if i == 19 {
        CssMediaFeatureKind::ForcedColors
    }
 else if i == 20 {
        CssMediaFeatureKind::Hover
    }
 else if i == 21 {
        CssMediaFeatureKind::AnyHover
    }
 else if i == 22 {
        CssMediaFeatureKind::Pointer
    }
 else if i == 23 {
        CssMediaFeatureKind::AnyPointer
    }
 else if i == 24 {
        CssMediaFeatureKind::DisplayMode
    }
 else if i == 25 {
        CssMediaFeatureKind::Update
    }
 else if i == 26 {
        CssMediaFeatureKind::OverflowBlock
    }
 else if i == 27 {
        CssMediaFeatureKind::OverflowInline
    }
 else if i == 28 {
        CssMediaFeatureKind::ColorGamut
    }
 else if i == 29 {
        CssMediaFeatureKind::VideoColorGamut
    }
 else if i == 30 {
        CssMediaFeatureKind::DynamicRange
    }
 else if i == 31 {
        CssMediaFeatureKind::VideoDynamicRange
    }
 else if i == 32 {
        CssMediaFeatureKind::EnvironmentBlending
    }
 else if i == 33 {
        CssMediaFeatureKind::InvertedColors
    }
 else if i == 34 {
        CssMediaFeatureKind::NavControls
    }
 else if i == 35 {
        CssMediaFeatureKind::Scripting
    }
 else {
        CssMediaFeatureKind::PrefersReducedData
    }
}

/// The catalog position of a feature.
pub open spec fn feature_position(k: CssMediaFeatureKind) -> int {
    match k {
        CssMediaFeatureKind::Width => 0,
        CssMediaFeatureKind::Height => 1,
        CssMediaFeatureKind::DeviceWidth => 2,
        CssMediaFeatureKind::DeviceHeight => 3,
        CssMediaFeatureKind::AspectRatio => 4,
        CssMediaFeatureKind::DeviceAspectRatio => 5,
        CssMediaFeatureKind::Resolution => 6,
        CssMediaFeatureKind::Color => 7,
        CssMediaFeatureKind::ColorIndex => 8,
        CssMediaFeatureKind::Monochrome => 9,
        CssMediaFeatureKind::HorizontalViewportSegments => 10,
        CssMediaFeatureKind::VerticalViewportSegments => 11,
        CssMediaFeatureKind::Orientation => 12,
        CssMediaFeatureKind::Scan => 13,
        CssMediaFeatureKind::Grid => 14,
        CssMediaFeatureKind::PrefersColorScheme => 15,
        CssMediaFeatureKind::PrefersReducedMotion => 16,
        CssMediaFeatureKind::PrefersReducedTransparency => 17,
        CssMediaFeatureKind::PrefersContrast => 18,
        CssMediaFeatureKind::ForcedColors => 19,
        CssMediaFeatureKind::Hover => 20,
        CssMediaFeatureKind::AnyHover => 21,
        CssMediaFeatureKind::Pointer => 22,
        CssMediaFeatureKind::AnyPointer => 23,
        CssMediaFeatureKind::DisplayMode => 24,
        CssMediaFeatureKind::Update => 25,
        CssMediaFeatureKind::OverflowBlock => 26,
        CssMediaFeatureKind::OverflowInline => 27,
        CssMediaFeatureKind::ColorGamut => 28,
        CssMediaFeatureKind::VideoColorGamut => 29,
        CssMediaFeatureKind::DynamicRange => 30,
        CssMediaFeatureKind::VideoDynamicRange => 31,
        CssMediaFeatureKind::EnvironmentBlending => 32,
        CssMediaFeatureKind::InvertedColors => 33,
        CssMediaFeatureKind::NavControls => 34,
        CssMediaFeatureKind::Scripting => 35,
        CssMediaFeatureKind::PrefersReducedData => 36,
    }
}

/// The first feature from catalog position `i` on whose name `name` spells.
pub open spec fn feature_from(name: Seq<char>, i: int) -> Option<CssMediaFeatureKind>
    decreases 37 - i,
{
    if i >= 37 || i < 0 {
        None
    } else if same_ignoring_case(name, feature_name(feature_at(i))@) {
        Some(feature_at(i))
    } else {
        feature_from(name, i + 1)
    }
}

impl CssMediaFeatureKind {
    fn at(i: usize) -> (r: Self)
        requires
            i < 37,
        ensures
            r == feature_at(i as int),
    {
        if i == 0 {
            CssMediaFeatureKind::Width
        }
 else if i == 1 {
            CssMediaFeatureKind::Height
        }
 else if i == 2 {
            CssMediaFeatureKind::DeviceWidth
        }
 else if i == 3 {
            CssMediaFeatureKind::DeviceHeight
        }
 else if i == 4 {
            CssMediaFeatureKind::AspectRatio
        }
 else if i == 5 {
            CssMediaFeatureKind::DeviceAspectRatio
        }
 else if i == 6 {
            CssMediaFeatureKind::Resolution
        }
 else if i == 7 {
            CssMediaFeatureKind::Color
        }
 else if i == 8 {
            CssMediaFeatureKind::ColorIndex
        }
 else if i == 9 {
            CssMediaFeatureKind::Monochrome
        }
 else if i == 10 {
            CssMediaFeatureKind::HorizontalViewportSegments
        }
 else if i == 11 {
            CssMediaFeatureKind::VerticalViewportSegments
        }
 else if i == 12 {
            CssMediaFeatureKind::Orientation
        }
 else if i == 13 {
            CssMediaFeatureKind::Scan
        }
 else if i == 14 {
            CssMediaFeatureKind::Grid
        }
 else if i == 15 {
            CssMediaFeatureKind::PrefersColorScheme
        }
 else if i == 16 {
            CssMediaFeatureKind::PrefersReducedMotion
        }
 else if i == 17 {
            CssMediaFeatureKind::PrefersReducedTransparency
        }
 else if i == 18 {
            CssMediaFeatureKind::PrefersContrast
        }
 else if i == 19 {
            CssMediaFeatureKind::ForcedColors
        }
 else if i == 20 {
            CssMediaFeatureKind::Hover
        }
 else if i == 21 {
            CssMediaFeatureKind::AnyHover
        }
 else if i == 22 {
            CssMediaFeatureKind::Pointer
        }
 else if i == 23 {
            CssMediaFeatureKind::AnyPointer
        }
 else if i == 24 {
            CssMediaFeatureKind::DisplayMode
        }
 else if i == 25 {
            CssMediaFeatureKind::Update
        }
 else if i == 26 {
            CssMediaFeatureKind::OverflowBlock
        }
 else if i == 27 {
            CssMediaFeatureKind::OverflowInline
        }
 else if i == 28 {
            CssMediaFeatureKind::ColorGamut
        }
 else if i == 29 {
            CssMediaFeatureKind::VideoColorGamut
        }
 else if i == 30 {
            CssMediaFeatureKind::DynamicRange
        }
 else if i == 31 {
            CssMediaFeatureKind::VideoDynamicRange
        }
 else if i == 32 {
            CssMediaFeatureKind::EnvironmentBlending
        }
 else if i == 33 {
            CssMediaFeatureKind::InvertedColors
        }
 else if i == 34 {
            CssMediaFeatureKind::NavControls
        }
 else if i == 35 {
            CssMediaFeatureKind::Scripting
        }
 else {
            CssMediaFeatureKind::PrefersReducedData
        }
    }

    /// The catalog position.
    pub fn position(self) -> (r: usize)
        ensures
            r == feature_position(self),
    {
        match self {
            CssMediaFeatureKind::Width => 0,
            CssMediaFeatureKind::Height => 1,
            CssMediaFeatureKind::DeviceWidth => 2,
            CssMediaFeatureKind::DeviceHeight => 3,
            CssMediaFeatureKind::AspectRatio => 4,
            CssMediaFeatureKind::DeviceAspectRatio => 5,
            CssMediaFeatureKind::Resolution => 6,
            CssMediaFeatureKind::Color => 7,
            CssMediaFeatureKind::ColorIndex => 8,
            CssMediaFeatureKind::Monochrome => 9,
            CssMediaFeatureKind::HorizontalViewportSegments => 10,
            CssMediaFeatureKind::VerticalViewportSegments => 11,
            CssMediaFeatureKind::Orientation => 12,
            CssMediaFeatureKind::Scan => 13,
            CssMediaFeatureKind::Grid => 14,
            CssMediaFeatureKind::PrefersColorScheme => 15,
            CssMediaFeatureKind::PrefersReducedMotion => 16,
            CssMediaFeatureKind::PrefersReducedTransparency => 17,
            CssMediaFeatureKind::PrefersContrast => 18,
            CssMediaFeatureKind::ForcedColors => 19,
            CssMediaFeatureKind::Hover => 20,
            CssMediaFeatureKind::AnyHover => 21,
            CssMediaFeatureKind::Pointer => 22,
            CssMediaFeatureKind::AnyPointer => 23,
            CssMediaFeatureKind::DisplayMode => 24,
            CssMediaFeatureKind::Update => 25,
            CssMediaFeatureKind::OverflowBlock => 26,
            CssMediaFeatureKind::OverflowInline => 27,
            CssMediaFeatureKind::ColorGamut => 28,
            CssMediaFeatureKind::VideoColorGamut => 29,
            CssMediaFeatureKind::DynamicRange => 30,
            CssMediaFeatureKind::VideoDynamicRange => 31,
            CssMediaFeatureKind::EnvironmentBlending => 32,
            CssMediaFeatureKind::InvertedColors => 33,
            CssMediaFeatureKind::NavControls => 34,
            CssMediaFeatureKind::Scripting => 35,
            CssMediaFeatureKind::PrefersReducedData => 36,
        }
    }

    /// The feature's name.
    pub fn name(self) -> (r: &'static str)
        ensures
            r@ == feature_name(self)@,
    {
        match self {
            CssMediaFeatureKind::Width => "width",
            CssMediaFeatureKind::Height => "height",
            CssMediaFeatureKind::DeviceWidth => "device-width",
            CssMediaFeatureKind::DeviceHeight => "device-height",
            CssMediaFeatureKind::AspectRatio => "aspect-ratio",
            CssMediaFeatureKind::DeviceAspectRatio => "device-aspect-ratio",
            CssMediaFeatureKind::Resolution => "resolution",
            CssMediaFeatureKind::Color => "color",
            CssMediaFeatureKind::ColorIndex => "color-index",
            CssMediaFeatureKind::Monochrome => "monochrome",
            CssMediaFeatureKind::HorizontalViewportSegments => "horizontal-viewport-segments",
            CssMediaFeatureKind::VerticalViewportSegments => "vertical-viewport-segments",
            CssMediaFeatureKind::Orientation => "orientation",
            CssMediaFeatureKind::Scan => "scan",
            CssMediaFeatureKind::Grid => "grid",
            CssMediaFeatureKind::PrefersColorScheme => "prefers-color-scheme",
            CssMediaFeatureKind::PrefersReducedMotion => "prefers-reduced-motion",
            CssMediaFeatureKind::PrefersReducedTransparency => "prefers-reduced-transparency",
            CssMediaFeatureKind::PrefersContrast => "prefers-contrast",
            CssMediaFeatureKind::ForcedColors => "forced-colors",
            CssMediaFeatureKind::Hover => "hover",
            CssMediaFeatureKind::AnyHover => "any-hover",
            CssMediaFeatureKind::Pointer => "pointer",
            CssMediaFeatureKind::AnyPointer => "any-pointer",
            CssMediaFeatureKind::DisplayMode => "display-mode",
            CssMediaFeatureKind::Update => "update",
            CssMediaFeatureKind::OverflowBlock => "overflow-block",
            CssMediaFeatureKind::OverflowInline => "overflow-inline",
            CssMediaFeatureKind::ColorGamut => "color-gamut",
            CssMediaFeatureKind::VideoColorGamut => "video-color-gamut",
            CssMediaFeatureKind::DynamicRange => "dynamic-range",
            CssMediaFeatureKind::VideoDynamicRange => "video-dynamic-range",
            CssMediaFeatureKind::EnvironmentBlending => "environment-blending",
            CssMediaFeatureKind::InvertedColors => "inverted-colors",
            CssMediaFeatureKind::NavControls => "nav-controls",
            CssMediaFeatureKind::Scripting => "scripting",
            CssMediaFeatureKind::PrefersReducedData => "prefers-reduced-data",
        }
    }

    /// The feature a name spells, ignoring ASCII case.
    pub fn from_name(name: &str) -> (r: Option<Self>)
        ensures
            r == feature_from(name@, 0),
    {
        let mut i: usize = 0;
        while i < 37
            invariant
                i <= 37,
                feature_from(name@, 0) == feature_from(name@, i as int),
            decreases 37 - i,
        {
            let k = Self::at(i);
            if crate::units::eq_ignore_ascii_case(name, k.name()) {
                return Some(k);
            }
            i = i + 1;
        }
        None
    }

    /// The feature's value family.
    pub fn family(self) -> (r: MediaValueFamily)
        ensures
            r == feature_family(self),
    {
        match self {
            CssMediaFeatureKind::Width => MediaValueFamily::Length,
            CssMediaFeatureKind::Height => MediaValueFamily::Length,
            CssMediaFeatureKind::DeviceWidth => MediaValueFamily::Length,
            CssMediaFeatureKind::DeviceHeight => MediaValueFamily::Length,
            CssMediaFeatureKind::AspectRatio => MediaValueFamily::Ratio,
            CssMediaFeatureKind::DeviceAspectRatio => MediaValueFamily::Ratio,
            CssMediaFeatureKind::Resolution => MediaValueFamily::Resolution,
            CssMediaFeatureKind::Color => MediaValueFamily::Integer,
            CssMediaFeatureKind::ColorIndex => MediaValueFamily::Integer,
            CssMediaFeatureKind::Monochrome => MediaValueFamily::Integer,
            CssMediaFeatureKind::HorizontalViewportSegments => MediaValueFamily::Integer,
            CssMediaFeatureKind::VerticalViewportSegments => MediaValueFamily::Integer,
            CssMediaFeatureKind::Orientation => MediaValueFamily::Discrete,
            CssMediaFeatureKind::Scan => MediaValueFamily::Discrete,
            CssMediaFeatureKind::Grid => MediaValueFamily::Discrete,
            CssMediaFeatureKind::PrefersColorScheme => MediaValueFamily::Discrete,
            CssMediaFeatureKind::PrefersReducedMotion => MediaValueFamily::Discrete,
            CssMediaFeatureKind::PrefersReducedTransparency => MediaValueFamily::Discrete,
            CssMediaFeatureKind::PrefersContrast => MediaValueFamily::Discrete,
            CssMediaFeatureKind::ForcedColors => MediaValueFamily::Discrete,
            CssMediaFeatureKind::Hover => MediaValueFamily::Discrete,
            CssMediaFeatureKind::AnyHover => MediaValueFamily::Discrete,
            CssMediaFeatureKind::Pointer => MediaValueFamily::Discrete,
            CssMediaFeatureKind::AnyPointer => MediaValueFamily::Discrete,
            CssMediaFeatureKind::DisplayMode => MediaValueFamily::Discrete,
            CssMediaFeatureKind::Update => MediaValueFamily::Discrete,
            CssMediaFeatureKind::OverflowBlock => MediaValueFamily::Discrete,
            CssMediaFeatureKind::OverflowInline => MediaValueFamily::Discrete,
            CssMediaFeatureKind::ColorGamut => MediaValueFamily::Discrete,
            CssMediaFeatureKind::VideoColorGamut => MediaValueFamily::Discrete,
            CssMediaFeatureKind::DynamicRange => MediaValueFamily::Discrete,
            CssMediaFeatureKind::VideoDynamicRange => MediaValueFamily::Discrete,
            CssMediaFeatureKind::EnvironmentBlending => MediaValueFamily::Discrete,
            CssMediaFeatureKind::InvertedColors => MediaValueFamily::Discrete,
            CssMediaFeatureKind::NavControls => MediaValueFamily::Discrete,
            CssMediaFeatureKind::Scripting => MediaValueFamily::Discrete,
            CssMediaFeatureKind::PrefersReducedData => MediaValueFamily::Discrete,
        }
    }
}

/// One media feature test: a boolean test, or a value of the feature's family.
#[derive(Debug)]
pub enum CssMediaFeatureQuery {
    Boolean(CssMediaFeatureKind),
    Width(CssMediaRange<CssMediaLength>),
    Height(CssMediaRange<CssMediaLength>),
    DeviceWidth(CssMediaRange<CssMediaLength>),
    DeviceHeight(CssMediaRange<CssMediaLength>),
    AspectRatio(CssMediaRange<CssMediaRatio>),
    DeviceAspectRatio(CssMediaRange<CssMediaRatio>),
    Resolution(CssMediaRange<CssMediaResolution>),
    Color(CssMediaRange<CssMediaInteger>),
    ColorIndex(CssMediaRange<CssMediaInteger>),
    Monochrome(CssMediaRange<CssMediaInteger>),
    HorizontalViewportSegments(CssMediaRange<CssMediaInteger>),
    VerticalViewportSegments(CssMediaRange<CssMediaInteger>),
    Orientation(CssOrientation),
    Scan(CssScanMode),
    Grid(CssMediaGrid),
    PrefersColorScheme(CssColorSchemePreference),
    PrefersReducedMotion(CssReducedMotionPreference),
    PrefersReducedTransparency(CssReducedTransparencyPreference),
    PrefersContrast(CssContrastPreference),
    ForcedColors(CssForcedColorsMode),
    Hover(CssHoverCapability),
    AnyHover(CssHoverCapability),
    Pointer(CssPointerCapability),
    AnyPointer(CssPointerCapability),
    DisplayMode(CssDisplayMode),
    Update(CssMediaUpdate),
    OverflowBlock(CssMediaOverflowBlock),
    OverflowInline(CssMediaOverflowInline),
    ColorGamut(CssMediaColorGamut),
    VideoColorGamut(CssMediaColorGamut),
    DynamicRange(CssMediaDynamicRange),
    VideoDynamicRange(CssMediaDynamicRange),
    EnvironmentBlending(CssMediaEnvironmentBlending),
    InvertedColors(CssMediaInvertedColors),
    NavControls(CssMediaNavigationControls),
    Scripting(CssMediaScripting),
    PrefersReducedData(CssMediaReducedDataPreference),
}

/// The feature a query tests.
pub open spec fn query_kind(q: CssMediaFeatureQuery) -> CssMediaFeatureKind {
    match q {
        CssMediaFeatureQuery::Boolean(k) => k,
        CssMediaFeatureQuery::Width(..) => CssMediaFeatureKind::Width,
        CssMediaFeatureQuery::Height(..) => CssMediaFeatureKind::Height,
        CssMediaFeatureQuery::DeviceWidth(..) => CssMediaFeatureKind::DeviceWidth,
        CssMediaFeatureQuery::DeviceHeight(..) => CssMediaFeatureKind::DeviceHeight,
        CssMediaFeatureQuery::AspectRatio(..) => CssMediaFeatureKind::AspectRatio,
        CssMediaFeatureQuery::DeviceAspectRatio(..) => CssMediaFeatureKind::DeviceAspectRatio,
        CssMediaFeatureQuery::Resolution(..) => CssMediaFeatureKind::Resolution,
        CssMediaFeatureQuery::Color(..) => CssMediaFeatureKind::Color,
        CssMediaFeatureQuery::ColorIndex(..) => CssMediaFeatureKind::ColorIndex,
        CssMediaFeatureQuery::Monochrome(..) => CssMediaFeatureKind::Monochrome,
        CssMediaFeatureQuery::HorizontalViewportSegments(..) => CssMediaFeatureKind::HorizontalViewportSegments,
        CssMediaFeatureQuery::VerticalViewportSegments(..) => CssMediaFeatureKind::VerticalViewportSegments,
        CssMediaFeatureQuery::Orientation(..) => CssMediaFeatureKind::Orientation,
        CssMediaFeatureQuery::Scan(..) => CssMediaFeatureKind::Scan,
        CssMediaFeatureQuery::Grid(..) => CssMediaFeatureKind::Grid,
        CssMediaFeatureQuery::PrefersColorScheme(..) => CssMediaFeatureKind::PrefersColorScheme,
        CssMediaFeatureQuery::PrefersReducedMotion(..) => CssMediaFeatureKind::PrefersReducedMotion,
        CssMediaFeatureQuery::PrefersReducedTransparency(..) => CssMediaFeatureKind::PrefersReducedTransparency,
        CssMediaFeatureQuery::PrefersContrast(..) => CssMediaFeatureKind::PrefersContrast,
        CssMediaFeatureQuery::ForcedColors(..) => CssMediaFeatureKind::ForcedColors,
        CssMediaFeatureQuery::Hover(..) => CssMediaFeatureKind::Hover,
        CssMediaFeatureQuery::AnyHover(..) => CssMediaFeatureKind::AnyHover,
        CssMediaFeatureQuery::Pointer(..) => CssMediaFeatureKind::Pointer,
        CssMediaFeatureQuery::AnyPointer(..) => CssMediaFeatureKind::AnyPointer,
        CssMediaFeatureQuery::DisplayMode(..) => CssMediaFeatureKind::DisplayMode,
        CssMediaFeatureQuery::Update(..) => CssMediaFeatureKind::Update,
        CssMediaFeatureQuery::OverflowBlock(..) => CssMediaFeatureKind::OverflowBlock,
        CssMediaFeatureQuery::OverflowInline(..) => CssMediaFeatureKind::OverflowInline,
        CssMediaFeatureQuery::ColorGamut(..) => CssMediaFeatureKind::ColorGamut,
        CssMediaFeatureQuery::VideoColorGamut(..) => CssMediaFeatureKind::VideoColorGamut,
        CssMediaFeatureQuery::DynamicRange(..) => CssMediaFeatureKind::DynamicRange,
        CssMediaFeatureQuery::VideoDynamicRange(..) => CssMediaFeatureKind::VideoDynamicRange,
        CssMediaFeatureQuery::EnvironmentBlending(..) => CssMediaFeatureKind::EnvironmentBlending,
        CssMediaFeatureQuery::InvertedColors(..) => CssMediaFeatureKind::InvertedColors,
        CssMediaFeatureQuery::NavControls(..) => CssMediaFeatureKind::NavControls,
        CssMediaFeatureQuery::Scripting(..) => CssMediaFeatureKind::Scripting,
        CssMediaFeatureQuery::PrefersReducedData(..) => CssMediaFeatureKind::PrefersReducedData,
    }
}

impl CssMediaFeatureQuery {
    pub fn kind(&self) -> (r: CssMediaFeatureKind)
        ensures
            r == query_kind(*self),
    {
        match self {
            CssMediaFeatureQuery::Boolean(k) => *k,
            CssMediaFeatureQuery::Width(..) => CssMediaFeatureKind::Width,
            CssMediaFeatureQuery::Height(..) => CssMediaFeatureKind::Height,
            CssMediaFeatureQuery::DeviceWidth(..) => CssMediaFeatureKind::DeviceWidth,
            CssMediaFeatureQuery::DeviceHeight(..) => CssMediaFeatureKind::DeviceHeight,
            CssMediaFeatureQuery::AspectRatio(..) => CssMediaFeatureKind::AspectRatio,
            CssMediaFeatureQuery::DeviceAspectRatio(..) => CssMediaFeatureKind::DeviceAspectRatio,
            CssMediaFeatureQuery::Resolution(..) => CssMediaFeatureKind::Resolution,
            CssMediaFeatureQuery::Color(..) => CssMediaFeatureKind::Color,
            CssMediaFeatureQuery::ColorIndex(..) => CssMediaFeatureKind::ColorIndex,
            CssMediaFeatureQuery::Monochrome(..) => CssMediaFeatureKind::Monochrome,
            CssMediaFeatureQuery::HorizontalViewportSegments(..) => CssMediaFeatureKind::HorizontalViewportSegments,
            CssMediaFeatureQuery::VerticalViewportSegments(..) => CssMediaFeatureKind::VerticalViewportSegments,
            CssMediaFeatureQuery::Orientation(..) => CssMediaFeatureKind::Orientation,
            CssMediaFeatureQuery::Scan(..) => CssMediaFeatureKind::Scan,
            CssMediaFeatureQuery::Grid(..) => CssMediaFeatureKind::Grid,
            CssMediaFeatureQuery::PrefersColorScheme(..) => CssMediaFeatureKind::PrefersColorScheme,
            CssMediaFeatureQuery::PrefersReducedMotion(..) => CssMediaFeatureKind::PrefersReducedMotion,
            CssMediaFeatureQuery::PrefersReducedTransparency(..) => CssMediaFeatureKind::PrefersReducedTransparency,
            CssMediaFeatureQuery::PrefersContrast(..) => CssMediaFeatureKind::PrefersContrast,
            CssMediaFeatureQuery::ForcedColors(..) => CssMediaFeatureKind::ForcedColors,
            CssMediaFeatureQuery::Hover(..) => CssMediaFeatureKind::Hover,
            CssMediaFeatureQuery::AnyHover(..) => CssMediaFeatureKind::AnyHover,
            CssMediaFeatureQuery::Pointer(..) => CssMediaFeatureKind::Pointer,
            CssMediaFeatureQuery::AnyPointer(..) => CssMediaFeatureKind::AnyPointer,
            CssMediaFeatureQuery::DisplayMode(..) => CssMediaFeatureKind::DisplayMode,
            CssMediaFeatureQuery::Update(..) => CssMediaFeatureKind::Update,
            CssMediaFeatureQuery::OverflowBlock(..) => CssMediaFeatureKind::OverflowBlock,
            CssMediaFeatureQuery::OverflowInline(..) => CssMediaFeatureKind::OverflowInline,
            CssMediaFeatureQuery::ColorGamut(..) => CssMediaFeatureKind::ColorGamut,
            CssMediaFeatureQuery::VideoColorGamut(..) => CssMediaFeatureKind::VideoColorGamut,
            CssMediaFeatureQuery::DynamicRange(..) => CssMediaFeatureKind::DynamicRange,
            CssMediaFeatureQuery::VideoDynamicRange(..) => CssMediaFeatureKind::VideoDynamicRange,
            CssMediaFeatureQuery::EnvironmentBlending(..) => CssMediaFeatureKind::EnvironmentBlending,
            CssMediaFeatureQuery::InvertedColors(..) => CssMediaFeatureKind::InvertedColors,
            CssMediaFeatureQuery::NavControls(..) => CssMediaFeatureKind::NavControls,
            CssMediaFeatureQuery::Scripting(..) => CssMediaFeatureKind::Scripting,
            CssMediaFeatureQuery::PrefersReducedData(..) => CssMediaFeatureKind::PrefersReducedData,
        }
    }

    pub fn name(&self) -> (r: &'static str)
        ensures
            r@ == feature_name(query_kind(*self))@,
    {
        self.kind().name()
    }
}

/// Texts that differ in length, or in a character ignoring ASCII case, are different names.
proof fn lemma_differs(a: Seq<char>, b: Seq<char>, i: int)
    requires
        a.len() != b.len() || (0 <= i < a.len() && 0 <= i < b.len() && crate::units::lower_code(a[i]) != crate::units::lower_code(b[i])),
    ensures
        !same_ignoring_case(a, b),
{
}

/// Each feature's own name spells it back.
#[verifier::rlimit(100)]
pub proof fn lemma_feature_name_round_trip(k: CssMediaFeatureKind)
    ensures
        feature_from(feature_name(k)@, 0) == Some(k),
{
    reveal_strlit("width");
    reveal_strlit("height");
    reveal_strlit("device-width");
    reveal_strlit("device-height");
    reveal_strlit("aspect-ratio");
    reveal_strlit("device-aspect-ratio");
    reveal_strlit("resolution");
    reveal_strlit("color");
    reveal_strlit("color-index");
    reveal_strlit("monochrome");
    reveal_strlit("horizontal-viewport-segments");
    reveal_strlit("vertical-viewport-segments");
    reveal_strlit("orientation");
    reveal_strlit("scan");
    reveal_strlit("grid");
    reveal_strlit("prefers-color-scheme");
    reveal_strlit("prefers-reduced-motion");
    reveal_strlit("prefers-reduced-transparency");
    reveal_strlit("prefers-contrast");
    reveal_strlit("forced-colors");
    reveal_strlit("hover");
    reveal_strlit("any-hover");
    reveal_strlit("pointer");
    reveal_strlit("any-pointer");
    reveal_strlit("display-mode");
    reveal_strlit("update");
    reveal_strlit("overflow-block");
    reveal_strlit("overflow-inline");
    reveal_strlit("color-gamut");
    reveal_strlit("video-color-gamut");
    reveal_strlit("dynamic-range");
    reveal_strlit("video-dynamic-range");
    reveal_strlit("environment-blending");
    reveal_strlit("inverted-colors");
    reveal_strlit("nav-controls");
    reveal_strlit("scripting");
    reveal_strlit("prefers-reduced-data");
    reveal_with_fuel(feature_from, 38);
    match k {
        CssMediaFeatureKind::Width => {},
        CssMediaFeatureKind::Height => {
            lemma_differs("height"@, "width"@, 0);
        },
        CssMediaFeatureKind::DeviceWidth => {
            lemma_differs("device-width"@, "width"@, 0);
            lemma_differs("device-width"@, "height"@, 0);
        },
        CssMediaFeatureKind::DeviceHeight => {
            lemma_differs("device-height"@, "width"@, 0);
            lemma_differs("device-height"@, "height"@, 0);
            lemma_differs("device-height"@, "device-width"@, 0);
        },
        CssMediaFeatureKind::AspectRatio => {
            lemma_differs("aspect-ratio"@, "width"@, 0);
            lemma_differs("aspect-ratio"@, "height"@, 0);
            lemma_differs("aspect-ratio"@, "device-width"@, 0);
            lemma_differs("aspect-ratio"@, "device-height"@, 0);
        },
        CssMediaFeatureKind::DeviceAspectRatio => {
            lemma_differs("device-aspect-ratio"@, "width"@, 0);
            lemma_differs("device-aspect-ratio"@, "height"@, 0);
            lemma_differs("device-aspect-ratio"@, "device-width"@, 0);
            lemma_differs("device-aspect-ratio"@, "device-height"@, 0);
            lemma_differs("device-aspect-ratio"@, "aspect-ratio"@, 0);
        },
        CssMediaFeatureKind::Resolution => {
            lemma_differs("resolution"@, "width"@, 0);
            lemma_differs("resolution"@, "height"@, 0);
            lemma_differs("resolution"@, "device-width"@, 0);
            lemma_differs("resolution"@, "device-height"@, 0);
            lemma_differs("resolution"@, "aspect-ratio"@, 0);
            lemma_differs("resolution"@, "device-aspect-ratio"@, 0);
        },
        CssMediaFeatureKind::Color => {
            lemma_differs("color"@, "width"@, 0);
            lemma_differs("color"@, "height"@, 0);
            lemma_differs("color"@, "device-width"@, 0);
            lemma_differs("color"@, "device-height"@, 0);
            lemma_differs("color"@, "aspect-ratio"@, 0);
            lemma_differs("color"@, "device-aspect-ratio"@, 0);
            lemma_differs("color"@, "resolution"@, 0);
        },
        CssMediaFeatureKind::ColorIndex => {
            lemma_differs("color-index"@, "width"@, 0);
            lemma_differs("color-index"@, "height"@, 0);
            lemma_differs("color-index"@, "device-width"@, 0);
            lemma_differs("color-index"@, "device-height"@, 0);
            lemma_differs("color-index"@, "aspect-ratio"@, 0);
            lemma_differs("color-index"@, "device-aspect-ratio"@, 0);
            lemma_differs("color-index"@, "resolution"@, 0);
            lemma_differs("color-index"@, "color"@, 0);
        },
        CssMediaFeatureKind::Monochrome => {
            lemma_differs("monochrome"@, "width"@, 0);
            lemma_differs("monochrome"@, "height"@, 0);
            lemma_differs("monochrome"@, "device-width"@, 0);
            lemma_differs("monochrome"@, "device-height"@, 0);
            lemma_differs("monochrome"@, "aspect-ratio"@, 0);
            lemma_differs("monochrome"@, "device-aspect-ratio"@, 0);
            lemma_differs("monochrome"@, "resolution"@, 0);
            lemma_differs("monochrome"@, "color"@, 0);
            lemma_differs("monochrome"@, "color-index"@, 0);
        },
        CssMediaFeatureKind::HorizontalViewportSegments => {
            lemma_differs("horizontal-viewport-segments"@, "width"@, 0);
            lemma_differs("horizontal-viewport-segments"@, "height"@, 0);
            lemma_differs("horizontal-viewport-segments"@, "device-width"@, 0);
            lemma_differs("horizontal-viewport-segments"@, "device-height"@, 0);
            lemma_differs("horizontal-viewport-segments"@, "aspect-ratio"@, 0);
            lemma_differs("horizontal-viewport-segments"@, "device-aspect-ratio"@, 0);
            lemma_differs("horizontal-viewport-segments"@, "resolution"@, 0);
            lemma_differs("horizontal-viewport-segments"@, "color"@, 0);
            lemma_differs("horizontal-viewport-segments"@, "color-index"@, 0);
            lemma_differs("horizontal-viewport-segments"@, "monochrome"@, 0);
        },
        CssMediaFeatureKind::VerticalViewportSegments => {
            lemma_differs("vertical-viewport-segments"@, "width"@, 0);
            lemma_differs("vertical-viewport-segments"@, "height"@, 0);
            lemma_differs("vertical-viewport-segments"@, "device-width"@, 0);
            lemma_differs("vertical-viewport-segments"@, "device-height"@, 0);
            lemma_differs("vertical-viewport-segments"@, "aspect-ratio"@, 0);
            lemma_differs("vertical-viewport-segments"@, "device-aspect-ratio"@, 0);
            lemma_differs("vertical-viewport-segments"@, "resolution"@, 0);
            lemma_differs("vertical-viewport-segments"@, "color"@, 0);
            lemma_differs("vertical-viewport-segments"@, "color-index"@, 0);
            lemma_differs("vertical-viewport-segments"@, "monochrome"@, 0);
            lemma_differs("vertical-viewport-segments"@, "horizontal-viewport-segments"@, 0);
        },
        CssMediaFeatureKind::Orientation => {
            lemma_differs("orientation"@, "width"@, 0);
            lemma_differs("orientation"@, "height"@, 0);
            lemma_differs("orientation"@, "device-width"@, 0);
            lemma_differs("orientation"@, "device-height"@, 0);
            lemma_differs("orientation"@, "aspect-ratio"@, 0);
            lemma_differs("orientation"@, "device-aspect-ratio"@, 0);
            lemma_differs("orientation"@, "resolution"@, 0);
            lemma_differs("orientation"@, "color"@, 0);
            lemma_differs("orientation"@, "color-index"@, 0);
            lemma_differs("orientation"@, "monochrome"@, 0);
            lemma_differs("orientation"@, "horizontal-viewport-segments"@, 0);
            lemma_differs("orientation"@, "vertical-viewport-segments"@, 0);
        },
        CssMediaFeatureKind::Scan => {
            lemma_differs("scan"@, "width"@, 0);
            lemma_differs("scan"@, "height"@, 0);
            lemma_differs("scan"@, "device-width"@, 0);
            lemma_differs("scan"@, "device-height"@, 0);
            lemma_differs("scan"@, "aspect-ratio"@, 0);
            lemma_differs("scan"@, "device-aspect-ratio"@, 0);
            lemma_differs("scan"@, "resolution"@, 0);
            lemma_differs("scan"@, "color"@, 0);
            lemma_differs("scan"@, "color-index"@, 0);
            lemma_differs("scan"@, "monochrome"@, 0);
            lemma_differs("scan"@, "horizontal-viewport-segments"@, 0);
            lemma_differs("scan"@, "vertical-viewport-segments"@, 0);
            lemma_differs("scan"@, "orientation"@, 0);
        },
        CssMediaFeatureKind::Grid => {
            lemma_differs("grid"@, "width"@, 0);
            lemma_differs("grid"@, "height"@, 0);
            lemma_differs("grid"@, "device-width"@, 0);
            lemma_differs("grid"@, "device-height"@, 0);
            lemma_differs("grid"@, "aspect-ratio"@, 0);
            lemma_differs("grid"@, "device-aspect-ratio"@, 0);
            lemma_differs("grid"@, "resolution"@, 0);
            lemma_differs("grid"@, "color"@, 0);
            lemma_differs("grid"@, "color-index"@, 0);
            lemma_differs("grid"@, "monochrome"@, 0);
            lemma_differs("grid"@, "horizontal-viewport-segments"@, 0);
            lemma_differs("grid"@, "vertical-viewport-segments"@, 0);
            lemma_differs("grid"@, "orientation"@, 0);
            lemma_differs("grid"@, "scan"@, 0);
        },
        CssMediaFeatureKind::PrefersColorScheme => {
            lemma_differs("prefers-color-scheme"@, "width"@, 0);
            lemma_differs("prefers-color-scheme"@, "height"@, 0);
            lemma_differs("prefers-color-scheme"@, "device-width"@, 0);
            lemma_differs("prefers-color-scheme"@, "device-height"@, 0);
            lemma_differs("prefers-color-scheme"@, "aspect-ratio"@, 0);
            lemma_differs("prefers-color-scheme"@, "device-aspect-ratio"@, 0);
            lemma_differs("prefers-color-scheme"@, "resolution"@, 0);
            lemma_differs("prefers-color-scheme"@, "color"@, 0);
            lemma_differs("prefers-color-scheme"@, "color-index"@, 0);
            lemma_differs("prefers-color-scheme"@, "monochrome"@, 0);
            lemma_differs("prefers-color-scheme"@, "horizontal-viewport-segments"@, 0);
            lemma_differs("prefers-color-scheme"@, "vertical-viewport-segments"@, 0);
            lemma_differs("prefers-color-scheme"@, "orientation"@, 0);
            lemma_differs("prefers-color-scheme"@, "scan"@, 0);
            lemma_differs("prefers-color-scheme"@, "grid"@, 0);
        },
        CssMediaFeatureKind::PrefersReducedMotion => {
            lemma_differs("prefers-reduced-motion"@, "width"@, 0);
            lemma_differs("prefers-reduced-motion"@, "height"@, 0);
            lemma_differs("prefers-reduced-motion"@, "device-width"@, 0);
            lemma_differs("prefers-reduced-motion"@, "device-height"@, 0);
            lemma_differs("prefers-reduced-motion"@, "aspect-ratio"@, 0);
            lemma_differs("prefers-reduced-motion"@, "device-aspect-ratio"@, 0);
            lemma_differs("prefers-reduced-motion"@, "resolution"@, 0);
            lemma_differs("prefers-reduced-motion"@, "color"@, 0);
            lemma_differs("prefers-reduced-motion"@, "color-index"@, 0);
            lemma_differs("prefers-reduced-motion"@, "monochrome"@, 0);
            lemma_differs("prefers-reduced-motion"@, "horizontal-viewport-segments"@, 0);
            lemma_differs("prefers-reduced-motion"@, "vertical-viewport-segments"@, 0);
            lemma_differs("prefers-reduced-motion"@, "orientation"@, 0);
            lemma_differs("prefers-reduced-motion"@, "scan"@, 0);
            lemma_differs("prefers-reduced-motion"@, "grid"@, 0);
            lemma_differs("prefers-reduced-motion"@, "prefers-color-scheme"@, 0);
        },
        CssMediaFeatureKind::PrefersReducedTransparency => {
            lemma_differs("prefers-reduced-transparency"@, "width"@, 0);
            lemma_differs("prefers-reduced-transparency"@, "height"@, 0);
            lemma_differs("prefers-reduced-transparency"@, "device-width"@, 0);
            lemma_differs("prefers-reduced-transparency"@, "device-height"@, 0);
            lemma_differs("prefers-reduced-transparency"@, "aspect-ratio"@, 0);
            lemma_differs("prefers-reduced-transparency"@, "device-aspect-ratio"@, 0);
            lemma_differs("prefers-reduced-transparency"@, "resolution"@, 0);
            lemma_differs("prefers-reduced-transparency"@, "color"@, 0);
            lemma_differs("prefers-reduced-transparency"@, "color-index"@, 0);
            lemma_differs("prefers-reduced-transparency"@, "monochrome"@, 0);
            lemma_differs("prefers-reduced-transparency"@, "horizontal-viewport-segments"@, 0);
            lemma_differs("prefers-reduced-transparency"@, "vertical-viewport-segments"@, 0);
            lemma_differs("prefers-reduced-transparency"@, "orientation"@, 0);
            lemma_differs("prefers-reduced-transparency"@, "scan"@, 0);
            lemma_differs("prefers-reduced-transparency"@, "grid"@, 0);
            lemma_differs("prefers-reduced-transparency"@, "prefers-color-scheme"@, 0);
            lemma_differs("prefers-reduced-transparency"@, "prefers-reduced-motion"@, 0);
        },
        CssMediaFeatureKind::PrefersContrast => {
            lemma_differs("prefers-contrast"@, "width"@, 0);
            lemma_differs("prefers-contrast"@, "height"@, 0);
            lemma_differs("prefers-contrast"@, "device-width"@, 0);
            lemma_differs("prefers-contrast"@, "device-height"@, 0);
            lemma_differs("prefers-contrast"@, "aspect-ratio"@, 0);
            lemma_differs("prefers-contrast"@, "device-aspect-ratio"@, 0);
            lemma_differs("prefers-contrast"@, "resolution"@, 0);
            lemma_differs("prefers-contrast"@, "color"@, 0);
            lemma_differs("prefers-contrast"@, "color-index"@, 0);
            lemma_differs("prefers-contrast"@, "monochrome"@, 0);
            lemma_differs("prefers-contrast"@, "horizontal-viewport-segments"@, 0);
            lemma_differs("prefers-contrast"@, "vertical-viewport-segments"@, 0);
            lemma_differs("prefers-contrast"@, "orientation"@, 0);
            lemma_differs("prefers-contrast"@, "scan"@, 0);
            lemma_differs("prefers-contrast"@, "grid"@, 0);
            lemma_differs("prefers-contrast"@, "prefers-color-scheme"@, 0);
            lemma_differs("prefers-contrast"@, "prefers-reduced-motion"@, 0);
            lemma_differs("prefers-contrast"@, "prefers-reduced-transparency"@, 0);
        },
        CssMediaFeatureKind::ForcedColors => {
            lemma_differs("forced-colors"@, "width"@, 0);
            lemma_differs("forced-colors"@, "height"@, 0);
            lemma_differs("forced-colors"@, "device-width"@, 0);
            lemma_differs("forced-colors"@, "device-height"@, 0);
            lemma_differs("forced-colors"@, "aspect-ratio"@, 0);
            lemma_differs("forced-colors"@, "device-aspect-ratio"@, 0);
            lemma_differs("forced-colors"@, "resolution"@, 0);
            lemma_differs("forced-colors"@, "color"@, 0);
            lemma_differs("forced-colors"@, "color-index"@, 0);
            lemma_differs("forced-colors"@, "monochrome"@, 0);
            lemma_differs("forced-colors"@, "horizontal-viewport-segments"@, 0);
            lemma_differs("forced-colors"@, "vertical-viewport-segments"@, 0);
            lemma_differs("forced-colors"@, "orientation"@, 0);
            lemma_differs("forced-colors"@, "scan"@, 0);
            lemma_differs("forced-colors"@, "grid"@, 0);
            lemma_differs("forced-colors"@, "prefers-color-scheme"@, 0);
            lemma_differs("forced-colors"@, "prefers-reduced-motion"@, 0);
            lemma_differs("forced-colors"@, "prefers-reduced-transparency"@, 0);
            lemma_differs("forced-colors"@, "prefers-contrast"@, 0);
        },
        CssMediaFeatureKind::Hover => {
            lemma_differs("hover"@, "width"@, 0);
            lemma_differs("hover"@, "height"@, 0);
            lemma_differs("hover"@, "device-width"@, 0);
            lemma_differs("hover"@, "device-height"@, 0);
            lemma_differs("hover"@, "aspect-ratio"@, 0);
            lemma_differs("hover"@, "device-aspect-ratio"@, 0);
            lemma_differs("hover"@, "resolution"@, 0);
            lemma_differs("hover"@, "color"@, 0);
            lemma_differs("hover"@, "color-index"@, 0);
            lemma_differs("hover"@, "monochrome"@, 0);
            lemma_differs("hover"@, "horizontal-viewport-segments"@, 0);
            lemma_differs("hover"@, "vertical-viewport-segments"@, 0);
            lemma_differs("hover"@, "orientation"@, 0);
            lemma_differs("hover"@, "scan"@, 0);
            lemma_differs("hover"@, "grid"@, 0);
            lemma_differs("hover"@, "prefers-color-scheme"@, 0);
            lemma_differs("hover"@, "prefers-reduced-motion"@, 0);
            lemma_differs("hover"@, "prefers-reduced-transparency"@, 0);
            lemma_differs("hover"@, "prefers-contrast"@, 0);
            lemma_differs("hover"@, "forced-colors"@, 0);
        },
        CssMediaFeatureKind::AnyHover => {
            lemma_differs("any-hover"@, "width"@, 0);
            lemma_differs("any-hover"@, "height"@, 0);
            lemma_differs("any-hover"@, "device-width"@, 0);
            lemma_differs("any-hover"@, "device-height"@, 0);
            lemma_differs("any-hover"@, "aspect-ratio"@, 0);
            lemma_differs("any-hover"@, "device-aspect-ratio"@, 0);
            lemma_differs("any-hover"@, "resolution"@, 0);
            lemma_differs("any-hover"@, "color"@, 0);
            lemma_differs("any-hover"@, "color-index"@, 0);
            lemma_differs("any-hover"@, "monochrome"@, 0);
            lemma_differs("any-hover"@, "horizontal-viewport-segments"@, 0);
            lemma_differs("any-hover"@, "vertical-viewport-segments"@, 0);
            lemma_differs("any-hover"@, "orientation"@, 0);
            lemma_differs("any-hover"@, "scan"@, 0);
            lemma_differs("any-hover"@, "grid"@, 0);
            lemma_differs("any-hover"@, "prefers-color-scheme"@, 0);
            lemma_differs("any-hover"@, "prefers-reduced-motion"@, 0);
            lemma_differs("any-hover"@, "prefers-reduced-transparency"@, 0);
            lemma_differs("any-hover"@, "prefers-contrast"@, 0);
            lemma_differs("any-hover"@, "forced-colors"@, 0);
            lemma_differs("any-hover"@, "hover"@, 0);
        },
        CssMediaFeatureKind::Pointer => {
            lemma_differs("pointer"@, "width"@, 0);
            lemma_differs("pointer"@, "height"@, 0);
            lemma_differs("pointer"@, "device-width"@, 0);
            lemma_differs("pointer"@, "device-height"@, 0);
            lemma_differs("pointer"@, "aspect-ratio"@, 0);
            lemma_differs("pointer"@, "device-aspect-ratio"@, 0);
            lemma_differs("pointer"@, "resolution"@, 0);
            lemma_differs("pointer"@, "color"@, 0);
            lemma_differs("pointer"@, "color-index"@, 0);
            lemma_differs("pointer"@, "monochrome"@, 0);
            lemma_differs("pointer"@, "horizontal-viewport-segments"@, 0);
            lemma_differs("pointer"@, "vertical-viewport-segments"@, 0);
            lemma_differs("pointer"@, "orientation"@, 0);
            lemma_differs("pointer"@, "scan"@, 0);
            lemma_differs("pointer"@, "grid"@, 0);
            lemma_differs("pointer"@, "prefers-color-scheme"@, 0);
            lemma_differs("pointer"@, "prefers-reduced-motion"@, 0);
            lemma_differs("pointer"@, "prefers-reduced-transparency"@, 0);
            lemma_differs("pointer"@, "prefers-contrast"@, 0);
            lemma_differs("pointer"@, "forced-colors"@, 0);
            lemma_differs("pointer"@, "hover"@, 0);
            lemma_differs("pointer"@, "any-hover"@, 0);
        },
        CssMediaFeatureKind::AnyPointer => {
            lemma_differs("any-pointer"@, "width"@, 0);
            lemma_differs("any-pointer"@, "height"@, 0);
            lemma_differs("any-pointer"@, "device-width"@, 0);
            lemma_differs("any-pointer"@, "device-height"@, 0);
            lemma_differs("any-pointer"@, "aspect-ratio"@, 0);
            lemma_differs("any-pointer"@, "device-aspect-ratio"@, 0);
            lemma_differs("any-pointer"@, "resolution"@, 0);
            lemma_differs("any-pointer"@, "color"@, 0);
            lemma_differs("any-pointer"@, "color-index"@, 0);
            lemma_differs("any-pointer"@, "monochrome"@, 0);
            lemma_differs("any-pointer"@, "horizontal-viewport-segments"@, 0);
            lemma_differs("any-pointer"@, "vertical-viewport-segments"@, 0);
            lemma_differs("any-pointer"@, "orientation"@, 0);
            lemma_differs("any-pointer"@, "scan"@, 0);
            lemma_differs("any-pointer"@, "grid"@, 0);
            lemma_differs("any-pointer"@, "prefers-color-scheme"@, 0);
            lemma_differs("any-pointer"@, "prefers-reduced-motion"@, 0);
            lemma_differs("any-pointer"@, "prefers-reduced-transparency"@, 0);
            lemma_differs("any-pointer"@, "prefers-contrast"@, 0);
            lemma_differs("any-pointer"@, "forced-colors"@, 0);
            lemma_differs("any-pointer"@, "hover"@, 0);
            lemma_differs("any-pointer"@, "any-hover"@, 0);
            lemma_differs("any-pointer"@, "pointer"@, 0);
        },
        CssMediaFeatureKind::DisplayMode => {
            lemma_differs("display-mode"@, "width"@, 0);
            lemma_differs("display-mode"@, "height"@, 0);
            lemma_differs("display-mode"@, "device-width"@, 1);
            lemma_differs("display-mode"@, "device-height"@, 0);
            lemma_differs("display-mode"@, "aspect-ratio"@, 0);
            lemma_differs("display-mode"@, "device-aspect-ratio"@, 0);
            lemma_differs("display-mode"@, "resolution"@, 0);
            lemma_differs("display-mode"@, "color"@, 0);
            lemma_differs("display-mode"@, "color-index"@, 0);
            lemma_differs("display-mode"@, "monochrome"@, 0);
            lemma_differs("display-mode"@, "horizontal-viewport-segments"@, 0);
            lemma_differs("display-mode"@, "vertical-viewport-segments"@, 0);
            lemma_differs("display-mode"@, "orientation"@, 0);
            lemma_differs("display-mode"@, "scan"@, 0);
            lemma_differs("display-mode"@, "grid"@, 0);
            lemma_differs("display-mode"@, "prefers-color-scheme"@, 0);
            lemma_differs("display-mode"@, "prefers-reduced-motion"@, 0);
            lemma_differs("display-mode"@, "prefers-reduced-transparency"@, 0);
            lemma_differs("display-mode"@, "prefers-contrast"@, 0);
            lemma_differs("display-mode"@, "forced-colors"@, 0);
            lemma_differs("display-mode"@, "hover"@, 0);
            lemma_differs("display-mode"@, "any-hover"@, 0);
            lemma_differs("display-mode"@, "pointer"@, 0);
            lemma_differs("display-mode"@, "any-pointer"@, 0);
        },
        CssMediaFeatureKind::Update => {
            lemma_differs("update"@, "width"@, 0);
            lemma_differs("update"@, "height"@, 0);
            lemma_differs("update"@, "device-width"@, 0);
            lemma_differs("update"@, "device-height"@, 0);
            lemma_differs("update"@, "aspect-ratio"@, 0);
            lemma_differs("update"@, "device-aspect-ratio"@, 0);
            lemma_differs("update"@, "resolution"@, 0);
            lemma_differs("update"@, "color"@, 0);
            lemma_differs("update"@, "color-index"@, 0);
            lemma_differs("update"@, "monochrome"@, 0);
            lemma_differs("update"@, "horizontal-viewport-segments"@, 0);
            lemma_differs("update"@, "vertical-viewport-segments"@, 0);
            lemma_differs("update"@, "orientation"@, 0);
            lemma_differs("update"@, "scan"@, 0);
            lemma_differs("update"@, "grid"@, 0);
            lemma_differs("update"@, "prefers-color-scheme"@, 0);
            lemma_differs("update"@, "prefers-reduced-motion"@, 0);
            lemma_differs("update"@, "prefers-reduced-transparency"@, 0);
            lemma_differs("update"@, "prefers-contrast"@, 0);
            lemma_differs("update"@, "forced-colors"@, 0);
            lemma_differs("update"@, "hover"@, 0);
            lemma_differs("update"@, "any-hover"@, 0);
            lemma_differs("update"@, "pointer"@, 0);
            lemma_differs("update"@, "any-pointer"@, 0);
            lemma_differs("update"@, "display-mode"@, 0);
        },
        CssMediaFeatureKind::OverflowBlock => {
            lemma_differs("overflow-block"@, "width"@, 0);
            lemma_differs("overflow-block"@, "height"@, 0);
            lemma_differs("overflow-block"@, "device-width"@, 0);
            lemma_differs("overflow-block"@, "device-height"@, 0);
            lemma_differs("overflow-block"@, "aspect-ratio"@, 0);
            lemma_differs("overflow-block"@, "device-aspect-ratio"@, 0);
            lemma_differs("overflow-block"@, "resolution"@, 0);
            lemma_differs("overflow-block"@, "color"@, 0);
            lemma_differs("overflow-block"@, "color-index"@, 0);
            lemma_differs("overflow-block"@, "monochrome"@, 0);
            lemma_differs("overflow-block"@, "horizontal-viewport-segments"@, 0);
            lemma_differs("overflow-block"@, "vertical-viewport-segments"@, 0);
            lemma_differs("overflow-block"@, "orientation"@, 0);
            lemma_differs("overflow-block"@, "scan"@, 0);
            lemma_differs("overflow-block"@, "grid"@, 0);
            lemma_differs("overflow-block"@, "prefers-color-scheme"@, 0);
            lemma_differs("overflow-block"@, "prefers-reduced-motion"@, 0);
            lemma_differs("overflow-block"@, "prefers-reduced-transparency"@, 0);
            lemma_differs("overflow-block"@, "prefers-contrast"@, 0);
            lemma_differs("overflow-block"@, "forced-colors"@, 0);
            lemma_differs("overflow-block"@, "hover"@, 0);
            lemma_differs("overflow-block"@, "any-hover"@, 0);
            lemma_differs("overflow-block"@, "pointer"@, 0);
            lemma_differs("overflow-block"@, "any-pointer"@, 0);
            lemma_differs("overflow-block"@, "display-mode"@, 0);
            lemma_differs("overflow-block"@, "update"@, 0);
        },
        CssMediaFeatureKind::OverflowInline => {
            lemma_differs("overflow-inline"@, "width"@, 0);
            lemma_differs("overflow-inline"@, "height"@, 0);
            lemma_differs("overflow-inline"@, "device-width"@, 0);
            lemma_differs("overflow-inline"@, "device-height"@, 0);
            lemma_differs("overflow-inline"@, "aspect-ratio"@, 0);
            lemma_differs("overflow-inline"@, "device-aspect-ratio"@, 0);
            lemma_differs("overflow-inline"@, "resolution"@, 0);
            lemma_differs("overflow-inline"@, "color"@, 0);
            lemma_differs("overflow-inline"@, "color-index"@, 0);
            lemma_differs("overflow-inline"@, "monochrome"@, 0);
            lemma_differs("overflow-inline"@, "horizontal-viewport-segments"@, 0);
            lemma_differs("overflow-inline"@, "vertical-viewport-segments"@, 0);
            lemma_differs("overflow-inline"@, "orientation"@, 0);
            lemma_differs("overflow-inline"@, "scan"@, 0);
            lemma_differs("overflow-inline"@, "grid"@, 0);
            lemma_differs("overflow-inline"@, "prefers-color-scheme"@, 0);
            lemma_differs("overflow-inline"@, "prefers-reduced-motion"@, 0);
            lemma_differs("overflow-inline"@, "prefers-reduced-transparency"@, 0);
            lemma_differs("overflow-inline"@, "prefers-contrast"@, 0);
            lemma_differs("overflow-inline"@, "forced-colors"@, 0);
            lemma_differs("overflow-inline"@, "hover"@, 0);
            lemma_differs("overflow-inline"@, "any-hover"@, 0);
            lemma_differs("overflow-inline"@, "pointer"@, 0);
            lemma_differs("overflow-inline"@, "any-pointer"@, 0);
            lemma_differs("overflow-inline"@, "display-mode"@, 0);
            lemma_differs("overflow-inline"@, "update"@, 0);
            lemma_differs("overflow-inline"@, "overflow-block"@, 0);
        },
        CssMediaFeatureKind::ColorGamut => {
            lemma_differs("color-gamut"@, "width"@, 0);
            lemma_differs("color-gamut"@, "height"@, 0);
            lemma_differs("color-gamut"@, "device-width"@, 0);
            lemma_differs("color-gamut"@, "device-height"@, 0);
            lemma_differs("color-gamut"@, "aspect-ratio"@, 0);
            lemma_differs("color-gamut"@, "device-aspect-ratio"@, 0);
            lemma_differs("color-gamut"@, "resolution"@, 0);
            lemma_differs("color-gamut"@, "color"@, 0);
            lemma_differs("color-gamut"@, "color-index"@, 6);
            lemma_differs("color-gamut"@, "monochrome"@, 0);
            lemma_differs("color-gamut"@, "horizontal-viewport-segments"@, 0);
            lemma_differs("color-gamut"@, "vertical-viewport-segments"@, 0);
            lemma_differs("color-gamut"@, "orientation"@, 0);
            lemma_differs("color-gamut"@, "scan"@, 0);
            lemma_differs("color-gamut"@, "grid"@, 0);
            lemma_differs("color-gamut"@, "prefers-color-scheme"@, 0);
            lemma_differs("color-gamut"@, "prefers-reduced-motion"@, 0);
            lemma_differs("color-gamut"@, "prefers-reduced-transparency"@, 0);
            lemma_differs("color-gamut"@, "prefers-contrast"@, 0);
            lemma_differs("color-gamut"@, "forced-colors"@, 0);
            lemma_differs("color-gamut"@, "hover"@, 0);
            lemma_differs("color-gamut"@, "any-hover"@, 0);
            lemma_differs("color-gamut"@, "pointer"@, 0);
            lemma_differs("color-gamut"@, "any-pointer"@, 0);
            lemma_differs("color-gamut"@, "display-mode"@, 0);
            lemma_differs("color-gamut"@, "update"@, 0);
            lemma_differs("color-gamut"@, "overflow-block"@, 0);
            lemma_differs("color-gamut"@, "overflow-inline"@, 0);
        },
        CssMediaFeatureKind::VideoColorGamut => {
            lemma_differs("video-color-gamut"@, "width"@, 0);
            lemma_differs("video-color-gamut"@, "height"@, 0);
            lemma_differs("video-color-gamut"@, "device-width"@, 0);
            lemma_differs("video-color-gamut"@, "device-height"@, 0);
            lemma_differs("video-color-gamut"@, "aspect-ratio"@, 0);
            lemma_differs("video-color-gamut"@, "device-aspect-ratio"@, 0);
            lemma_differs("video-color-gamut"@, "resolution"@, 0);
            lemma_differs("video-color-gamut"@, "color"@, 0);
            lemma_differs("video-color-gamut"@, "color-index"@, 0);
            lemma_differs("video-color-gamut"@, "monochrome"@, 0);
            lemma_differs("video-color-gamut"@, "horizontal-viewport-segments"@, 0);
            lemma_differs("video-color-gamut"@, "vertical-viewport-segments"@, 0);
            lemma_differs("video-color-gamut"@, "orientation"@, 0);
            lemma_differs("video-color-gamut"@, "scan"@, 0);
            lemma_differs("video-color-gamut"@, "grid"@, 0);
            lemma_differs("video-color-gamut"@, "prefers-color-scheme"@, 0);
            lemma_differs("video-color-gamut"@, "prefers-reduced-motion"@, 0);
            lemma_differs("video-color-gamut"@, "prefers-reduced-transparency"@, 0);
            lemma_differs("video-color-gamut"@, "prefers-contrast"@, 0);
            lemma_differs("video-color-gamut"@, "forced-colors"@, 0);
            lemma_differs("video-color-gamut"@, "hover"@, 0);
            lemma_differs("video-color-gamut"@, "any-hover"@, 0);
            lemma_differs("video-color-gamut"@, "pointer"@, 0);
            lemma_differs("video-color-gamut"@, "any-pointer"@, 0);
            lemma_differs("video-color-gamut"@, "display-mode"@, 0);
            lemma_differs("video-color-gamut"@, "update"@, 0);
            lemma_differs("video-color-gamut"@, "overflow-block"@, 0);
            lemma_differs("video-color-gamut"@, "overflow-inline"@, 0);
            lemma_differs("video-color-gamut"@, "color-gamut"@, 0);
        },
        CssMediaFeatureKind::DynamicRange => {
            lemma_differs("dynamic-range"@, "width"@, 0);
            lemma_differs("dynamic-range"@, "height"@, 0);
            lemma_differs("dynamic-range"@, "device-width"@, 0);
            lemma_differs("dynamic-range"@, "device-height"@, 1);
            lemma_differs("dynamic-range"@, "aspect-ratio"@, 0);
            lemma_differs("dynamic-range"@, "device-aspect-ratio"@, 0);
            lemma_differs("dynamic-range"@, "resolution"@, 0);
            lemma_differs("dynamic-range"@, "color"@, 0);
            lemma_differs("dynamic-range"@, "color-index"@, 0);
            lemma_differs("dynamic-range"@, "monochrome"@, 0);
            lemma_differs("dynamic-range"@, "horizontal-viewport-segments"@, 0);
            lemma_differs("dynamic-range"@, "vertical-viewport-segments"@, 0);
            lemma_differs("dynamic-range"@, "orientation"@, 0);
            lemma_differs("dynamic-range"@, "scan"@, 0);
            lemma_differs("dynamic-range"@, "grid"@, 0);
            lemma_differs("dynamic-range"@, "prefers-color-scheme"@, 0);
            lemma_differs("dynamic-range"@, "prefers-reduced-motion"@, 0);
            lemma_differs("dynamic-range"@, "prefers-reduced-transparency"@, 0);
            lemma_differs("dynamic-range"@, "prefers-contrast"@, 0);
            lemma_differs("dynamic-range"@, "forced-colors"@, 0);
            lemma_differs("dynamic-range"@, "hover"@, 0);
            lemma_differs("dynamic-range"@, "any-hover"@, 0);
            lemma_differs("dynamic-range"@, "pointer"@, 0);
            lemma_differs("dynamic-range"@, "any-pointer"@, 0);
            lemma_differs("dynamic-range"@, "display-mode"@, 0);
            lemma_differs("dynamic-range"@, "update"@, 0);
            lemma_differs("dynamic-range"@, "overflow-block"@, 0);
            lemma_differs("dynamic-range"@, "overflow-inline"@, 0);
            lemma_differs("dynamic-range"@, "color-gamut"@, 0);
            lemma_differs("dynamic-range"@, "video-color-gamut"@, 0);
        },
        CssMediaFeatureKind::VideoDynamicRange => {
            lemma_differs("video-dynamic-range"@, "width"@, 0);
            lemma_differs("video-dynamic-range"@, "height"@, 0);
            lemma_differs("video-dynamic-range"@, "device-width"@, 0);
            lemma_differs("video-dynamic-range"@, "device-height"@, 0);
            lemma_differs("video-dynamic-range"@, "aspect-ratio"@, 0);
            lemma_differs("video-dynamic-range"@, "device-aspect-ratio"@, 0);
            lemma_differs("video-dynamic-range"@, "resolution"@, 0);
            lemma_differs("video-dynamic-range"@, "color"@, 0);
            lemma_differs("video-dynamic-range"@, "color-index"@, 0);
            lemma_differs("video-dynamic-range"@, "monochrome"@, 0);
            lemma_differs("video-dynamic-range"@, "horizontal-viewport-segments"@, 0);
            lemma_differs("video-dynamic-range"@, "vertical-viewport-segments"@, 0);
            lemma_differs("video-dynamic-range"@, "orientation"@, 0);
            lemma_differs("video-dynamic-range"@, "scan"@, 0);
            lemma_differs("video-dynamic-range"@, "grid"@, 0);
            lemma_differs("video-dynamic-range"@, "prefers-color-scheme"@, 0);
            lemma_differs("video-dynamic-range"@, "prefers-reduced-motion"@, 0);
            lemma_differs("video-dynamic-range"@, "prefers-reduced-transparency"@, 0);
            lemma_differs("video-dynamic-range"@, "prefers-contrast"@, 0);
            lemma_differs("video-dynamic-range"@, "forced-colors"@, 0);
            lemma_differs("video-dynamic-range"@, "hover"@, 0);
            lemma_differs("video-dynamic-range"@, "any-hover"@, 0);
            lemma_differs("video-dynamic-range"@, "pointer"@, 0);
            lemma_differs("video-dynamic-range"@, "any-pointer"@, 0);
            lemma_differs("video-dynamic-range"@, "display-mode"@, 0);
            lemma_differs("video-dynamic-range"@, "update"@, 0);
            lemma_differs("video-dynamic-range"@, "overflow-block"@, 0);
            lemma_differs("video-dynamic-range"@, "overflow-inline"@, 0);
            lemma_differs("video-dynamic-range"@, "color-gamut"@, 0);
            lemma_differs("video-dynamic-range"@, "video-color-gamut"@, 0);
            lemma_differs("video-dynamic-range"@, "dynamic-range"@, 0);
        },
        CssMediaFeatureKind::EnvironmentBlending => {
            lemma_differs("environment-blending"@, "width"@, 0);
            lemma_differs("environment-blending"@, "height"@, 0);
            lemma_differs("environment-blending"@, "device-width"@, 0);
            lemma_differs("environment-blending"@, "device-height"@, 0);
            lemma_differs("environment-blending"@, "aspect-ratio"@, 0);
            lemma_differs("environment-blending"@, "device-aspect-ratio"@, 0);
            lemma_differs("environment-blending"@, "resolution"@, 0);
            lemma_differs("environment-blending"@, "color"@, 0);
            lemma_differs("environment-blending"@, "color-index"@, 0);
            lemma_differs("environment-blending"@, "monochrome"@, 0);
            lemma_differs("environment-blending"@, "horizontal-viewport-segments"@, 0);
            lemma_differs("environment-blending"@, "vertical-viewport-segments"@, 0);
            lemma_differs("environment-blending"@, "orientation"@, 0);
            lemma_differs("environment-blending"@, "scan"@, 0);
            lemma_differs("environment-blending"@, "grid"@, 0);
            lemma_differs("environment-blending"@, "prefers-color-scheme"@, 0);
            lemma_differs("environment-blending"@, "prefers-reduced-motion"@, 0);
            lemma_differs("environment-blending"@, "prefers-reduced-transparency"@, 0);
            lemma_differs("environment-blending"@, "prefers-contrast"@, 0);
            lemma_differs("environment-blending"@, "forced-colors"@, 0);
            lemma_differs("environment-blending"@, "hover"@, 0);
            lemma_differs("environment-blending"@, "any-hover"@, 0);
            lemma_differs("environment-blending"@, "pointer"@, 0);
            lemma_differs("environment-blending"@, "any-pointer"@, 0);
            lemma_differs("environment-blending"@, "display-mode"@, 0);
            lemma_differs("environment-blending"@, "update"@, 0);
            lemma_differs("environment-blending"@, "overflow-block"@, 0);
            lemma_differs("environment-blending"@, "overflow-inline"@, 0);
            lemma_differs("environment-blending"@, "color-gamut"@, 0);
            lemma_differs("environment-blending"@, "video-color-gamut"@, 0);
            lemma_differs("environment-blending"@, "dynamic-range"@, 0);
            lemma_differs("environment-blending"@, "video-dynamic-range"@, 0);
        },
        CssMediaFeatureKind::InvertedColors => {
            lemma_differs("inverted-colors"@, "width"@, 0);
            lemma_differs("inverted-colors"@, "height"@, 0);
            lemma_differs("inverted-colors"@, "device-width"@, 0);
            lemma_differs("inverted-colors"@, "device-height"@, 0);
            lemma_differs("inverted-colors"@, "aspect-ratio"@, 0);
            lemma_differs("inverted-colors"@, "device-aspect-ratio"@, 0);
            lemma_differs("inverted-colors"@, "resolution"@, 0);
            lemma_differs("inverted-colors"@, "color"@, 0);
            lemma_differs("inverted-colors"@, "color-index"@, 0);
            lemma_differs("inverted-colors"@, "monochrome"@, 0);
            lemma_differs("inverted-colors"@, "horizontal-viewport-segments"@, 0);
            lemma_differs("inverted-colors"@, "vertical-viewport-segments"@, 0);
            lemma_differs("inverted-colors"@, "orientation"@, 0);
            lemma_differs("inverted-colors"@, "scan"@, 0);
            lemma_differs("inverted-colors"@, "grid"@, 0);
            lemma_differs("inverted-colors"@, "prefers-color-scheme"@, 0);
            lemma_differs("inverted-colors"@, "prefers-reduced-motion"@, 0);
            lemma_differs("inverted-colors"@, "prefers-reduced-transparency"@, 0);
            lemma_differs("inverted-colors"@, "prefers-contrast"@, 0);
            lemma_differs("inverted-colors"@, "forced-colors"@, 0);
            lemma_differs("inverted-colors"@, "hover"@, 0);
            lemma_differs("inverted-colors"@, "any-hover"@, 0);
            lemma_differs("inverted-colors"@, "pointer"@, 0);
            lemma_differs("inverted-colors"@, "any-pointer"@, 0);
            lemma_differs("inverted-colors"@, "display-mode"@, 0);
            lemma_differs("inverted-colors"@, "update"@, 0);
            lemma_differs("inverted-colors"@, "overflow-block"@, 0);
            lemma_differs("inverted-colors"@, "overflow-inline"@, 0);
            lemma_differs("inverted-colors"@, "color-gamut"@, 0);
            lemma_differs("inverted-colors"@, "video-color-gamut"@, 0);
            lemma_differs("inverted-colors"@, "dynamic-range"@, 0);
            lemma_differs("inverted-colors"@, "video-dynamic-range"@, 0);
            lemma_differs("inverted-colors"@, "environment-blending"@, 0);
        },
        CssMediaFeatureKind::NavControls => {
            lemma_differs("nav-controls"@, "width"@, 0);
            lemma_differs("nav-controls"@, "height"@, 0);
            lemma_differs("nav-controls"@, "device-width"@, 0);
            lemma_differs("nav-controls"@, "device-height"@, 0);
            lemma_differs("nav-controls"@, "aspect-ratio"@, 0);
            lemma_differs("nav-controls"@, "device-aspect-ratio"@, 0);
            lemma_differs("nav-controls"@, "resolution"@, 0);
            lemma_differs("nav-controls"@, "color"@, 0);
            lemma_differs("nav-controls"@, "color-index"@, 0);
            lemma_differs("nav-controls"@, "monochrome"@, 0);
            lemma_differs("nav-controls"@, "horizontal-viewport-segments"@, 0);
            lemma_differs("nav-controls"@, "vertical-viewport-segments"@, 0);
            lemma_differs("nav-controls"@, "orientation"@, 0);
            lemma_differs("nav-controls"@, "scan"@, 0);
            lemma_differs("nav-controls"@, "grid"@, 0);
            lemma_differs("nav-controls"@, "prefers-color-scheme"@, 0);
            lemma_differs("nav-controls"@, "prefers-reduced-motion"@, 0);
            lemma_differs("nav-controls"@, "prefers-reduced-transparency"@, 0);
            lemma_differs("nav-controls"@, "prefers-contrast"@, 0);
            lemma_differs("nav-controls"@, "forced-colors"@, 0);
            lemma_differs("nav-controls"@, "hover"@, 0);
            lemma_differs("nav-controls"@, "any-hover"@, 0);
            lemma_differs("nav-controls"@, "pointer"@, 0);
            lemma_differs("nav-controls"@, "any-pointer"@, 0);
            lemma_differs("nav-controls"@, "display-mode"@, 0);
            lemma_differs("nav-controls"@, "update"@, 0);
            lemma_differs("nav-controls"@, "overflow-block"@, 0);
            lemma_differs("nav-controls"@, "overflow-inline"@, 0);
            lemma_differs("nav-controls"@, "color-gamut"@, 0);
            lemma_differs("nav-controls"@, "video-color-gamut"@, 0);
            lemma_differs("nav-controls"@, "dynamic-range"@, 0);
            lemma_differs("nav-controls"@, "video-dynamic-range"@, 0);
            lemma_differs("nav-controls"@, "environment-blending"@, 0);
            lemma_differs("nav-controls"@, "inverted-colors"@, 0);
        },
        CssMediaFeatureKind::Scripting => {
            lemma_differs("scripting"@, "width"@, 0);
            lemma_differs("scripting"@, "height"@, 0);
            lemma_differs("scripting"@, "device-width"@, 0);
            lemma_differs("scripting"@, "device-height"@, 0);
            lemma_differs("scripting"@, "aspect-ratio"@, 0);
            lemma_differs("scripting"@, "device-aspect-ratio"@, 0);
            lemma_differs("scripting"@, "resolution"@, 0);
            lemma_differs("scripting"@, "color"@, 0);
            lemma_differs("scripting"@, "color-index"@, 0);
            lemma_differs("scripting"@, "monochrome"@, 0);
            lemma_differs("scripting"@, "horizontal-viewport-segments"@, 0);
            lemma_differs("scripting"@, "vertical-viewport-segments"@, 0);
            lemma_differs("scripting"@, "orientation"@, 0);
            lemma_differs("scripting"@, "scan"@, 0);
            lemma_differs("scripting"@, "grid"@, 0);
            lemma_differs("scripting"@, "prefers-color-scheme"@, 0);
            lemma_differs("scripting"@, "prefers-reduced-motion"@, 0);
            lemma_differs("scripting"@, "prefers-reduced-transparency"@, 0);
            lemma_differs("scripting"@, "prefers-contrast"@, 0);
            lemma_differs("scripting"@, "forced-colors"@, 0);
            lemma_differs("scripting"@, "hover"@, 0);
            lemma_differs("scripting"@, "any-hover"@, 0);
            lemma_differs("scripting"@, "pointer"@, 0);
            lemma_differs("scripting"@, "any-pointer"@, 0);
            lemma_differs("scripting"@, "display-mode"@, 0);
            lemma_differs("scripting"@, "update"@, 0);
            lemma_differs("scripting"@, "overflow-block"@, 0);
            lemma_differs("scripting"@, "overflow-inline"@, 0);
            lemma_differs("scripting"@, "color-gamut"@, 0);
            lemma_differs("scripting"@, "video-color-gamut"@, 0);
            lemma_differs("scripting"@, "dynamic-range"@, 0);
            lemma_differs("scripting"@, "video-dynamic-range"@, 0);
            lemma_differs("scripting"@, "environment-blending"@, 0);
            lemma_differs("scripting"@, "inverted-colors"@, 0);
            lemma_differs("scripting"@, "nav-controls"@, 0);
        },
        CssMediaFeatureKind::PrefersReducedData => {
            lemma_differs("prefers-reduced-data"@, "width"@, 0);
            lemma_differs("prefers-reduced-data"@, "height"@, 0);
            lemma_differs("prefers-reduced-data"@, "device-width"@, 0);
            lemma_differs("prefers-reduced-data"@, "device-height"@, 0);
            lemma_differs("prefers-reduced-data"@, "aspect-ratio"@, 0);
            lemma_differs("prefers-reduced-data"@, "device-aspect-ratio"@, 0);
            lemma_differs("prefers-reduced-data"@, "resolution"@, 0);
            lemma_differs("prefers-reduced-data"@, "color"@, 0);
            lemma_differs("prefers-reduced-data"@, "color-index"@, 0);
            lemma_differs("prefers-reduced-data"@, "monochrome"@, 0);
            lemma_differs("prefers-reduced-data"@, "horizontal-viewport-segments"@, 0);
            lemma_differs("prefers-reduced-data"@, "vertical-viewport-segments"@, 0);
            lemma_differs("prefers-reduced-data"@, "orientation"@, 0);
            lemma_differs("prefers-reduced-data"@, "scan"@, 0);
            lemma_differs("prefers-reduced-data"@, "grid"@, 0);
            lemma_differs("prefers-reduced-data"@, "prefers-color-scheme"@, 8);
            lemma_differs("prefers-reduced-data"@, "prefers-reduced-motion"@, 0);
            lemma_differs("prefers-reduced-data"@, "prefers-reduced-transparency"@, 0);
            lemma_differs("prefers-reduced-data"@, "prefers-contrast"@, 0);
            lemma_differs("prefers-reduced-data"@, "forced-colors"@, 0);
            lemma_differs("prefers-reduced-data"@, "hover"@, 0);
            lemma_differs("prefers-reduced-data"@, "any-hover"@, 0);
            lemma_differs("prefers-reduced-data"@, "pointer"@, 0);
            lemma_differs("prefers-reduced-data"@, "any-pointer"@, 0);
            lemma_differs("prefers-reduced-data"@, "display-mode"@, 0);
            lemma_differs("prefers-reduced-data"@, "update"@, 0);
            lemma_differs("prefers-reduced-data"@, "overflow-block"@, 0);
            lemma_differs("prefers-reduced-data"@, "overflow-inline"@, 0);
            lemma_differs("prefers-reduced-data"@, "color-gamut"@, 0);
            lemma_differs("prefers-reduced-data"@, "video-color-gamut"@, 0);
            lemma_differs("prefers-reduced-data"@, "dynamic-range"@, 0);
            lemma_differs("prefers-reduced-data"@, "video-dynamic-range"@, 0);
            lemma_differs("prefers-reduced-data"@, "environment-blending"@, 0);
            lemma_differs("prefers-reduced-data"@, "inverted-colors"@, 0);
            lemma_differs("prefers-reduced-data"@, "nav-controls"@, 0);
            lemma_differs("prefers-reduced-data"@, "scripting"@, 0);
        },
    }
}

} // verus!

