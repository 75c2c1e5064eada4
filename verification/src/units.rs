//! CSS unit identities, matched ASCII case-insensitively.

use crate::numeric_type::CssNumericDimension;
use vstd::prelude::*;

verus! {

/// A character with ASCII upper case letters lowered.
pub open spec fn lower_code(c: char) -> u32 {
    if 65 <= (c as u32) <= 90 {
        ((c as u32) + 32) as u32
    } else {
        c as u32
    }
}

/// Equal text up to ASCII case.
pub open spec fn same_ignoring_case(a: Seq<char>, b: Seq<char>) -> bool {
    &&& a.len() == b.len()
    &&& forall|i: int| 0 <= i < a.len() ==> lower_code(#[trigger] a[i]) == lower_code(b[i])
}

/// Texts equal up to ASCII case match the same texts: equality up to case is an
/// equivalence.
pub proof fn lemma_same_case_shared(a: Seq<char>, b: Seq<char>, c: Seq<char>)
    requires
        same_ignoring_case(a, b),
    ensures
        same_ignoring_case(a, c) == same_ignoring_case(b, c),
        same_ignoring_case(b, a),
        same_ignoring_case(a, a),
{
    if same_ignoring_case(a, c) {
        assert forall|i: int| 0 <= i < b.len() implies lower_code(#[trigger] b[i]) == lower_code(c[i]) by {
            assert(lower_code(a[i]) == lower_code(b[i]));
            assert(lower_code(a[i]) == lower_code(c[i]));
        }
    }
    if same_ignoring_case(b, c) {
        assert forall|i: int| 0 <= i < a.len() implies lower_code(#[trigger] a[i]) == lower_code(c[i]) by {
            assert(lower_code(a[i]) == lower_code(b[i]));
            assert(lower_code(b[i]) == lower_code(c[i]));
        }
    }
    assert forall|i: int| 0 <= i < b.len() implies lower_code(#[trigger] b[i]) == lower_code(a[i]) by {
        assert(lower_code(a[i]) == lower_code(b[i]));
    }
}

/// Texts that differ in length, or at one position up to ASCII case, are not equal up
/// to case.
pub proof fn lemma_differs_at(a: Seq<char>, b: Seq<char>, i: int)
    requires
        a.len() != b.len() || (0 <= i < a.len() && 0 <= i < b.len() && lower_code(a[i]) != lower_code(b[i])),
    ensures
        !same_ignoring_case(a, b),
{
}

fn lower(c: char) -> (r: u32)
    ensures
        r == lower_code(c),
{
    let code = c as u32;
    if 65 <= code && code <= 90 {
        code + 32
    } else {
        code
    }
}

/// Compares two texts ignoring ASCII case.
pub fn eq_ignore_ascii_case(a: &str, b: &str) -> (r: bool)
    ensures
        r == same_ignoring_case(a@, b@),
{
    let n = a.unicode_len();
    if n != b.unicode_len() {
        return false;
    }
    let mut i: usize = 0;
    while i < n
        invariant
            i <= n,
            n == a@.len(),
            n == b@.len(),
            forall|k: int| 0 <= k < i ==> lower_code(#[trigger] a@[k]) == lower_code(b@[k]),
        decreases n - i,
    {
        if lower(a.get_char(i)) != lower(b.get_char(i)) {
            return false;
        }
        i = i + 1;
    }
    true
}

/// A CSS length unit.
#[derive(Clone, Copy, Debug, PartialEq, Eq, Structural)]
pub enum CssLengthUnit {
    Px,
    Cm,
    Mm,
    Q,
    In,
    Pt,
    Pc,
    Em,
    Rem,
    Ex,
    Rex,
    Cap,
    Rcap,
    Ch,
    Rch,
    Ic,
    Ric,
    Lh,
    Rlh,
    Vw,
    Vh,
    Vi,
    Vb,
    Vmin,
    Vmax,
    Svw,
    Svh,
    Svi,
    Svb,
    Svmin,
    Svmax,
    Lvw,
    Lvh,
    Lvi,
    Lvb,
    Lvmin,
    Lvmax,
    Dvw,
    Dvh,
    Dvi,
    Dvb,
    Dvmin,
    Dvmax,
    Cqw,
    Cqh,
    Cqi,
    Cqb,
    Cqmin,
    Cqmax,
}

/// The length unit spelled `u`, ignoring ASCII case.
pub open spec fn length_unit_of(u: Seq<char>) -> Option<CssLengthUnit> {
    if same_ignoring_case(u, "px"@) {
        Some(CssLengthUnit::Px)
    } else if same_ignoring_case(u, "cm"@) {
        Some(CssLengthUnit::Cm)
    } else if same_ignoring_case(u, "mm"@) {
        Some(CssLengthUnit::Mm)
    } else if same_ignoring_case(u, "q"@) {
        Some(CssLengthUnit::Q)
    } else if same_ignoring_case(u, "in"@) {
        Some(CssLengthUnit::In)
    } else if same_ignoring_case(u, "pt"@) {
        Some(CssLengthUnit::Pt)
    } else if same_ignoring_case(u, "pc"@) {
        Some(CssLengthUnit::Pc)
    } else if same_ignoring_case(u, "em"@) {
        Some(CssLengthUnit::Em)
    } else if same_ignoring_case(u, "rem"@) {
        Some(CssLengthUnit::Rem)
    } else if same_ignoring_case(u, "ex"@) {
        Some(CssLengthUnit::Ex)
    } else if same_ignoring_case(u, "rex"@) {
        Some(CssLengthUnit::Rex)
    } else if same_ignoring_case(u, "cap"@) {
        Some(CssLengthUnit::Cap)
    } else if same_ignoring_case(u, "rcap"@) {
        Some(CssLengthUnit::Rcap)
    } else if same_ignoring_case(u, "ch"@) {
        Some(CssLengthUnit::Ch)
    } else if same_ignoring_case(u, "rch"@) {
        Some(CssLengthUnit::Rch)
    } else if same_ignoring_case(u, "ic"@) {
        Some(CssLengthUnit::Ic)
    } else if same_ignoring_case(u, "ric"@) {
        Some(CssLengthUnit::Ric)
    } else if same_ignoring_case(u, "lh"@) {
        Some(CssLengthUnit::Lh)
    } else if same_ignoring_case(u, "rlh"@) {
        Some(CssLengthUnit::Rlh)
    } else if same_ignoring_case(u, "vw"@) {
        Some(CssLengthUnit::Vw)
    } else if same_ignoring_case(u, "vh"@) {
        Some(CssLengthUnit::Vh)
    } else if same_ignoring_case(u, "vi"@) {
        Some(CssLengthUnit::Vi)
    } else if same_ignoring_case(u, "vb"@) {
        Some(CssLengthUnit::Vb)
    } else if same_ignoring_case(u, "vmin"@) {
        Some(CssLengthUnit::Vmin)
    } else if same_ignoring_case(u, "vmax"@) {
        Some(CssLengthUnit::Vmax)
    } else if same_ignoring_case(u, "svw"@) {
        Some(CssLengthUnit::Svw)
    } else if same_ignoring_case(u, "svh"@) {
        Some(CssLengthUnit::Svh)
    } else if same_ignoring_case(u, "svi"@) {
        Some(CssLengthUnit::Svi)
    } else if same_ignoring_case(u, "svb"@) {
        Some(CssLengthUnit::Svb)
    } else if same_ignoring_case(u, "svmin"@) {
        Some(CssLengthUnit::Svmin)
    } else if same_ignoring_case(u, "svmax"@) {
        Some(CssLengthUnit::Svmax)
    } else if same_ignoring_case(u, "lvw"@) {
        Some(CssLengthUnit::Lvw)
    } else if same_ignoring_case(u, "lvh"@) {
        Some(CssLengthUnit::Lvh)
    } else if same_ignoring_case(u, "lvi"@) {
        Some(CssLengthUnit::Lvi)
    } else if same_ignoring_case(u, "lvb"@) {
        Some(CssLengthUnit::Lvb)
    } else if same_ignoring_case(u, "lvmin"@) {
        Some(CssLengthUnit::Lvmin)
    } else if same_ignoring_case(u, "lvmax"@) {
        Some(CssLengthUnit::Lvmax)
    } else if same_ignoring_case(u, "dvw"@) {
        Some(CssLengthUnit::Dvw)
    } else if same_ignoring_case(u, "dvh"@) {
        Some(CssLengthUnit::Dvh)
    } else if same_ignoring_case(u, "dvi"@) {
        Some(CssLengthUnit::Dvi)
    } else if same_ignoring_case(u, "dvb"@) {
        Some(CssLengthUnit::Dvb)
    } else if same_ignoring_case(u, "dvmin"@) {
        Some(CssLengthUnit::Dvmin)
    } else if same_ignoring_case(u, "dvmax"@) {
        Some(CssLengthUnit::Dvmax)
    } else if same_ignoring_case(u, "cqw"@) {
        Some(CssLengthUnit::Cqw)
    } else if same_ignoring_case(u, "cqh"@) {
        Some(CssLengthUnit::Cqh)
    } else if same_ignoring_case(u, "cqi"@) {
        Some(CssLengthUnit::Cqi)
    } else if same_ignoring_case(u, "cqb"@) {
        Some(CssLengthUnit::Cqb)
    } else if same_ignoring_case(u, "cqmin"@) {
        Some(CssLengthUnit::Cqmin)
    } else if same_ignoring_case(u, "cqmax"@) {
        Some(CssLengthUnit::Cqmax)
    } else {
        None
    }
}

impl CssLengthUnit {
    /// The length unit spelled `unit`, ignoring ASCII case.
    pub fn from_css_unit(unit: &str) -> (r: Option<Self>)
        ensures
            r == length_unit_of(unit@),
    {
        if eq_ignore_ascii_case(unit, "px") {
            Some(CssLengthUnit::Px)
        } else if eq_ignore_ascii_case(unit, "cm") {
            Some(CssLengthUnit::Cm)
        } else if eq_ignore_ascii_case(unit, "mm") {
            Some(CssLengthUnit::Mm)
        } else if eq_ignore_ascii_case(unit, "q") {
            Some(CssLengthUnit::Q)
        } else if eq_ignore_ascii_case(unit, "in") {
            Some(CssLengthUnit::In)
        } else if eq_ignore_ascii_case(unit, "pt") {
            Some(CssLengthUnit::Pt)
        } else if eq_ignore_ascii_case(unit, "pc") {
            Some(CssLengthUnit::Pc)
        } else if eq_ignore_ascii_case(unit, "em") {
            Some(CssLengthUnit::Em)
        } else if eq_ignore_ascii_case(unit, "rem") {
            Some(CssLengthUnit::Rem)
        } else if eq_ignore_ascii_case(unit, "ex") {
            Some(CssLengthUnit::Ex)
        } else if eq_ignore_ascii_case(unit, "rex") {
            Some(CssLengthUnit::Rex)
        } else if eq_ignore_ascii_case(unit, "cap") {
            Some(CssLengthUnit::Cap)
        } else if eq_ignore_ascii_case(unit, "rcap") {
            Some(CssLengthUnit::Rcap)
        } else if eq_ignore_ascii_case(unit, "ch") {
            Some(CssLengthUnit::Ch)
        } else if eq_ignore_ascii_case(unit, "rch") {
            Some(CssLengthUnit::Rch)
        } else if eq_ignore_ascii_case(unit, "ic") {
            Some(CssLengthUnit::Ic)
        } else if eq_ignore_ascii_case(unit, "ric") {
            Some(CssLengthUnit::Ric)
        } else if eq_ignore_ascii_case(unit, "lh") {
            Some(CssLengthUnit::Lh)
        } else if eq_ignore_ascii_case(unit, "rlh") {
            Some(CssLengthUnit::Rlh)
        } else if eq_ignore_ascii_case(unit, "vw") {
            Some(CssLengthUnit::Vw)
        } else if eq_ignore_ascii_case(unit, "vh") {
            Some(CssLengthUnit::Vh)
        } else if eq_ignore_ascii_case(unit, "vi") {
            Some(CssLengthUnit::Vi)
        } else if eq_ignore_ascii_case(unit, "vb") {
            Some(CssLengthUnit::Vb)
        } else if eq_ignore_ascii_case(unit, "vmin") {
            Some(CssLengthUnit::Vmin)
        } else if eq_ignore_ascii_case(unit, "vmax") {
            Some(CssLengthUnit::Vmax)
        } else if eq_ignore_ascii_case(unit, "svw") {
            Some(CssLengthUnit::Svw)
        } else if eq_ignore_ascii_case(unit, "svh") {
            Some(CssLengthUnit::Svh)
        } else if eq_ignore_ascii_case(unit, "svi") {
            Some(CssLengthUnit::Svi)
        } else if eq_ignore_ascii_case(unit, "svb") {
            Some(CssLengthUnit::Svb)
        } else if eq_ignore_ascii_case(unit, "svmin") {
            Some(CssLengthUnit::Svmin)
        } else if eq_ignore_ascii_case(unit, "svmax") {
            Some(CssLengthUnit::Svmax)
        } else if eq_ignore_ascii_case(unit, "lvw") {
            Some(CssLengthUnit::Lvw)
        } else if eq_ignore_ascii_case(unit, "lvh") {
            Some(CssLengthUnit::Lvh)
        } else if eq_ignore_ascii_case(unit, "lvi") {
            Some(CssLengthUnit::Lvi)
        } else if eq_ignore_ascii_case(unit, "lvb") {
            Some(CssLengthUnit::Lvb)
        } else if eq_ignore_ascii_case(unit, "lvmin") {
            Some(CssLengthUnit::Lvmin)
        } else if eq_ignore_ascii_case(unit, "lvmax") {
            Some(CssLengthUnit::Lvmax)
        } else if eq_ignore_ascii_case(unit, "dvw") {
            Some(CssLengthUnit::Dvw)
        } else if eq_ignore_ascii_case(unit, "dvh") {
            Some(CssLengthUnit::Dvh)
        } else if eq_ignore_ascii_case(unit, "dvi") {
            Some(CssLengthUnit::Dvi)
        } else if eq_ignore_ascii_case(unit, "dvb") {
            Some(CssLengthUnit::Dvb)
        } else if eq_ignore_ascii_case(unit, "dvmin") {
            Some(CssLengthUnit::Dvmin)
        } else if eq_ignore_ascii_case(unit, "dvmax") {
            Some(CssLengthUnit::Dvmax)
        } else if eq_ignore_ascii_case(unit, "cqw") {
            Some(CssLengthUnit::Cqw)
        } else if eq_ignore_ascii_case(unit, "cqh") {
            Some(CssLengthUnit::Cqh)
        } else if eq_ignore_ascii_case(unit, "cqi") {
            Some(CssLengthUnit::Cqi)
        } else if eq_ignore_ascii_case(unit, "cqb") {
            Some(CssLengthUnit::Cqb)
        } else if eq_ignore_ascii_case(unit, "cqmin") {
            Some(CssLengthUnit::Cqmin)
        } else if eq_ignore_ascii_case(unit, "cqmax") {
            Some(CssLengthUnit::Cqmax)
        } else {
            None
        }
    }
}

/// The lowercase spelling of a length unit.
pub open spec fn length_unit_name(u: CssLengthUnit) -> Seq<char> {
    match u {
        CssLengthUnit::Px => "px"@,
        CssLengthUnit::Cm => "cm"@,
        CssLengthUnit::Mm => "mm"@,
        CssLengthUnit::Q => "q"@,
        CssLengthUnit::In => "in"@,
        CssLengthUnit::Pt => "pt"@,
        CssLengthUnit::Pc => "pc"@,
        CssLengthUnit::Em => "em"@,
        CssLengthUnit::Rem => "rem"@,
        CssLengthUnit::Ex => "ex"@,
        CssLengthUnit::Rex => "rex"@,
        CssLengthUnit::Cap => "cap"@,
        CssLengthUnit::Rcap => "rcap"@,
        CssLengthUnit::Ch => "ch"@,
        CssLengthUnit::Rch => "rch"@,
        CssLengthUnit::Ic => "ic"@,
        CssLengthUnit::Ric => "ric"@,
        CssLengthUnit::Lh => "lh"@,
        CssLengthUnit::Rlh => "rlh"@,
        CssLengthUnit::Vw => "vw"@,
        CssLengthUnit::Vh => "vh"@,
        CssLengthUnit::Vi => "vi"@,
        CssLengthUnit::Vb => "vb"@,
        CssLengthUnit::Vmin => "vmin"@,
        CssLengthUnit::Vmax => "vmax"@,
        CssLengthUnit::Svw => "svw"@,
        CssLengthUnit::Svh => "svh"@,
        CssLengthUnit::Svi => "svi"@,
        CssLengthUnit::Svb => "svb"@,
        CssLengthUnit::Svmin => "svmin"@,
        CssLengthUnit::Svmax => "svmax"@,
        CssLengthUnit::Lvw => "lvw"@,
        CssLengthUnit::Lvh => "lvh"@,
        CssLengthUnit::Lvi => "lvi"@,
        CssLengthUnit::Lvb => "lvb"@,
        CssLengthUnit::Lvmin => "lvmin"@,
        CssLengthUnit::Lvmax => "lvmax"@,
        CssLengthUnit::Dvw => "dvw"@,
        CssLengthUnit::Dvh => "dvh"@,
        CssLengthUnit::Dvi => "dvi"@,
        CssLengthUnit::Dvb => "dvb"@,
        CssLengthUnit::Dvmin => "dvmin"@,
        CssLengthUnit::Dvmax => "dvmax"@,
        CssLengthUnit::Cqw => "cqw"@,
        CssLengthUnit::Cqh => "cqh"@,
        CssLengthUnit::Cqi => "cqi"@,
        CssLengthUnit::Cqb => "cqb"@,
        CssLengthUnit::Cqmin => "cqmin"@,
        CssLengthUnit::Cqmax => "cqmax"@,
    }
}

impl CssLengthUnit {
    /// The unit's lowercase CSS spelling.
    pub fn as_css_str(self) -> (r: &'static str)
        ensures
            r@ == length_unit_name(self),
    {
        match self {
            CssLengthUnit::Px => "px",
            CssLengthUnit::Cm => "cm",
            CssLengthUnit::Mm => "mm",
            CssLengthUnit::Q => "q",
            CssLengthUnit::In => "in",
            CssLengthUnit::Pt => "pt",
            CssLengthUnit::Pc => "pc",
            CssLengthUnit::Em => "em",
            CssLengthUnit::Rem => "rem",
            CssLengthUnit::Ex => "ex",
            CssLengthUnit::Rex => "rex",
            CssLengthUnit::Cap => "cap",
            CssLengthUnit::Rcap => "rcap",
            CssLengthUnit::Ch => "ch",
            CssLengthUnit::Rch => "rch",
            CssLengthUnit::Ic => "ic",
            CssLengthUnit::Ric => "ric",
            CssLengthUnit::Lh => "lh",
            CssLengthUnit::Rlh => "rlh",
            CssLengthUnit::Vw => "vw",
            CssLengthUnit::Vh => "vh",
            CssLengthUnit::Vi => "vi",
            CssLengthUnit::Vb => "vb",
            CssLengthUnit::Vmin => "vmin",
            CssLengthUnit::Vmax => "vmax",
            CssLengthUnit::Svw => "svw",
            CssLengthUnit::Svh => "svh",
            CssLengthUnit::Svi => "svi",
            CssLengthUnit::Svb => "svb",
            CssLengthUnit::Svmin => "svmin",
            CssLengthUnit::Svmax => "svmax",
            CssLengthUnit::Lvw => "lvw",
            CssLengthUnit::Lvh => "lvh",
            CssLengthUnit::Lvi => "lvi",
            CssLengthUnit::Lvb => "lvb",
            CssLengthUnit::Lvmin => "lvmin",
            CssLengthUnit::Lvmax => "lvmax",
            CssLengthUnit::Dvw => "dvw",
            CssLengthUnit::Dvh => "dvh",
            CssLengthUnit::Dvi => "dvi",
            CssLengthUnit::Dvb => "dvb",
            CssLengthUnit::Dvmin => "dvmin",
            CssLengthUnit::Dvmax => "dvmax",
            CssLengthUnit::Cqw => "cqw",
            CssLengthUnit::Cqh => "cqh",
            CssLengthUnit::Cqi => "cqi",
            CssLengthUnit::Cqb => "cqb",
            CssLengthUnit::Cqmin => "cqmin",
            CssLengthUnit::Cqmax => "cqmax",
        }
    }
}

/// The lowercase spelling of an angle unit.
pub open spec fn angle_unit_name(u: CssAngleUnit) -> Seq<char> {
    match u {
        CssAngleUnit::Degrees => "deg"@,
        CssAngleUnit::Gradians => "grad"@,
        CssAngleUnit::Radians => "rad"@,
        CssAngleUnit::Turns => "turn"@,
    }
}

impl CssAngleUnit {
    /// The unit's lowercase CSS spelling.
    pub fn as_css_str(self) -> (r: &'static str)
        ensures
            r@ == angle_unit_name(self),
    {
        match self {
            CssAngleUnit::Degrees => "deg",
            CssAngleUnit::Gradians => "grad",
            CssAngleUnit::Radians => "rad",
            CssAngleUnit::Turns => "turn",
        }
    }
}

/// The lowercase spelling of a time unit.
pub open spec fn time_unit_name(u: CssTimeUnit) -> Seq<char> {
    match u {
        CssTimeUnit::Seconds => "s"@,
        CssTimeUnit::Milliseconds => "ms"@,
    }
}

impl CssTimeUnit {
    /// The unit's lowercase CSS spelling.
    pub fn as_css_str(self) -> (r: &'static str)
        ensures
            r@ == time_unit_name(self),
    {
        match self {
            CssTimeUnit::Seconds => "s",
            CssTimeUnit::Milliseconds => "ms",
        }
    }
}

/// The lowercase spelling of a frequency unit.
pub open spec fn frequency_unit_name(u: CssFrequencyUnit) -> Seq<char> {
    match u {
        CssFrequencyUnit::Hertz => "hz"@,
        CssFrequencyUnit::Kilohertz => "khz"@,
    }
}

impl CssFrequencyUnit {
    /// The unit's lowercase CSS spelling.
    pub fn as_css_str(self) -> (r: &'static str)
        ensures
            r@ == frequency_unit_name(self),
    {
        match self {
            CssFrequencyUnit::Hertz => "hz",
            CssFrequencyUnit::Kilohertz => "khz",
        }
    }
}

#[derive(Clone, Copy, Debug, PartialEq, Eq, Structural)]
pub enum CssAngleUnit {
    Degrees,
    Gradians,
    Radians,
    Turns,
}

#[derive(Clone, Copy, Debug, PartialEq, Eq, Structural)]
pub enum CssTimeUnit {
    Seconds,
    Milliseconds,
}

#[derive(Clone, Copy, Debug, PartialEq, Eq, Structural)]
pub enum CssFrequencyUnit {
    Hertz,
    Kilohertz,
}

#[derive(Clone, Copy, Debug, PartialEq, Eq, Structural)]
pub enum CssResolutionUnit {
    Dpi,
    Dpcm,
    Dppx,
}

/// A checked canonical unit identity, independent of authored unit spelling.
#[derive(Clone, Copy, Debug, PartialEq, Eq, Structural)]
pub enum CssNumericUnit {
    Length(CssLengthUnit),
    Angle(CssAngleUnit),
    Time(CssTimeUnit),
    Frequency(CssFrequencyUnit),
    Resolution(CssResolutionUnit),
    Flex,
}

/// The unit identity spelled `u`, ignoring ASCII case.
pub open spec fn numeric_unit_of(u: Seq<char>) -> Option<CssNumericUnit> {
    if length_unit_of(u) is Some {
        Some(CssNumericUnit::Length(length_unit_of(u)->Some_0))
    } else if same_ignoring_case(u, "deg"@) {
        Some(CssNumericUnit::Angle(CssAngleUnit::Degrees))
    } else if same_ignoring_case(u, "grad"@) {
        Some(CssNumericUnit::Angle(CssAngleUnit::Gradians))
    } else if same_ignoring_case(u, "rad"@) {
        Some(CssNumericUnit::Angle(CssAngleUnit::Radians))
    } else if same_ignoring_case(u, "turn"@) {
        Some(CssNumericUnit::Angle(CssAngleUnit::Turns))
    } else if same_ignoring_case(u, "s"@) {
        Some(CssNumericUnit::Time(CssTimeUnit::Seconds))
    } else if same_ignoring_case(u, "ms"@) {
        Some(CssNumericUnit::Time(CssTimeUnit::Milliseconds))
    } else if same_ignoring_case(u, "hz"@) {
        Some(CssNumericUnit::Frequency(CssFrequencyUnit::Hertz))
    } else if same_ignoring_case(u, "khz"@) {
        Some(CssNumericUnit::Frequency(CssFrequencyUnit::Kilohertz))
    } else if same_ignoring_case(u, "dpi"@) {
        Some(CssNumericUnit::Resolution(CssResolutionUnit::Dpi))
    } else if same_ignoring_case(u, "dpcm"@) {
        Some(CssNumericUnit::Resolution(CssResolutionUnit::Dpcm))
    } else if same_ignoring_case(u, "dppx"@) || same_ignoring_case(u, "x"@) {
        Some(CssNumericUnit::Resolution(CssResolutionUnit::Dppx))
    } else if same_ignoring_case(u, "fr"@) {
        Some(CssNumericUnit::Flex)
    } else {
        None
    }
}

/// The dimension of a unit identity.
pub open spec fn unit_identity_dimension(u: CssNumericUnit) -> CssNumericDimension {
    match u {
        CssNumericUnit::Length(_) => CssNumericDimension::Length,
        CssNumericUnit::Angle(_) => CssNumericDimension::Angle,
        CssNumericUnit::Time(_) => CssNumericDimension::Time,
        CssNumericUnit::Frequency(_) => CssNumericDimension::Frequency,
        CssNumericUnit::Resolution(_) => CssNumericDimension::Resolution,
        CssNumericUnit::Flex => CssNumericDimension::Flex,
    }
}

/// The unit identity of a unit spelling.
pub fn numeric_unit(unit: &str) -> (r: Option<CssNumericUnit>)
    ensures
        r == numeric_unit_of(unit@),
{
    if let Some(length) = CssLengthUnit::from_css_unit(unit) {
        return Some(CssNumericUnit::Length(length));
    }
    if eq_ignore_ascii_case(unit, "deg") {
        Some(CssNumericUnit::Angle(CssAngleUnit::Degrees))
    } else if eq_ignore_ascii_case(unit, "grad") {
        Some(CssNumericUnit::Angle(CssAngleUnit::Gradians))
    } else if eq_ignore_ascii_case(unit, "rad") {
        Some(CssNumericUnit::Angle(CssAngleUnit::Radians))
    } else if eq_ignore_ascii_case(unit, "turn") {
        Some(CssNumericUnit::Angle(CssAngleUnit::Turns))
    } else if eq_ignore_ascii_case(unit, "s") {
        Some(CssNumericUnit::Time(CssTimeUnit::Seconds))
    } else if eq_ignore_ascii_case(unit, "ms") {
        Some(CssNumericUnit::Time(CssTimeUnit::Milliseconds))
    } else if eq_ignore_ascii_case(unit, "hz") {
        Some(CssNumericUnit::Frequency(CssFrequencyUnit::Hertz))
    } else if eq_ignore_ascii_case(unit, "khz") {
        Some(CssNumericUnit::Frequency(CssFrequencyUnit::Kilohertz))
    } else if eq_ignore_ascii_case(unit, "dpi") {
        Some(CssNumericUnit::Resolution(CssResolutionUnit::Dpi))
    } else if eq_ignore_ascii_case(unit, "dpcm") {
        Some(CssNumericUnit::Resolution(CssResolutionUnit::Dpcm))
    } else if eq_ignore_ascii_case(unit, "dppx") || eq_ignore_ascii_case(unit, "x") {
        Some(CssNumericUnit::Resolution(CssResolutionUnit::Dppx))
    } else if eq_ignore_ascii_case(unit, "fr") {
        Some(CssNumericUnit::Flex)
    } else {
        None
    }
}

proof fn lemma_unit_of_same_case(a: Seq<char>, b: Seq<char>)
    requires
        same_ignoring_case(a, b),
    ensures
        length_unit_of(a) == length_unit_of(b),
        numeric_unit_of(a) == numeric_unit_of(b),
{
    lemma_same_case_shared(a, b, "px"@);
    lemma_same_case_shared(a, b, "cm"@);
    lemma_same_case_shared(a, b, "mm"@);
    lemma_same_case_shared(a, b, "q"@);
    lemma_same_case_shared(a, b, "in"@);
    lemma_same_case_shared(a, b, "pt"@);
    lemma_same_case_shared(a, b, "pc"@);
    lemma_same_case_shared(a, b, "em"@);
    lemma_same_case_shared(a, b, "rem"@);
    lemma_same_case_shared(a, b, "ex"@);
    lemma_same_case_shared(a, b, "rex"@);
    lemma_same_case_shared(a, b, "cap"@);
    lemma_same_case_shared(a, b, "rcap"@);
    lemma_same_case_shared(a, b, "ch"@);
    lemma_same_case_shared(a, b, "rch"@);
    lemma_same_case_shared(a, b, "ic"@);
    lemma_same_case_shared(a, b, "ric"@);
    lemma_same_case_shared(a, b, "lh"@);
    lemma_same_case_shared(a, b, "rlh"@);
    lemma_same_case_shared(a, b, "vw"@);
    lemma_same_case_shared(a, b, "vh"@);
    lemma_same_case_shared(a, b, "vi"@);
    lemma_same_case_shared(a, b, "vb"@);
    lemma_same_case_shared(a, b, "vmin"@);
    lemma_same_case_shared(a, b, "vmax"@);
    lemma_same_case_shared(a, b, "svw"@);
    lemma_same_case_shared(a, b, "svh"@);
    lemma_same_case_shared(a, b, "svi"@);
    lemma_same_case_shared(a, b, "svb"@);
    lemma_same_case_shared(a, b, "svmin"@);
    lemma_same_case_shared(a, b, "svmax"@);
    lemma_same_case_shared(a, b, "lvw"@);
    lemma_same_case_shared(a, b, "lvh"@);
    lemma_same_case_shared(a, b, "lvi"@);
    lemma_same_case_shared(a, b, "lvb"@);
    lemma_same_case_shared(a, b, "lvmin"@);
    lemma_same_case_shared(a, b, "lvmax"@);
    lemma_same_case_shared(a, b, "dvw"@);
    lemma_same_case_shared(a, b, "dvh"@);
    lemma_same_case_shared(a, b, "dvi"@);
    lemma_same_case_shared(a, b, "dvb"@);
    lemma_same_case_shared(a, b, "dvmin"@);
    lemma_same_case_shared(a, b, "dvmax"@);
    lemma_same_case_shared(a, b, "cqw"@);
    lemma_same_case_shared(a, b, "cqh"@);
    lemma_same_case_shared(a, b, "cqi"@);
    lemma_same_case_shared(a, b, "cqb"@);
    lemma_same_case_shared(a, b, "cqmin"@);
    lemma_same_case_shared(a, b, "cqmax"@);
    lemma_same_case_shared(a, b, "deg"@);
    lemma_same_case_shared(a, b, "grad"@);
    lemma_same_case_shared(a, b, "rad"@);
    lemma_same_case_shared(a, b, "turn"@);
    lemma_same_case_shared(a, b, "s"@);
    lemma_same_case_shared(a, b, "ms"@);
    lemma_same_case_shared(a, b, "hz"@);
    lemma_same_case_shared(a, b, "khz"@);
    lemma_same_case_shared(a, b, "dpi"@);
    lemma_same_case_shared(a, b, "dpcm"@);
    lemma_same_case_shared(a, b, "dppx"@);
    lemma_same_case_shared(a, b, "fr"@);
    lemma_same_case_shared(a, b, "x"@);
}

#[verifier::spinoff_prover]
#[verifier::rlimit(100)]
proof fn lemma_length_unit_name_reads(u: CssLengthUnit)
    ensures
        length_unit_of(length_unit_name(u)) == Some(u),
{
    reveal_strlit("px");
    reveal_strlit("cm");
    reveal_strlit("mm");
    reveal_strlit("q");
    reveal_strlit("in");
    reveal_strlit("pt");
    reveal_strlit("pc");
    reveal_strlit("em");
    reveal_strlit("rem");
    reveal_strlit("ex");
    reveal_strlit("rex");
    reveal_strlit("cap");
    reveal_strlit("rcap");
    reveal_strlit("ch");
    reveal_strlit("rch");
    reveal_strlit("ic");
    reveal_strlit("ric");
    reveal_strlit("lh");
    reveal_strlit("rlh");
    reveal_strlit("vw");
    reveal_strlit("vh");
    reveal_strlit("vi");
    reveal_strlit("vb");
    reveal_strlit("vmin");
    reveal_strlit("vmax");
    reveal_strlit("svw");
    reveal_strlit("svh");
    reveal_strlit("svi");
    reveal_strlit("svb");
    reveal_strlit("svmin");
    reveal_strlit("svmax");
    reveal_strlit("lvw");
    reveal_strlit("lvh");
    reveal_strlit("lvi");
    reveal_strlit("lvb");
    reveal_strlit("lvmin");
    reveal_strlit("lvmax");
    reveal_strlit("dvw");
    reveal_strlit("dvh");
    reveal_strlit("dvi");
    reveal_strlit("dvb");
    reveal_strlit("dvmin");
    reveal_strlit("dvmax");
    reveal_strlit("cqw");
    reveal_strlit("cqh");
    reveal_strlit("cqi");
    reveal_strlit("cqb");
    reveal_strlit("cqmin");
    reveal_strlit("cqmax");
    match u {
        CssLengthUnit::Px => {
            lemma_same_case_shared("px"@, "px"@, "px"@);
        },
        CssLengthUnit::Cm => {
            lemma_differs_at("cm"@, "px"@, 0);
            lemma_same_case_shared("cm"@, "cm"@, "cm"@);
        },
        CssLengthUnit::Mm => {
            lemma_differs_at("mm"@, "px"@, 0);
            lemma_differs_at("mm"@, "cm"@, 0);
            lemma_same_case_shared("mm"@, "mm"@, "mm"@);
        },
        CssLengthUnit::Q => {
            lemma_same_case_shared("q"@, "q"@, "q"@);
        },
        CssLengthUnit::In => {
            lemma_differs_at("in"@, "px"@, 0);
            lemma_differs_at("in"@, "cm"@, 0);
            lemma_differs_at("in"@, "mm"@, 0);
            lemma_same_case_shared("in"@, "in"@, "in"@);
        },
        CssLengthUnit::Pt => {
            lemma_differs_at("pt"@, "px"@, 1);
            lemma_differs_at("pt"@, "cm"@, 0);
            lemma_differs_at("pt"@, "mm"@, 0);
            lemma_differs_at("pt"@, "in"@, 0);
            lemma_same_case_shared("pt"@, "pt"@, "pt"@);
        },
        CssLengthUnit::Pc => {
            lemma_differs_at("pc"@, "px"@, 1);
            lemma_differs_at("pc"@, "cm"@, 0);
            lemma_differs_at("pc"@, "mm"@, 0);
            lemma_differs_at("pc"@, "in"@, 0);
            lemma_differs_at("pc"@, "pt"@, 1);
            lemma_same_case_shared("pc"@, "pc"@, "pc"@);
        },
        CssLengthUnit::Em => {
            lemma_differs_at("em"@, "px"@, 0);
            lemma_differs_at("em"@, "cm"@, 0);
            lemma_differs_at("em"@, "mm"@, 0);
            lemma_differs_at("em"@, "in"@, 0);
            lemma_differs_at("em"@, "pt"@, 0);
            lemma_differs_at("em"@, "pc"@, 0);
            lemma_same_case_shared("em"@, "em"@, "em"@);
        },
        CssLengthUnit::Rem => {
            lemma_same_case_shared("rem"@, "rem"@, "rem"@);
        },
        CssLengthUnit::Ex => {
            lemma_differs_at("ex"@, "px"@, 0);
            lemma_differs_at("ex"@, "cm"@, 0);
            lemma_differs_at("ex"@, "mm"@, 0);
            lemma_differs_at("ex"@, "in"@, 0);
            lemma_differs_at("ex"@, "pt"@, 0);
            lemma_differs_at("ex"@, "pc"@, 0);
            lemma_differs_at("ex"@, "em"@, 1);
            lemma_same_case_shared("ex"@, "ex"@, "ex"@);
        },
        CssLengthUnit::Rex => {
            lemma_differs_at("rex"@, "rem"@, 2);
            lemma_same_case_shared("rex"@, "rex"@, "rex"@);
        },
        CssLengthUnit::Cap => {
            lemma_differs_at("cap"@, "rem"@, 0);
            lemma_differs_at("cap"@, "rex"@, 0);
            lemma_same_case_shared("cap"@, "cap"@, "cap"@);
        },
        CssLengthUnit::Rcap => {
            lemma_same_case_shared("rcap"@, "rcap"@, "rcap"@);
        },
        CssLengthUnit::Ch => {
            lemma_differs_at("ch"@, "px"@, 0);
            lemma_differs_at("ch"@, "cm"@, 1);
            lemma_differs_at("ch"@, "mm"@, 0);
            lemma_differs_at("ch"@, "in"@, 0);
            lemma_differs_at("ch"@, "pt"@, 0);
            lemma_differs_at("ch"@, "pc"@, 0);
            lemma_differs_at("ch"@, "em"@, 0);
            lemma_differs_at("ch"@, "ex"@, 0);
            lemma_same_case_shared("ch"@, "ch"@, "ch"@);
        },
        CssLengthUnit::Rch => {
            lemma_differs_at("rch"@, "rem"@, 1);
            lemma_differs_at("rch"@, "rex"@, 1);
            lemma_differs_at("rch"@, "cap"@, 0);
            lemma_same_case_shared("rch"@, "rch"@, "rch"@);
        },
        CssLengthUnit::Ic => {
            lemma_differs_at("ic"@, "px"@, 0);
            lemma_differs_at("ic"@, "cm"@, 0);
            lemma_differs_at("ic"@, "mm"@, 0);
            lemma_differs_at("ic"@, "in"@, 1);
            lemma_differs_at("ic"@, "pt"@, 0);
            lemma_differs_at("ic"@, "pc"@, 0);
            lemma_differs_at("ic"@, "em"@, 0);
            lemma_differs_at("ic"@, "ex"@, 0);
            lemma_differs_at("ic"@, "ch"@, 0);
            lemma_same_case_shared("ic"@, "ic"@, "ic"@);
        },
        CssLengthUnit::Ric => {
            lemma_differs_at("ric"@, "rem"@, 1);
            lemma_differs_at("ric"@, "rex"@, 1);
            lemma_differs_at("ric"@, "cap"@, 0);
            lemma_differs_at("ric"@, "rch"@, 1);
            lemma_same_case_shared("ric"@, "ric"@, "ric"@);
        },
        CssLengthUnit::Lh => {
            lemma_differs_at("lh"@, "px"@, 0);
            lemma_differs_at("lh"@, "cm"@, 0);
            lemma_differs_at("lh"@, "mm"@, 0);
            lemma_differs_at("lh"@, "in"@, 0);
            lemma_differs_at("lh"@, "pt"@, 0);
            lemma_differs_at("lh"@, "pc"@, 0);
            lemma_differs_at("lh"@, "em"@, 0);
            lemma_differs_at("lh"@, "ex"@, 0);
            lemma_differs_at("lh"@, "ch"@, 0);
            lemma_differs_at("lh"@, "ic"@, 0);
            lemma_same_case_shared("lh"@, "lh"@, "lh"@);
        },
        CssLengthUnit::Rlh => {
            lemma_differs_at("rlh"@, "rem"@, 1);
            lemma_differs_at("rlh"@, "rex"@, 1);
            lemma_differs_at("rlh"@, "cap"@, 0);
            lemma_differs_at("rlh"@, "rch"@, 1);
            lemma_differs_at("rlh"@, "ric"@, 1);
            lemma_same_case_shared("rlh"@, "rlh"@, "rlh"@);
        },
        CssLengthUnit::Vw => {
            lemma_differs_at("vw"@, "px"@, 0);
            lemma_differs_at("vw"@, "cm"@, 0);
            lemma_differs_at("vw"@, "mm"@, 0);
            lemma_differs_at("vw"@, "in"@, 0);
            lemma_differs_at("vw"@, "pt"@, 0);
            lemma_differs_at("vw"@, "pc"@, 0);
            lemma_differs_at("vw"@, "em"@, 0);
            lemma_differs_at("vw"@, "ex"@, 0);
            lemma_differs_at("vw"@, "ch"@, 0);
            lemma_differs_at("vw"@, "ic"@, 0);
            lemma_differs_at("vw"@, "lh"@, 0);
            lemma_same_case_shared("vw"@, "vw"@, "vw"@);
        },
        CssLengthUnit::Vh => {
            lemma_differs_at("vh"@, "px"@, 0);
            lemma_differs_at("vh"@, "cm"@, 0);
            lemma_differs_at("vh"@, "mm"@, 0);
            lemma_differs_at("vh"@, "in"@, 0);
            lemma_differs_at("vh"@, "pt"@, 0);
            lemma_differs_at("vh"@, "pc"@, 0);
            lemma_differs_at("vh"@, "em"@, 0);
            lemma_differs_at("vh"@, "ex"@, 0);
            lemma_differs_at("vh"@, "ch"@, 0);
            lemma_differs_at("vh"@, "ic"@, 0);
            lemma_differs_at("vh"@, "lh"@, 0);
            lemma_differs_at("vh"@, "vw"@, 1);
            lemma_same_case_shared("vh"@, "vh"@, "vh"@);
        },
        CssLengthUnit::Vi => {
            lemma_differs_at("vi"@, "px"@, 0);
            lemma_differs_at("vi"@, "cm"@, 0);
            lemma_differs_at("vi"@, "mm"@, 0);
            lemma_differs_at("vi"@, "in"@, 0);
            lemma_differs_at("vi"@, "pt"@, 0);
            lemma_differs_at("vi"@, "pc"@, 0);
            lemma_differs_at("vi"@, "em"@, 0);
            lemma_differs_at("vi"@, "ex"@, 0);
            lemma_differs_at("vi"@, "ch"@, 0);
            lemma_differs_at("vi"@, "ic"@, 0);
            lemma_differs_at("vi"@, "lh"@, 0);
            lemma_differs_at("vi"@, "vw"@, 1);
            lemma_differs_at("vi"@, "vh"@, 1);
            lemma_same_case_shared("vi"@, "vi"@, "vi"@);
        },
        CssLengthUnit::Vb => {
            lemma_differs_at("vb"@, "px"@, 0);
            lemma_differs_at("vb"@, "cm"@, 0);
            lemma_differs_at("vb"@, "mm"@, 0);
            lemma_differs_at("vb"@, "in"@, 0);
            lemma_differs_at("vb"@, "pt"@, 0);
            lemma_differs_at("vb"@, "pc"@, 0);
            lemma_differs_at("vb"@, "em"@, 0);
            lemma_differs_at("vb"@, "ex"@, 0);
            lemma_differs_at("vb"@, "ch"@, 0);
            lemma_differs_at("vb"@, "ic"@, 0);
            lemma_differs_at("vb"@, "lh"@, 0);
            lemma_differs_at("vb"@, "vw"@, 1);
            lemma_differs_at("vb"@, "vh"@, 1);
            lemma_differs_at("vb"@, "vi"@, 1);
            lemma_same_case_shared("vb"@, "vb"@, "vb"@);
        },
        CssLengthUnit::Vmin => {
            lemma_differs_at("vmin"@, "rcap"@, 0);
            lemma_same_case_shared("vmin"@, "vmin"@, "vmin"@);
        },
        CssLengthUnit::Vmax => {
            lemma_differs_at("vmax"@, "rcap"@, 0);
            lemma_differs_at("vmax"@, "vmin"@, 2);
            lemma_same_case_shared("vmax"@, "vmax"@, "vmax"@);
        },
        CssLengthUnit::Svw => {
            lemma_differs_at("svw"@, "rem"@, 0);
            lemma_differs_at("svw"@, "rex"@, 0);
            lemma_differs_at("svw"@, "cap"@, 0);
            lemma_differs_at("svw"@, "rch"@, 0);
            lemma_differs_at("svw"@, "ric"@, 0);
            lemma_differs_at("svw"@, "rlh"@, 0);
            lemma_same_case_shared("svw"@, "svw"@, "svw"@);
        },
        CssLengthUnit::Svh => {
            lemma_differs_at("svh"@, "rem"@, 0);
            lemma_differs_at("svh"@, "rex"@, 0);
            lemma_differs_at("svh"@, "cap"@, 0);
            lemma_differs_at("svh"@, "rch"@, 0);
            lemma_differs_at("svh"@, "ric"@, 0);
            lemma_differs_at("svh"@, "rlh"@, 0);
            lemma_differs_at("svh"@, "svw"@, 2);
            lemma_same_case_shared("svh"@, "svh"@, "svh"@);
        },
        CssLengthUnit::Svi => {
            lemma_differs_at("svi"@, "rem"@, 0);
            lemma_differs_at("svi"@, "rex"@, 0);
            lemma_differs_at("svi"@, "cap"@, 0);
            lemma_differs_at("svi"@, "rch"@, 0);
            lemma_differs_at("svi"@, "ric"@, 0);
            lemma_differs_at("svi"@, "rlh"@, 0);
            lemma_differs_at("svi"@, "svw"@, 2);
            lemma_differs_at("svi"@, "svh"@, 2);
            lemma_same_case_shared("svi"@, "svi"@, "svi"@);
        },
        CssLengthUnit::Svb => {
            lemma_differs_at("svb"@, "rem"@, 0);
            lemma_differs_at("svb"@, "rex"@, 0);
            lemma_differs_at("svb"@, "cap"@, 0);
            lemma_differs_at("svb"@, "rch"@, 0);
            lemma_differs_at("svb"@, "ric"@, 0);
            lemma_differs_at("svb"@, "rlh"@, 0);
            lemma_differs_at("svb"@, "svw"@, 2);
            lemma_differs_at("svb"@, "svh"@, 2);
            lemma_differs_at("svb"@, "svi"@, 2);
            lemma_same_case_shared("svb"@, "svb"@, "svb"@);
        },
        CssLengthUnit::Svmin => {
            lemma_same_case_shared("svmin"@, "svmin"@, "svmin"@);
        },
        CssLengthUnit::Svmax => {
            lemma_differs_at("svmax"@, "svmin"@, 3);
            lemma_same_case_shared("svmax"@, "svmax"@, "svmax"@);
        },
        CssLengthUnit::Lvw => {
            lemma_differs_at("lvw"@, "rem"@, 0);
            lemma_differs_at("lvw"@, "rex"@, 0);
            lemma_differs_at("lvw"@, "cap"@, 0);
            lemma_differs_at("lvw"@, "rch"@, 0);
            lemma_differs_at("lvw"@, "ric"@, 0);
            lemma_differs_at("lvw"@, "rlh"@, 0);
            lemma_differs_at("lvw"@, "svw"@, 0);
            lemma_differs_at("lvw"@, "svh"@, 0);
            lemma_differs_at("lvw"@, "svi"@, 0);
            lemma_differs_at("lvw"@, "svb"@, 0);
            lemma_same_case_shared("lvw"@, "lvw"@, "lvw"@);
        },
        CssLengthUnit::Lvh => {
            lemma_differs_at("lvh"@, "rem"@, 0);
            lemma_differs_at("lvh"@, "rex"@, 0);
            lemma_differs_at("lvh"@, "cap"@, 0);
            lemma_differs_at("lvh"@, "rch"@, 0);
            lemma_differs_at("lvh"@, "ric"@, 0);
            lemma_differs_at("lvh"@, "rlh"@, 0);
            lemma_differs_at("lvh"@, "svw"@, 0);
            lemma_differs_at("lvh"@, "svh"@, 0);
            lemma_differs_at("lvh"@, "svi"@, 0);
            lemma_differs_at("lvh"@, "svb"@, 0);
            lemma_differs_at("lvh"@, "lvw"@, 2);
            lemma_same_case_shared("lvh"@, "lvh"@, "lvh"@);
        },
        CssLengthUnit::Lvi => {
            lemma_differs_at("lvi"@, "rem"@, 0);
            lemma_differs_at("lvi"@, "rex"@, 0);
            lemma_differs_at("lvi"@, "cap"@, 0);
            lemma_differs_at("lvi"@, "rch"@, 0);
            lemma_differs_at("lvi"@, "ric"@, 0);
            lemma_differs_at("lvi"@, "rlh"@, 0);
            lemma_differs_at("lvi"@, "svw"@, 0);
            lemma_differs_at("lvi"@, "svh"@, 0);
            lemma_differs_at("lvi"@, "svi"@, 0);
            lemma_differs_at("lvi"@, "svb"@, 0);
            lemma_differs_at("lvi"@, "lvw"@, 2);
            lemma_differs_at("lvi"@, "lvh"@, 2);
            lemma_same_case_shared("lvi"@, "lvi"@, "lvi"@);
        },
        CssLengthUnit::Lvb => {
            lemma_differs_at("lvb"@, "rem"@, 0);
            lemma_differs_at("lvb"@, "rex"@, 0);
            lemma_differs_at("lvb"@, "cap"@, 0);
            lemma_differs_at("lvb"@, "rch"@, 0);
            lemma_differs_at("lvb"@, "ric"@, 0);
            lemma_differs_at("lvb"@, "rlh"@, 0);
            lemma_differs_at("lvb"@, "svw"@, 0);
            lemma_differs_at("lvb"@, "svh"@, 0);
            lemma_differs_at("lvb"@, "svi"@, 0);
            lemma_differs_at("lvb"@, "svb"@, 0);
            lemma_differs_at("lvb"@, "lvw"@, 2);
            lemma_differs_at("lvb"@, "lvh"@, 2);
            lemma_differs_at("lvb"@, "lvi"@, 2);
            lemma_same_case_shared("lvb"@, "lvb"@, "lvb"@);
        },
        CssLengthUnit::Lvmin => {
            lemma_differs_at("lvmin"@, "svmin"@, 0);
            lemma_differs_at("lvmin"@, "svmax"@, 0);
            lemma_same_case_shared("lvmin"@, "lvmin"@, "lvmin"@);
        },
        CssLengthUnit::Lvmax => {
            lemma_differs_at("lvmax"@, "svmin"@, 0);
            lemma_differs_at("lvmax"@, "svmax"@, 0);
            lemma_differs_at("lvmax"@, "lvmin"@, 3);
            lemma_same_case_shared("lvmax"@, "lvmax"@, "lvmax"@);
        },
        CssLengthUnit::Dvw => {
            lemma_differs_at("dvw"@, "rem"@, 0);
            lemma_differs_at("dvw"@, "rex"@, 0);
            lemma_differs_at("dvw"@, "cap"@, 0);
            lemma_differs_at("dvw"@, "rch"@, 0);
            lemma_differs_at("dvw"@, "ric"@, 0);
            lemma_differs_at("dvw"@, "rlh"@, 0);
            lemma_differs_at("dvw"@, "svw"@, 0);
            lemma_differs_at("dvw"@, "svh"@, 0);
            lemma_differs_at("dvw"@, "svi"@, 0);
            lemma_differs_at("dvw"@, "svb"@, 0);
            lemma_differs_at("dvw"@, "lvw"@, 0);
            lemma_differs_at("dvw"@, "lvh"@, 0);
            lemma_differs_at("dvw"@, "lvi"@, 0);
            lemma_differs_at("dvw"@, "lvb"@, 0);
            lemma_same_case_shared("dvw"@, "dvw"@, "dvw"@);
        },
        CssLengthUnit::Dvh => {
            lemma_differs_at("dvh"@, "rem"@, 0);
            lemma_differs_at("dvh"@, "rex"@, 0);
            lemma_differs_at("dvh"@, "cap"@, 0);
            lemma_differs_at("dvh"@, "rch"@, 0);
            lemma_differs_at("dvh"@, "ric"@, 0);
            lemma_differs_at("dvh"@, "rlh"@, 0);
            lemma_differs_at("dvh"@, "svw"@, 0);
            lemma_differs_at("dvh"@, "svh"@, 0);
            lemma_differs_at("dvh"@, "svi"@, 0);
            lemma_differs_at("dvh"@, "svb"@, 0);
            lemma_differs_at("dvh"@, "lvw"@, 0);
            lemma_differs_at("dvh"@, "lvh"@, 0);
            lemma_differs_at("dvh"@, "lvi"@, 0);
            lemma_differs_at("dvh"@, "lvb"@, 0);
            lemma_differs_at("dvh"@, "dvw"@, 2);
            lemma_same_case_shared("dvh"@, "dvh"@, "dvh"@);
        },
        CssLengthUnit::Dvi => {
            lemma_differs_at("dvi"@, "rem"@, 0);
            lemma_differs_at("dvi"@, "rex"@, 0);
            lemma_differs_at("dvi"@, "cap"@, 0);
            lemma_differs_at("dvi"@, "rch"@, 0);
            lemma_differs_at("dvi"@, "ric"@, 0);
            lemma_differs_at("dvi"@, "rlh"@, 0);
            lemma_differs_at("dvi"@, "svw"@, 0);
            lemma_differs_at("dvi"@, "svh"@, 0);
            lemma_differs_at("dvi"@, "svi"@, 0);
            lemma_differs_at("dvi"@, "svb"@, 0);
            lemma_differs_at("dvi"@, "lvw"@, 0);
            lemma_differs_at("dvi"@, "lvh"@, 0);
            lemma_differs_at("dvi"@, "lvi"@, 0);
            lemma_differs_at("dvi"@, "lvb"@, 0);
            lemma_differs_at("dvi"@, "dvw"@, 2);
            lemma_differs_at("dvi"@, "dvh"@, 2);
            lemma_same_case_shared("dvi"@, "dvi"@, "dvi"@);
        },
        CssLengthUnit::Dvb => {
            lemma_differs_at("dvb"@, "rem"@, 0);
            lemma_differs_at("dvb"@, "rex"@, 0);
            lemma_differs_at("dvb"@, "cap"@, 0);
            lemma_differs_at("dvb"@, "rch"@, 0);
            lemma_differs_at("dvb"@, "ric"@, 0);
            lemma_differs_at("dvb"@, "rlh"@, 0);
            lemma_differs_at("dvb"@, "svw"@, 0);
            lemma_differs_at("dvb"@, "svh"@, 0);
            lemma_differs_at("dvb"@, "svi"@, 0);
            lemma_differs_at("dvb"@, "svb"@, 0);
            lemma_differs_at("dvb"@, "lvw"@, 0);
            lemma_differs_at("dvb"@, "lvh"@, 0);
            lemma_differs_at("dvb"@, "lvi"@, 0);
            lemma_differs_at("dvb"@, "lvb"@, 0);
            lemma_differs_at("dvb"@, "dvw"@, 2);
            lemma_differs_at("dvb"@, "dvh"@, 2);
            lemma_differs_at("dvb"@, "dvi"@, 2);
            lemma_same_case_shared("dvb"@, "dvb"@, "dvb"@);
        },
        CssLengthUnit::Dvmin => {
            lemma_differs_at("dvmin"@, "svmin"@, 0);
            lemma_differs_at("dvmin"@, "svmax"@, 0);
            lemma_differs_at("dvmin"@, "lvmin"@, 0);
            lemma_differs_at("dvmin"@, "lvmax"@, 0);
            lemma_same_case_shared("dvmin"@, "dvmin"@, "dvmin"@);
        },
        CssLengthUnit::Dvmax => {
            lemma_differs_at("dvmax"@, "svmin"@, 0);
            lemma_differs_at("dvmax"@, "svmax"@, 0);
            lemma_differs_at("dvmax"@, "lvmin"@, 0);
            lemma_differs_at("dvmax"@, "lvmax"@, 0);
            lemma_differs_at("dvmax"@, "dvmin"@, 3);
            lemma_same_case_shared("dvmax"@, "dvmax"@, "dvmax"@);
        },
        CssLengthUnit::Cqw => {
            lemma_differs_at("cqw"@, "rem"@, 0);
            lemma_differs_at("cqw"@, "rex"@, 0);
            lemma_differs_at("cqw"@, "cap"@, 1);
            lemma_differs_at("cqw"@, "rch"@, 0);
            lemma_differs_at("cqw"@, "ric"@, 0);
            lemma_differs_at("cqw"@, "rlh"@, 0);
            lemma_differs_at("cqw"@, "svw"@, 0);
            lemma_differs_at("cqw"@, "svh"@, 0);
            lemma_differs_at("cqw"@, "svi"@, 0);
            lemma_differs_at("cqw"@, "svb"@, 0);
            lemma_differs_at("cqw"@, "lvw"@, 0);
            lemma_differs_at("cqw"@, "lvh"@, 0);
            lemma_differs_at("cqw"@, "lvi"@, 0);
            lemma_differs_at("cqw"@, "lvb"@, 0);
            lemma_differs_at("cqw"@, "dvw"@, 0);
            lemma_differs_at("cqw"@, "dvh"@, 0);
            lemma_differs_at("cqw"@, "dvi"@, 0);
            lemma_differs_at("cqw"@, "dvb"@, 0);
            lemma_same_case_shared("cqw"@, "cqw"@, "cqw"@);
        },
        CssLengthUnit::Cqh => {
            lemma_differs_at("cqh"@, "rem"@, 0);
            lemma_differs_at("cqh"@, "rex"@, 0);
            lemma_differs_at("cqh"@, "cap"@, 1);
            lemma_differs_at("cqh"@, "rch"@, 0);
            lemma_differs_at("cqh"@, "ric"@, 0);
            lemma_differs_at("cqh"@, "rlh"@, 0);
            lemma_differs_at("cqh"@, "svw"@, 0);
            lemma_differs_at("cqh"@, "svh"@, 0);
            lemma_differs_at("cqh"@, "svi"@, 0);
            lemma_differs_at("cqh"@, "svb"@, 0);
            lemma_differs_at("cqh"@, "lvw"@, 0);
            lemma_differs_at("cqh"@, "lvh"@, 0);
            lemma_differs_at("cqh"@, "lvi"@, 0);
            lemma_differs_at("cqh"@, "lvb"@, 0);
            lemma_differs_at("cqh"@, "dvw"@, 0);
            lemma_differs_at("cqh"@, "dvh"@, 0);
            lemma_differs_at("cqh"@, "dvi"@, 0);
            lemma_differs_at("cqh"@, "dvb"@, 0);
            lemma_differs_at("cqh"@, "cqw"@, 2);
            lemma_same_case_shared("cqh"@, "cqh"@, "cqh"@);
        },
        CssLengthUnit::Cqi => {
            lemma_differs_at("cqi"@, "rem"@, 0);
            lemma_differs_at("cqi"@, "rex"@, 0);
            lemma_differs_at("cqi"@, "cap"@, 1);
            lemma_differs_at("cqi"@, "rch"@, 0);
            lemma_differs_at("cqi"@, "ric"@, 0);
            lemma_differs_at("cqi"@, "rlh"@, 0);
            lemma_differs_at("cqi"@, "svw"@, 0);
            lemma_differs_at("cqi"@, "svh"@, 0);
            lemma_differs_at("cqi"@, "svi"@, 0);
            lemma_differs_at("cqi"@, "svb"@, 0);
            lemma_differs_at("cqi"@, "lvw"@, 0);
            lemma_differs_at("cqi"@, "lvh"@, 0);
            lemma_differs_at("cqi"@, "lvi"@, 0);
            lemma_differs_at("cqi"@, "lvb"@, 0);
            lemma_differs_at("cqi"@, "dvw"@, 0);
            lemma_differs_at("cqi"@, "dvh"@, 0);
            lemma_differs_at("cqi"@, "dvi"@, 0);
            lemma_differs_at("cqi"@, "dvb"@, 0);
            lemma_differs_at("cqi"@, "cqw"@, 2);
            lemma_differs_at("cqi"@, "cqh"@, 2);
            lemma_same_case_shared("cqi"@, "cqi"@, "cqi"@);
        },
        CssLengthUnit::Cqb => {
            lemma_differs_at("cqb"@, "rem"@, 0);
            lemma_differs_at("cqb"@, "rex"@, 0);
            lemma_differs_at("cqb"@, "cap"@, 1);
            lemma_differs_at("cqb"@, "rch"@, 0);
            lemma_differs_at("cqb"@, "ric"@, 0);
            lemma_differs_at("cqb"@, "rlh"@, 0);
            lemma_differs_at("cqb"@, "svw"@, 0);
            lemma_differs_at("cqb"@, "svh"@, 0);
            lemma_differs_at("cqb"@, "svi"@, 0);
            lemma_differs_at("cqb"@, "svb"@, 0);
            lemma_differs_at("cqb"@, "lvw"@, 0);
            lemma_differs_at("cqb"@, "lvh"@, 0);
            lemma_differs_at("cqb"@, "lvi"@, 0);
            lemma_differs_at("cqb"@, "lvb"@, 0);
            lemma_differs_at("cqb"@, "dvw"@, 0);
            lemma_differs_at("cqb"@, "dvh"@, 0);
            lemma_differs_at("cqb"@, "dvi"@, 0);
            lemma_differs_at("cqb"@, "dvb"@, 0);
            lemma_differs_at("cqb"@, "cqw"@, 2);
            lemma_differs_at("cqb"@, "cqh"@, 2);
            lemma_differs_at("cqb"@, "cqi"@, 2);
            lemma_same_case_shared("cqb"@, "cqb"@, "cqb"@);
        },
        CssLengthUnit::Cqmin => {
            lemma_differs_at("cqmin"@, "svmin"@, 0);
            lemma_differs_at("cqmin"@, "svmax"@, 0);
            lemma_differs_at("cqmin"@, "lvmin"@, 0);
            lemma_differs_at("cqmin"@, "lvmax"@, 0);
            lemma_differs_at("cqmin"@, "dvmin"@, 0);
            lemma_differs_at("cqmin"@, "dvmax"@, 0);
            lemma_same_case_shared("cqmin"@, "cqmin"@, "cqmin"@);
        },
        CssLengthUnit::Cqmax => {
            lemma_differs_at("cqmax"@, "svmin"@, 0);
            lemma_differs_at("cqmax"@, "svmax"@, 0);
            lemma_differs_at("cqmax"@, "lvmin"@, 0);
            lemma_differs_at("cqmax"@, "lvmax"@, 0);
            lemma_differs_at("cqmax"@, "dvmin"@, 0);
            lemma_differs_at("cqmax"@, "dvmax"@, 0);
            lemma_differs_at("cqmax"@, "cqmin"@, 3);
            lemma_same_case_shared("cqmax"@, "cqmax"@, "cqmax"@);
        },
    }
}

#[verifier::spinoff_prover]
#[verifier::rlimit(100)]
proof fn lemma_other_unit_names_read()
    ensures
        numeric_unit_of("deg"@) == Some(CssNumericUnit::Angle(CssAngleUnit::Degrees)),
        numeric_unit_of("grad"@) == Some(CssNumericUnit::Angle(CssAngleUnit::Gradians)),
        numeric_unit_of("rad"@) == Some(CssNumericUnit::Angle(CssAngleUnit::Radians)),
        numeric_unit_of("turn"@) == Some(CssNumericUnit::Angle(CssAngleUnit::Turns)),
        numeric_unit_of("s"@) == Some(CssNumericUnit::Time(CssTimeUnit::Seconds)),
        numeric_unit_of("ms"@) == Some(CssNumericUnit::Time(CssTimeUnit::Milliseconds)),
        numeric_unit_of("hz"@) == Some(CssNumericUnit::Frequency(CssFrequencyUnit::Hertz)),
        numeric_unit_of("khz"@) == Some(CssNumericUnit::Frequency(CssFrequencyUnit::Kilohertz)),
        numeric_unit_of("dpi"@) == Some(CssNumericUnit::Resolution(CssResolutionUnit::Dpi)),
        numeric_unit_of("dpcm"@) == Some(CssNumericUnit::Resolution(CssResolutionUnit::Dpcm)),
        numeric_unit_of("dppx"@) == Some(CssNumericUnit::Resolution(CssResolutionUnit::Dppx)),
        numeric_unit_of("x"@) == Some(CssNumericUnit::Resolution(CssResolutionUnit::Dppx)),
        numeric_unit_of("fr"@) == Some(CssNumericUnit::Flex),
{
    reveal_strlit("px");
    reveal_strlit("cm");
    reveal_strlit("mm");
    reveal_strlit("q");
    reveal_strlit("in");
    reveal_strlit("pt");
    reveal_strlit("pc");
    reveal_strlit("em");
    reveal_strlit("rem");
    reveal_strlit("ex");
    reveal_strlit("rex");
    reveal_strlit("cap");
    reveal_strlit("rcap");
    reveal_strlit("ch");
    reveal_strlit("rch");
    reveal_strlit("ic");
    reveal_strlit("ric");
    reveal_strlit("lh");
    reveal_strlit("rlh");
    reveal_strlit("vw");
    reveal_strlit("vh");
    reveal_strlit("vi");
    reveal_strlit("vb");
    reveal_strlit("vmin");
    reveal_strlit("vmax");
    reveal_strlit("svw");
    reveal_strlit("svh");
    reveal_strlit("svi");
    reveal_strlit("svb");
    reveal_strlit("svmin");
    reveal_strlit("svmax");
    reveal_strlit("lvw");
    reveal_strlit("lvh");
    reveal_strlit("lvi");
    reveal_strlit("lvb");
    reveal_strlit("lvmin");
    reveal_strlit("lvmax");
    reveal_strlit("dvw");
    reveal_strlit("dvh");
    reveal_strlit("dvi");
    reveal_strlit("dvb");
    reveal_strlit("dvmin");
    reveal_strlit("dvmax");
    reveal_strlit("cqw");
    reveal_strlit("cqh");
    reveal_strlit("cqi");
    reveal_strlit("cqb");
    reveal_strlit("cqmin");
    reveal_strlit("cqmax");
    reveal_strlit("deg");
    reveal_strlit("grad");
    reveal_strlit("rad");
    reveal_strlit("turn");
    reveal_strlit("s");
    reveal_strlit("ms");
    reveal_strlit("hz");
    reveal_strlit("khz");
    reveal_strlit("dpi");
    reveal_strlit("dpcm");
    reveal_strlit("dppx");
    reveal_strlit("fr");
    reveal_strlit("x");
    lemma_differs_at("deg"@, "rem"@, 0);
    lemma_differs_at("deg"@, "rex"@, 0);
    lemma_differs_at("deg"@, "cap"@, 0);
    lemma_differs_at("deg"@, "rch"@, 0);
    lemma_differs_at("deg"@, "ric"@, 0);
    lemma_differs_at("deg"@, "rlh"@, 0);
    lemma_differs_at("deg"@, "svw"@, 0);
    lemma_differs_at("deg"@, "svh"@, 0);
    lemma_differs_at("deg"@, "svi"@, 0);
    lemma_differs_at("deg"@, "svb"@, 0);
    lemma_differs_at("deg"@, "lvw"@, 0);
    lemma_differs_at("deg"@, "lvh"@, 0);
    lemma_differs_at("deg"@, "lvi"@, 0);
    lemma_differs_at("deg"@, "lvb"@, 0);
    lemma_differs_at("deg"@, "dvw"@, 1);
    lemma_differs_at("deg"@, "dvh"@, 1);
    lemma_differs_at("deg"@, "dvi"@, 1);
    lemma_differs_at("deg"@, "dvb"@, 1);
    lemma_differs_at("deg"@, "cqw"@, 0);
    lemma_differs_at("deg"@, "cqh"@, 0);
    lemma_differs_at("deg"@, "cqi"@, 0);
    lemma_differs_at("deg"@, "cqb"@, 0);
    lemma_same_case_shared("deg"@, "deg"@, "deg"@);
    lemma_differs_at("grad"@, "rcap"@, 0);
    lemma_differs_at("grad"@, "vmin"@, 0);
    lemma_differs_at("grad"@, "vmax"@, 0);
    lemma_same_case_shared("grad"@, "grad"@, "grad"@);
    lemma_differs_at("rad"@, "rem"@, 1);
    lemma_differs_at("rad"@, "rex"@, 1);
    lemma_differs_at("rad"@, "cap"@, 0);
    lemma_differs_at("rad"@, "rch"@, 1);
    lemma_differs_at("rad"@, "ric"@, 1);
    lemma_differs_at("rad"@, "rlh"@, 1);
    lemma_differs_at("rad"@, "svw"@, 0);
    lemma_differs_at("rad"@, "svh"@, 0);
    lemma_differs_at("rad"@, "svi"@, 0);
    lemma_differs_at("rad"@, "svb"@, 0);
    lemma_differs_at("rad"@, "lvw"@, 0);
    lemma_differs_at("rad"@, "lvh"@, 0);
    lemma_differs_at("rad"@, "lvi"@, 0);
    lemma_differs_at("rad"@, "lvb"@, 0);
    lemma_differs_at("rad"@, "dvw"@, 0);
    lemma_differs_at("rad"@, "dvh"@, 0);
    lemma_differs_at("rad"@, "dvi"@, 0);
    lemma_differs_at("rad"@, "dvb"@, 0);
    lemma_differs_at("rad"@, "cqw"@, 0);
    lemma_differs_at("rad"@, "cqh"@, 0);
    lemma_differs_at("rad"@, "cqi"@, 0);
    lemma_differs_at("rad"@, "cqb"@, 0);
    lemma_differs_at("rad"@, "deg"@, 0);
    lemma_same_case_shared("rad"@, "rad"@, "rad"@);
    lemma_differs_at("turn"@, "rcap"@, 0);
    lemma_differs_at("turn"@, "vmin"@, 0);
    lemma_differs_at("turn"@, "vmax"@, 0);
    lemma_differs_at("turn"@, "grad"@, 0);
    lemma_same_case_shared("turn"@, "turn"@, "turn"@);
    lemma_differs_at("s"@, "q"@, 0);
    lemma_same_case_shared("s"@, "s"@, "s"@);
    lemma_differs_at("ms"@, "px"@, 0);
    lemma_differs_at("ms"@, "cm"@, 0);
    lemma_differs_at("ms"@, "mm"@, 1);
    lemma_differs_at("ms"@, "in"@, 0);
    lemma_differs_at("ms"@, "pt"@, 0);
    lemma_differs_at("ms"@, "pc"@, 0);
    lemma_differs_at("ms"@, "em"@, 0);
    lemma_differs_at("ms"@, "ex"@, 0);
    lemma_differs_at("ms"@, "ch"@, 0);
    lemma_differs_at("ms"@, "ic"@, 0);
    lemma_differs_at("ms"@, "lh"@, 0);
    lemma_differs_at("ms"@, "vw"@, 0);
    lemma_differs_at("ms"@, "vh"@, 0);
    lemma_differs_at("ms"@, "vi"@, 0);
    lemma_differs_at("ms"@, "vb"@, 0);
    lemma_same_case_shared("ms"@, "ms"@, "ms"@);
    lemma_differs_at("hz"@, "px"@, 0);
    lemma_differs_at("hz"@, "cm"@, 0);
    lemma_differs_at("hz"@, "mm"@, 0);
    lemma_differs_at("hz"@, "in"@, 0);
    lemma_differs_at("hz"@, "pt"@, 0);
    lemma_differs_at("hz"@, "pc"@, 0);
    lemma_differs_at("hz"@, "em"@, 0);
    lemma_differs_at("hz"@, "ex"@, 0);
    lemma_differs_at("hz"@, "ch"@, 0);
    lemma_differs_at("hz"@, "ic"@, 0);
    lemma_differs_at("hz"@, "lh"@, 0);
    lemma_differs_at("hz"@, "vw"@, 0);
    lemma_differs_at("hz"@, "vh"@, 0);
    lemma_differs_at("hz"@, "vi"@, 0);
    lemma_differs_at("hz"@, "vb"@, 0);
    lemma_differs_at("hz"@, "ms"@, 0);
    lemma_same_case_shared("hz"@, "hz"@, "hz"@);
    lemma_differs_at("khz"@, "rem"@, 0);
    lemma_differs_at("khz"@, "rex"@, 0);
    lemma_differs_at("khz"@, "cap"@, 0);
    lemma_differs_at("khz"@, "rch"@, 0);
    lemma_differs_at("khz"@, "ric"@, 0);
    lemma_differs_at("khz"@, "rlh"@, 0);
    lemma_differs_at("khz"@, "svw"@, 0);
    lemma_differs_at("khz"@, "svh"@, 0);
    lemma_differs_at("khz"@, "svi"@, 0);
    lemma_differs_at("khz"@, "svb"@, 0);
    lemma_differs_at("khz"@, "lvw"@, 0);
    lemma_differs_at("khz"@, "lvh"@, 0);
    lemma_differs_at("khz"@, "lvi"@, 0);
    lemma_differs_at("khz"@, "lvb"@, 0);
    lemma_differs_at("khz"@, "dvw"@, 0);
    lemma_differs_at("khz"@, "dvh"@, 0);
    lemma_differs_at("khz"@, "dvi"@, 0);
    lemma_differs_at("khz"@, "dvb"@, 0);
    lemma_differs_at("khz"@, "cqw"@, 0);
    lemma_differs_at("khz"@, "cqh"@, 0);
    lemma_differs_at("khz"@, "cqi"@, 0);
    lemma_differs_at("khz"@, "cqb"@, 0);
    lemma_differs_at("khz"@, "deg"@, 0);
    lemma_differs_at("khz"@, "rad"@, 0);
    lemma_same_case_shared("khz"@, "khz"@, "khz"@);
    lemma_differs_at("dpi"@, "rem"@, 0);
    lemma_differs_at("dpi"@, "rex"@, 0);
    lemma_differs_at("dpi"@, "cap"@, 0);
    lemma_differs_at("dpi"@, "rch"@, 0);
    lemma_differs_at("dpi"@, "ric"@, 0);
    lemma_differs_at("dpi"@, "rlh"@, 0);
    lemma_differs_at("dpi"@, "svw"@, 0);
    lemma_differs_at("dpi"@, "svh"@, 0);
    lemma_differs_at("dpi"@, "svi"@, 0);
    lemma_differs_at("dpi"@, "svb"@, 0);
    lemma_differs_at("dpi"@, "lvw"@, 0);
    lemma_differs_at("dpi"@, "lvh"@, 0);
    lemma_differs_at("dpi"@, "lvi"@, 0);
    lemma_differs_at("dpi"@, "lvb"@, 0);
    lemma_differs_at("dpi"@, "dvw"@, 1);
    lemma_differs_at("dpi"@, "dvh"@, 1);
    lemma_differs_at("dpi"@, "dvi"@, 1);
    lemma_differs_at("dpi"@, "dvb"@, 1);
    lemma_differs_at("dpi"@, "cqw"@, 0);
    lemma_differs_at("dpi"@, "cqh"@, 0);
    lemma_differs_at("dpi"@, "cqi"@, 0);
    lemma_differs_at("dpi"@, "cqb"@, 0);
    lemma_differs_at("dpi"@, "deg"@, 1);
    lemma_differs_at("dpi"@, "rad"@, 0);
    lemma_differs_at("dpi"@, "khz"@, 0);
    lemma_same_case_shared("dpi"@, "dpi"@, "dpi"@);
    lemma_differs_at("dpcm"@, "rcap"@, 0);
    lemma_differs_at("dpcm"@, "vmin"@, 0);
    lemma_differs_at("dpcm"@, "vmax"@, 0);
    lemma_differs_at("dpcm"@, "grad"@, 0);
    lemma_differs_at("dpcm"@, "turn"@, 0);
    lemma_same_case_shared("dpcm"@, "dpcm"@, "dpcm"@);
    lemma_differs_at("dppx"@, "rcap"@, 0);
    lemma_differs_at("dppx"@, "vmin"@, 0);
    lemma_differs_at("dppx"@, "vmax"@, 0);
    lemma_differs_at("dppx"@, "grad"@, 0);
    lemma_differs_at("dppx"@, "turn"@, 0);
    lemma_differs_at("dppx"@, "dpcm"@, 2);
    lemma_same_case_shared("dppx"@, "dppx"@, "dppx"@);
    lemma_differs_at("x"@, "q"@, 0);
    lemma_differs_at("x"@, "s"@, 0);
    lemma_same_case_shared("x"@, "x"@, "x"@);
    lemma_differs_at("fr"@, "px"@, 0);
    lemma_differs_at("fr"@, "cm"@, 0);
    lemma_differs_at("fr"@, "mm"@, 0);
    lemma_differs_at("fr"@, "in"@, 0);
    lemma_differs_at("fr"@, "pt"@, 0);
    lemma_differs_at("fr"@, "pc"@, 0);
    lemma_differs_at("fr"@, "em"@, 0);
    lemma_differs_at("fr"@, "ex"@, 0);
    lemma_differs_at("fr"@, "ch"@, 0);
    lemma_differs_at("fr"@, "ic"@, 0);
    lemma_differs_at("fr"@, "lh"@, 0);
    lemma_differs_at("fr"@, "vw"@, 0);
    lemma_differs_at("fr"@, "vh"@, 0);
    lemma_differs_at("fr"@, "vi"@, 0);
    lemma_differs_at("fr"@, "vb"@, 0);
    lemma_differs_at("fr"@, "ms"@, 0);
    lemma_differs_at("fr"@, "hz"@, 0);
    lemma_same_case_shared("fr"@, "fr"@, "fr"@);
}

/// A unit spelled in any ASCII case reads as the unit whose canonical spelling it
/// matches, measuring that unit's dimension: each length, angle, time and frequency
/// unit's own name, `dpi`, `dpcm`, `dppx` or `x` for resolution, and `fr` for flex.
pub proof fn lemma_unit_spellings(
    t: Seq<char>,
    l: CssLengthUnit,
    a: CssAngleUnit,
    m: CssTimeUnit,
    f: CssFrequencyUnit,
)
    ensures
        same_ignoring_case(t, length_unit_name(l)) ==> numeric_unit_of(t) == Some(CssNumericUnit::Length(l))
            && unit_dimension_of(t) == Some(CssNumericDimension::Length),
        same_ignoring_case(t, angle_unit_name(a)) ==> numeric_unit_of(t) == Some(CssNumericUnit::Angle(a))
            && unit_dimension_of(t) == Some(CssNumericDimension::Angle),
        same_ignoring_case(t, time_unit_name(m)) ==> numeric_unit_of(t) == Some(CssNumericUnit::Time(m))
            && unit_dimension_of(t) == Some(CssNumericDimension::Time),
        same_ignoring_case(t, frequency_unit_name(f)) ==> numeric_unit_of(t) == Some(CssNumericUnit::Frequency(f))
            && unit_dimension_of(t) == Some(CssNumericDimension::Frequency),
        same_ignoring_case(t, "dpi"@) ==> numeric_unit_of(t) == Some(CssNumericUnit::Resolution(CssResolutionUnit::Dpi))
            && unit_dimension_of(t) == Some(CssNumericDimension::Resolution),
        same_ignoring_case(t, "dpcm"@) ==> numeric_unit_of(t) == Some(CssNumericUnit::Resolution(CssResolutionUnit::Dpcm))
            && unit_dimension_of(t) == Some(CssNumericDimension::Resolution),
        same_ignoring_case(t, "dppx"@) || same_ignoring_case(t, "x"@) ==> numeric_unit_of(t) == Some(
            CssNumericUnit::Resolution(CssResolutionUnit::Dppx),
        ) && unit_dimension_of(t) == Some(CssNumericDimension::Resolution),
        same_ignoring_case(t, "fr"@) ==> numeric_unit_of(t) == Some(CssNumericUnit::Flex)
            && unit_dimension_of(t) == Some(CssNumericDimension::Flex),
{
    lemma_length_unit_name_reads(l);
    lemma_other_unit_names_read();
    if same_ignoring_case(t, length_unit_name(l)) {
        lemma_unit_of_same_case(t, length_unit_name(l));
    }
    if same_ignoring_case(t, angle_unit_name(a)) {
        lemma_unit_of_same_case(t, angle_unit_name(a));
    }
    if same_ignoring_case(t, time_unit_name(m)) {
        lemma_unit_of_same_case(t, time_unit_name(m));
    }
    if same_ignoring_case(t, frequency_unit_name(f)) {
        lemma_unit_of_same_case(t, frequency_unit_name(f));
    }
    if same_ignoring_case(t, "dpi"@) {
        lemma_unit_of_same_case(t, "dpi"@);
    }
    if same_ignoring_case(t, "dpcm"@) {
        lemma_unit_of_same_case(t, "dpcm"@);
    }
    if same_ignoring_case(t, "dppx"@) {
        lemma_unit_of_same_case(t, "dppx"@);
    }
    if same_ignoring_case(t, "x"@) {
        lemma_unit_of_same_case(t, "x"@);
    }
    if same_ignoring_case(t, "fr"@) {
        lemma_unit_of_same_case(t, "fr"@);
    }
}

/// The dimension a unit spelling measures, or `None` for an unknown unit.
pub open spec fn unit_dimension_of(u: Seq<char>) -> Option<CssNumericDimension> {
    match numeric_unit_of(u) {
        Some(identity) => Some(unit_identity_dimension(identity)),
        None => None,
    }
}

pub fn unit_dimension(unit: &str) -> (r: Option<CssNumericDimension>)
    ensures
        r == unit_dimension_of(unit@),
{
    match numeric_unit(unit) {
        Some(CssNumericUnit::Length(_)) => Some(CssNumericDimension::Length),
        Some(CssNumericUnit::Angle(_)) => Some(CssNumericDimension::Angle),
        Some(CssNumericUnit::Time(_)) => Some(CssNumericDimension::Time),
        Some(CssNumericUnit::Frequency(_)) => Some(CssNumericDimension::Frequency),
        Some(CssNumericUnit::Resolution(_)) => Some(CssNumericDimension::Resolution),
        Some(CssNumericUnit::Flex) => Some(CssNumericDimension::Flex),
        None => None,
    }
}

} // verus!
