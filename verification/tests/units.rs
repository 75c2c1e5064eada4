use surgeist_css::exact::is_numeric_syntax;
use surgeist_css::units::{
    numeric_unit, CssAngleUnit, CssFrequencyUnit, CssLengthUnit, CssNumericUnit, CssTimeUnit,
};

#[test]
fn length_unit_spellings_read_back_as_the_same_unit() {
    for unit in [
        CssLengthUnit::Px,
        CssLengthUnit::Cm,
        CssLengthUnit::Mm,
        CssLengthUnit::Q,
        CssLengthUnit::In,
        CssLengthUnit::Pt,
        CssLengthUnit::Pc,
        CssLengthUnit::Em,
        CssLengthUnit::Rem,
        CssLengthUnit::Ex,
        CssLengthUnit::Rex,
        CssLengthUnit::Cap,
        CssLengthUnit::Rcap,
        CssLengthUnit::Ch,
        CssLengthUnit::Rch,
        CssLengthUnit::Ic,
        CssLengthUnit::Ric,
        CssLengthUnit::Lh,
        CssLengthUnit::Rlh,
        CssLengthUnit::Vw,
        CssLengthUnit::Vh,
        CssLengthUnit::Vi,
        CssLengthUnit::Vb,
        CssLengthUnit::Vmin,
        CssLengthUnit::Vmax,
        CssLengthUnit::Svw,
        CssLengthUnit::Svh,
        CssLengthUnit::Svi,
        CssLengthUnit::Svb,
        CssLengthUnit::Svmin,
        CssLengthUnit::Svmax,
        CssLengthUnit::Lvw,
        CssLengthUnit::Lvh,
        CssLengthUnit::Lvi,
        CssLengthUnit::Lvb,
        CssLengthUnit::Lvmin,
        CssLengthUnit::Lvmax,
        CssLengthUnit::Dvw,
        CssLengthUnit::Dvh,
        CssLengthUnit::Dvi,
        CssLengthUnit::Dvb,
        CssLengthUnit::Dvmin,
        CssLengthUnit::Dvmax,
        CssLengthUnit::Cqw,
        CssLengthUnit::Cqh,
        CssLengthUnit::Cqi,
        CssLengthUnit::Cqb,
        CssLengthUnit::Cqmin,
        CssLengthUnit::Cqmax,
    ] {
        let spelling = unit.as_css_str();
        assert_eq!(spelling, spelling.to_ascii_lowercase());
        assert_eq!(CssLengthUnit::from_css_unit(spelling), Some(unit), "{spelling}");
        assert_eq!(numeric_unit(spelling), Some(CssNumericUnit::Length(unit)), "{spelling}");
    }
    assert_eq!(CssLengthUnit::Px.as_css_str(), "px");
    assert_eq!(CssLengthUnit::Q.as_css_str(), "q");
}

#[test]
fn angle_time_and_frequency_spellings_read_back_as_the_same_unit() {
    for (unit, spelling) in [
        (CssAngleUnit::Degrees, "deg"),
        (CssAngleUnit::Gradians, "grad"),
        (CssAngleUnit::Radians, "rad"),
        (CssAngleUnit::Turns, "turn"),
    ] {
        assert_eq!(unit.as_css_str(), spelling);
        assert_eq!(numeric_unit(spelling), Some(CssNumericUnit::Angle(unit)));
    }
    for (unit, spelling) in [(CssTimeUnit::Seconds, "s"), (CssTimeUnit::Milliseconds, "ms")] {
        assert_eq!(unit.as_css_str(), spelling);
        assert_eq!(numeric_unit(spelling), Some(CssNumericUnit::Time(unit)));
    }
    for (unit, spelling) in [
        (CssFrequencyUnit::Hertz, "hz"),
        (CssFrequencyUnit::Kilohertz, "khz"),
    ] {
        assert_eq!(unit.as_css_str(), spelling);
        assert_eq!(numeric_unit(spelling), Some(CssNumericUnit::Frequency(unit)));
    }
}

#[test]
fn numeric_syntax_check_accepts_token_representations_only() {
    for text in ["1", "-1.5", "+.5", "1e3", "1E-3", "000.50000e+0", "7.", ""] {
        assert!(is_numeric_syntax(text), "{text}");
    }
    for text in ["1e", "1e+", "a", "1px", "1e1.5", "--1", "1%"] {
        assert!(!is_numeric_syntax(text), "{text}");
    }
}
