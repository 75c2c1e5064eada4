use surgeist_css::unicode_range::{
    check_token_grammar, gather_range_tokens, parse, read_spelled_range, CssUnicodeRange,
    RangeFault, RangeToken, RangeTokenKind, UnicodeRangeError,
};

fn token(kind: RangeTokenKind, spelling: &str) -> RangeToken {
    let name = match kind {
        RangeTokenKind::Ident => spelling.to_string(),
        _ => String::new(),
    };
    RangeToken { kind, name, spelling: spelling.as_bytes().to_vec() }
}

fn ident(s: &str) -> RangeToken {
    token(RangeTokenKind::Ident, s)
}

fn number(s: &str) -> RangeToken {
    token(RangeTokenKind::Number, s)
}

fn dimension(s: &str) -> RangeToken {
    token(RangeTokenKind::Dimension, s)
}

fn delim(c: char) -> RangeToken {
    token(RangeTokenKind::Delim(c), &c.to_string())
}

fn space() -> RangeToken {
    token(RangeTokenKind::Whitespace, " ")
}

fn range(start: u32, end: u32) -> CssUnicodeRange {
    CssUnicodeRange { start, end }
}

#[test]
fn single_code_point_from_a_signed_number() {
    let raw = vec![ident("u"), number("+0041")];
    assert_eq!(parse(&raw), Ok((range(0x41, 0x41), 2)));
}

#[test]
fn question_marks_cover_every_trailing_digit() {
    let raw = vec![ident("U"), number("+4"), delim('?'), delim('?')];
    assert_eq!(parse(&raw), Ok((range(0x400, 0x4FF), 4)));
    let raw = vec![ident("u"), delim('+'), delim('?')];
    assert_eq!(parse(&raw), Ok((range(0, 0xF), 3)));
}

#[test]
fn interval_spelled_across_a_number_and_a_dimension() {
    let raw = vec![ident("u"), number("+0"), dimension("-7F")];
    assert_eq!(parse(&raw), Ok((range(0, 0x7F), 3)));
}

#[test]
fn interval_spelled_inside_an_identifier() {
    let raw = vec![ident("u"), delim('+'), ident("a-f")];
    assert_eq!(parse(&raw), Ok((range(0xA, 0xF), 3)));
    let raw = vec![ident("u"), delim('+'), ident("aF")];
    assert_eq!(parse(&raw), Ok((range(0xAF, 0xAF), 3)));
}

#[test]
fn escaped_u_is_read_by_its_decoded_name() {
    let raw = vec![
        RangeToken { kind: RangeTokenKind::Ident, name: "u".to_string(), spelling: b"\\75".to_vec() },
        number("+41"),
    ];
    assert_eq!(parse(&raw), Ok((range(0x41, 0x41), 2)));
}

#[test]
fn ranges_beyond_the_last_code_point_or_reversed_are_refused_at_their_endpoint() {
    let mut raw = vec![ident("u"), delim('+')];
    for _ in 0..6 {
        raw.push(delim('?'));
    }
    assert_eq!(parse(&raw), Err(UnicodeRangeError::InvalidToken(2)));
    let raw = vec![ident("u"), number("+10"), number("-1")];
    assert_eq!(parse(&raw), Err(UnicodeRangeError::InvalidToken(2)));
    let raw = vec![ident("u"), number("+110000")];
    assert_eq!(parse(&raw), Err(UnicodeRangeError::InvalidToken(1)));
    let raw = vec![ident("u"), number("+10FFFF")];
    assert_eq!(parse(&raw), Ok((range(0x10FFFF, 0x10FFFF), 2)));
}

#[test]
fn a_seventh_digit_is_refused_where_it_stands() {
    let raw = vec![ident("u"), number("+1234567")];
    assert_eq!(parse(&raw), Err(UnicodeRangeError::InvalidToken(1)));
    let raw = vec![ident("u"), number("+1"), dimension("-1234567")];
    assert_eq!(parse(&raw), Err(UnicodeRangeError::InvalidToken(2)));
}

#[test]
fn a_ninth_token_ends_reading_and_shows_failure() {
    let mut raw = vec![ident("u"), delim('+')];
    for _ in 0..10 {
        raw.push(delim('?'));
    }
    assert_eq!(gather_range_tokens(&raw), Ok(((0..9).collect::<Vec<usize>>(), 9)));
    assert_eq!(parse(&raw), Err(UnicodeRangeError::InvalidToken(8)));
}

#[test]
fn empty_and_unfinished_values_are_incomplete() {
    assert_eq!(parse(&vec![]), Err(UnicodeRangeError::Incomplete(0)));
    assert_eq!(parse(&vec![ident("u")]), Err(UnicodeRangeError::Incomplete(1)));
    assert_eq!(parse(&vec![ident("u"), delim('+')]), Err(UnicodeRangeError::Incomplete(2)));
}

#[test]
fn commas_end_a_range_and_cannot_begin_one() {
    let comma = token(RangeTokenKind::Comma, ",");
    let raw = vec![ident("u"), number("+41"), comma.clone(), ident("u"), number("+42")];
    assert_eq!(parse(&raw), Ok((range(0x41, 0x41), 2)));
    let raw = vec![comma, ident("u"), number("+42")];
    assert_eq!(parse(&raw), Err(UnicodeRangeError::InvalidToken(0)));
}

#[test]
fn comments_are_skipped_and_white_space_inside_is_refused() {
    let comment = token(RangeTokenKind::Comment, "/**/");
    let raw = vec![ident("u"), comment, number("+41")];
    assert_eq!(parse(&raw), Ok((range(0x41, 0x41), 3)));
    let raw = vec![ident("u"), space(), number("+41")];
    assert_eq!(parse(&raw), Err(UnicodeRangeError::InvalidToken(1)));
    let raw = vec![space(), ident("u"), number("+41"), space()];
    assert_eq!(parse(&raw), Ok((range(0x41, 0x41), 4)));
}

#[test]
fn a_token_that_cannot_continue_ends_reading() {
    let raw = vec![ident("u"), number("+41"), token(RangeTokenKind::Other, ";"), number("1")];
    assert_eq!(gather_range_tokens(&raw), Ok((vec![0, 1, 2], 3)));
    assert_eq!(parse(&raw), Err(UnicodeRangeError::InvalidToken(2)));
}

#[test]
fn grammar_faults_name_the_first_misplaced_token() {
    let raw = vec![ident("v"), number("+1")];
    assert_eq!(check_token_grammar(&raw, &vec![0, 1]), Err(RangeFault::At(0)));
    let raw = vec![ident("u"), number("+4"), delim('?'), ident("x")];
    assert_eq!(check_token_grammar(&raw, &vec![0, 1, 2, 3]), Err(RangeFault::At(3)));
    let raw = vec![ident("u"), number("+41"), delim('-')];
    assert_eq!(check_token_grammar(&raw, &vec![0, 1, 2]), Err(RangeFault::At(2)));
    let raw = vec![ident("u"), number("+1"), number("-2"), number("3")];
    assert_eq!(check_token_grammar(&raw, &vec![0, 1, 2, 3]), Err(RangeFault::At(3)));
    let raw = vec![ident("u"), delim('-'), number("1")];
    assert_eq!(check_token_grammar(&raw, &vec![0, 1, 2]), Err(RangeFault::At(1)));
}

#[test]
fn spelled_bytes_are_read_as_hexadecimal() {
    let s: Vec<(u8, usize)> = "+1f?".bytes().map(|b| (b, 1)).collect();
    assert_eq!(read_spelled_range(&s), Ok((0x1F0, 0x1FF)));
    let s: Vec<(u8, usize)> = "+1?2".bytes().enumerate().map(|(i, b)| (b, i)).collect();
    assert_eq!(read_spelled_range(&s), Err(RangeFault::At(3)));
    let s: Vec<(u8, usize)> = "-1".bytes().map(|b| (b, 5)).collect();
    assert_eq!(read_spelled_range(&s), Err(RangeFault::At(5)));
    assert_eq!(CssUnicodeRange::try_new(3, 2), None);
    assert_eq!(CssUnicodeRange::try_new(2, 0x10FFFF), Some(range(2, 0x10FFFF)));
}
