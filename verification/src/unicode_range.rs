//! The `unicode-range` descriptor (CSS Syntax 3, section 7.1): choosing the tokens of
//! one range from a token stream, checking their kinds, then reading the range from
//! the bytes that spell them. Each byte keeps the token it came from, so a failure
//! names the token that caused it.

use crate::units::{eq_ignore_ascii_case, same_ignoring_case};
use vstd::prelude::*;

verus! {

/// The kind of a token, as far as the range grammar tells tokens apart.
#[derive(Clone, Copy, Debug, PartialEq, Eq, Structural)]
pub enum RangeTokenKind {
    Ident,
    Number,
    Dimension,
    Delim(char),
    Whitespace,
    Comment,
    Comma,
    Other,
}

/// One token of a descriptor value: its kind, its decoded name where it is an
/// identifier, and the bytes that spell it in the source.
#[derive(Clone, Debug)]
pub struct RangeToken {
    pub kind: RangeTokenKind,
    pub name: String,
    pub spelling: Vec<u8>,
}

/// The largest code point.
pub const MAX_CODE_POINT: u32 = 0x10FFFF;

/// A range of code points, `start` to `end` inclusive.
#[derive(Clone, Copy, Debug, PartialEq, Eq, Structural)]
pub struct CssUnicodeRange {
    pub start: u32,
    pub end: u32,
}

/// A well-formed range: it is not reversed and ends at a code point.
pub open spec fn range_fits(start: int, end: int) -> bool {
    0 <= start <= end <= MAX_CODE_POINT
}

impl CssUnicodeRange {
    /// The range from `start` to `end`, where it is one.
    pub fn try_new(start: u32, end: u32) -> (r: Option<Self>)
        ensures
            r == (if range_fits(start as int, end as int) {
                Some(CssUnicodeRange { start, end })
            } else {
                None
            }),
    {
        if start <= end && end <= MAX_CODE_POINT {
            Some(CssUnicodeRange { start, end })
        } else {
            None
        }
    }
}

/// Why a range could not be read, by position among the chosen tokens.
#[derive(Clone, Copy, Debug, PartialEq, Eq, Structural)]
pub enum RangeFault {
    /// The tokens ended before the range did.
    Missing,
    /// The token at this position does not fit.
    At(usize),
}

/// Why a descriptor value is not a range.
#[derive(Clone, Copy, Debug, PartialEq, Eq, Structural)]
pub enum UnicodeRangeError {
    /// The value ended before the range did; the number of tokens read.
    Incomplete(usize),
    /// The token at this position of the stream does not fit.
    InvalidToken(usize),
}

/// A token that may continue a range.
pub open spec fn continues(kind: RangeTokenKind) -> bool {
    ||| kind == RangeTokenKind::Ident
    ||| kind == RangeTokenKind::Number
    ||| kind == RangeTokenKind::Dimension
    ||| kind == RangeTokenKind::Delim('+')
    ||| kind == RangeTokenKind::Delim('?')
    ||| kind == RangeTokenKind::Delim('-')
}

/// The most tokens that are read: a range has at most eight, and a ninth shows failure.
pub const TOKEN_LIMIT: usize = 9;

/// Choosing the tokens of one range from `raw[i..]`, with `kept` chosen so far and
/// `pending` the first white space seen since the last chosen token. Comments are
/// skipped, a run of white space counts once and only between tokens, and a comma
/// ends the range (a comma first is an error at its position). Reading stops after
/// the ninth token or after a token that cannot continue a range. The result is the
/// positions chosen and how many tokens were read.
pub open spec fn gather(raw: Seq<RangeToken>, i: int, kept: Seq<usize>, pending: Option<usize>)
    -> Result<(Seq<usize>, usize), usize>
    decreases raw.len() - i,
{
    if i < 0 || i >= raw.len() {
        Ok((kept, raw.len() as usize))
    } else {
        let kind = raw[i].kind;
        if kind == RangeTokenKind::Comma {
            if kept.len() == 0 {
                Err(i as usize)
            } else {
                Ok((kept, i as usize))
            }
        } else if kind == RangeTokenKind::Comment {
            gather(raw, i + 1, kept, pending)
        } else if kind == RangeTokenKind::Whitespace {
            gather(
                raw,
                i + 1,
                kept,
                if kept.len() > 0 && pending is None {
                    Some(i as usize)
                } else {
                    pending
                },
            )
        } else {
            let with_space = match pending {
                Some(w) => kept.push(w),
                None => kept,
            };
            if with_space.len() == TOKEN_LIMIT {
                Ok((with_space, (i + 1) as usize))
            } else if with_space.len() + 1 == TOKEN_LIMIT || !continues(kind) {
                Ok((with_space.push(i as usize), (i + 1) as usize))
            } else {
                gather(raw, i + 1, with_space.push(i as usize), None)
            }
        }
    }
}

/// The chosen tokens, in order.
pub open spec fn picked(raw: Seq<RangeToken>, kept: Seq<usize>) -> Seq<RangeToken> {
    Seq::new(kept.len(), |j: int| raw[kept[j] as int])
}

/// An identifier `u`, in either case.
pub open spec fn is_u(t: RangeToken) -> bool {
    t.kind == RangeTokenKind::Ident && same_ignoring_case(t.name@, seq!['u'])
}

/// The first token from `i` on that is not a question mark.
pub open spec fn question_marks_from(ts: Seq<RangeToken>, i: int) -> Result<(), RangeFault>
    decreases ts.len() - i,
{
    if i < 0 || i >= ts.len() {
        Ok(())
    } else if ts[i].kind == RangeTokenKind::Delim('?') {
        question_marks_from(ts, i + 1)
    } else {
        Err(RangeFault::At(i as usize))
    }
}

/// The token grammar of a range: `u` then `+` and an identifier or a question mark,
/// or a dimension, or a number; then question marks only, except that a number may
/// be followed by one number or dimension and nothing more.
pub open spec fn grammar(ts: Seq<RangeToken>) -> Result<(), RangeFault> {
    if ts.len() == 0 {
        Err(RangeFault::Missing)
    } else if !is_u(ts[0]) {
        Err(RangeFault::At(0))
    } else if ts.len() < 2 {
        Err(RangeFault::Missing)
    } else if ts[1].kind == RangeTokenKind::Delim('+') {
        if ts.len() < 3 {
            Err(RangeFault::Missing)
        } else if ts[2].kind == RangeTokenKind::Ident {
            question_marks_from(ts, 3)
        } else if ts[2].kind == RangeTokenKind::Delim('?') {
            question_marks_from(ts, 2)
        } else {
            Err(RangeFault::At(2))
        }
    } else if ts[1].kind == RangeTokenKind::Dimension {
        question_marks_from(ts, 2)
    } else if ts[1].kind == RangeTokenKind::Number {
        if ts.len() >= 3 && (ts[2].kind == RangeTokenKind::Number || ts[2].kind
            == RangeTokenKind::Dimension) {
            if ts.len() >= 4 {
                Err(RangeFault::At(3))
            } else {
                Ok(())
            }
        } else {
            question_marks_from(ts, 2)
        }
    } else {
        Err(RangeFault::At(1))
    }
}

/// Each byte of `bytes`, owned by the token at `owner`.
pub open spec fn owned(bytes: Seq<u8>, owner: usize) -> Seq<(u8, usize)> {
    bytes.map_values(|b: u8| (b, owner))
}

/// The bytes that spell the tokens after the first, up to position `n`, each with the
/// position of its token.
pub open spec fn spelled(ts: Seq<RangeToken>, n: int) -> Seq<(u8, usize)>
    decreases n,
{
    if n <= 1 {
        seq![]
    } else {
        spelled(ts, n - 1) + owned(ts[n - 1].spelling@, (n - 1) as usize)
    }
}

pub open spec fn is_hex(b: u8) -> bool {
    (48 <= b <= 57) || (65 <= b <= 70) || (97 <= b <= 102)
}

pub open spec fn hex_digit(b: u8) -> int {
    if 48 <= b <= 57 {
        b - 48
    } else if 65 <= b <= 70 {
        b - 55
    } else if 97 <= b <= 102 {
        b - 87
    } else {
        0
    }
}

/// The length of the run from `i`: hexadecimal digits, then question marks (`wild`:
/// a question mark came already).
pub open spec fn run_len(s: Seq<(u8, usize)>, i: int, wild: bool) -> nat
    decreases s.len() - i,
{
    if i < 0 || i >= s.len() {
        0
    } else if s[i].0 == 0x3F {
        1 + run_len(s, i + 1, true)
    } else if !wild && is_hex(s[i].0) {
        1 + run_len(s, i + 1, false)
    } else {
        0
    }
}

/// The hexadecimal value of the bytes `s[lo..hi]`, a question mark standing for
/// `wild_digit`.
pub open spec fn place_value(s: Seq<(u8, usize)>, lo: int, hi: int, wild_digit: int) -> int
    decreases hi - lo,
{
    if hi <= lo {
        0
    } else {
        place_value(s, lo, hi - 1, wild_digit) * 16 + (if s[hi - 1].0 == 0x3F {
            wild_digit
        } else {
            hex_digit(s[hi - 1].0)
        })
    }
}

/// The first position from `j` on that is not a hexadecimal digit, or is the seventh
/// byte counted from `from`.
pub open spec fn first_misfit(s: Seq<(u8, usize)>, from: int, j: int) -> Option<int>
    decreases s.len() - j,
{
    if j < 0 || j >= s.len() {
        None
    } else if j - from >= 6 || !is_hex(s[j].0) {
        Some(j)
    } else {
        first_misfit(s, from, j + 1)
    }
}

/// The range from `start` to `end`, or a failure at `endpoint`.
pub open spec fn checked(start: int, end: int, endpoint: usize) -> Result<
    (u32, u32),
    RangeFault,
> {
    if range_fits(start, end) {
        Ok((start as u32, end as u32))
    } else {
        Err(RangeFault::At(endpoint))
    }
}

/// The range that the spelled bytes `s` denote: `+`, then one to six hexadecimal
/// digits followed by question marks (each a digit from 0 to F at once), or one to
/// six digits alone, or digits, `-` and one to six digits.
pub open spec fn read_range(s: Seq<(u8, usize)>) -> Result<(u32, u32), RangeFault> {
    if s.len() == 0 {
        Err(RangeFault::Missing)
    } else if s[0].0 != 0x2B {
        Err(RangeFault::At(s[0].1))
    } else if s.len() == 1 {
        Err(RangeFault::Missing)
    } else {
        let r = run_len(s, 1, false) as int;
        let low = place_value(s, 1, 1 + r, 0);
        if r > 6 {
            Err(RangeFault::At(s[7].1))
        } else if r == 0 {
            Err(RangeFault::At(s[1].1))
        } else if s[r].0 == 0x3F {
            if s.len() > 1 + r {
                Err(RangeFault::At(s[1 + r].1))
            } else {
                checked(low, place_value(s, 1, 1 + r, 15), s[1].1)
            }
        } else if s.len() == 1 + r {
            checked(low, low, s[1].1)
        } else if s[1 + r].0 != 0x2D {
            Err(RangeFault::At(s[1 + r].1))
        } else if s.len() == 2 + r {
            Err(RangeFault::Missing)
        } else {
            match first_misfit(s, 2 + r, 2 + r) {
                Some(j) => Err(RangeFault::At(s[j].1)),
                None => checked(low, place_value(s, 2 + r, s.len() as int, 0), s[2 + r].1),
            }
        }
    }
}

/// A failure among the chosen tokens, as a failure of the stream.
pub open spec fn stream_error(f: RangeFault, kept: Seq<usize>, read: usize) -> UnicodeRangeError {
    match f {
        RangeFault::Missing => UnicodeRangeError::Incomplete(read),
        RangeFault::At(j) => UnicodeRangeError::InvalidToken(kept[j as int]),
    }
}

/// What reading a range from the token stream `raw` gives: the range and the number
/// of tokens read, or the failure.
pub open spec fn range_outcome(raw: Seq<RangeToken>) -> Result<
    (CssUnicodeRange, usize),
    UnicodeRangeError,
> {
    match gather(raw, 0, seq![], None) {
        Err(i) => Err(UnicodeRangeError::InvalidToken(i)),
        Ok((kept, read)) => {
            let ts = picked(raw, kept);
            match grammar(ts) {
                Err(f) => Err(stream_error(f, kept, read)),
                Ok(()) => match read_range(spelled(ts, ts.len() as int)) {
                    Err(f) => Err(stream_error(f, kept, read)),
                    Ok((start, end)) => Ok((CssUnicodeRange { start, end }, read)),
                },
            }
        },
    }
}

/// The value of hexadecimal digits, most significant first.
pub open spec fn hex_value(a: Seq<u8>) -> int
    decreases a.len(),
{
    if a.len() == 0 {
        0
    } else {
        hex_value(a.drop_last()) * 16 + hex_digit(a.last())
    }
}

/// Every byte is a hexadecimal digit.
pub open spec fn all_hex(a: Seq<u8>) -> bool {
    forall|j: int| 0 <= j < a.len() ==> is_hex(#[trigger] a[j])
}

proof fn lemma_hex_value_nonneg(a: Seq<u8>)
    ensures
        hex_value(a) >= 0,
    decreases a.len(),
{
    if a.len() > 0 {
        lemma_hex_value_nonneg(a.drop_last());
    }
}

proof fn lemma_place_value_hex(s: Seq<(u8, usize)>, lo: int, a: Seq<u8>, w: int)
    requires
        0 <= lo,
        lo + a.len() <= s.len(),
        all_hex(a),
        forall|j: int| 0 <= j < a.len() ==> (#[trigger] s[lo + j]).0 == a[j],
    ensures
        place_value(s, lo, lo + a.len(), w) == hex_value(a),
    decreases a.len(),
{
    if a.len() > 0 {
        let d = a.drop_last();
        assert forall|j: int| 0 <= j < d.len() implies (#[trigger] s[lo + j]).0 == d[j] by {
            assert(s[lo + j].0 == a[j]);
        }
        lemma_place_value_hex(s, lo, d, w);
        assert(s[lo + a.len() - 1].0 == a[a.len() - 1]);
        assert(is_hex(a[a.len() - 1]));
    }
}

proof fn lemma_run_len_hex(s: Seq<(u8, usize)>, i: int, e: int)
    requires
        0 <= i <= e <= s.len(),
        forall|j: int| i <= j < e ==> is_hex(#[trigger] s[j].0),
        e < s.len() ==> !is_hex(s[e].0) && s[e].0 != 0x3F,
    ensures
        run_len(s, i, false) == e - i,
    decreases e - i,
{
    if i < e {
        assert(is_hex(s[i].0));
        lemma_run_len_hex(s, i + 1, e);
    }
}

proof fn lemma_first_misfit_none(s: Seq<(u8, usize)>, from: int, j: int)
    requires
        0 <= from <= j,
        s.len() - from <= 6,
        forall|k: int| from <= k < s.len() ==> is_hex(#[trigger] s[k].0),
    ensures
        first_misfit(s, from, j) is None,
    decreases s.len() - j,
{
    if j < s.len() {
        assert(is_hex(s[j].0));
        lemma_first_misfit_none(s, from, j + 1);
    }
}

/// `u`, a number `+H1` and a number or a dimension `-H2`, with one to six hexadecimal
/// digits each, read as the range from `H1` to `H2` whenever that is a range: a number
/// may be followed by a number exactly as by a dimension.
pub proof fn lemma_number_pair_range(raw: Seq<RangeToken>, a: Seq<u8>, b: Seq<u8>)
    requires
        raw.len() == 3,
        is_u(raw[0]),
        raw[1].kind == RangeTokenKind::Number,
        raw[2].kind == RangeTokenKind::Number || raw[2].kind == RangeTokenKind::Dimension,
        raw[1].spelling@ == seq![43u8] + a,
        raw[2].spelling@ == seq![45u8] + b,
        1 <= a.len() <= 6,
        1 <= b.len() <= 6,
        all_hex(a),
        all_hex(b),
        hex_value(a) <= hex_value(b) <= MAX_CODE_POINT,
    ensures
        range_outcome(raw) == Ok::<(CssUnicodeRange, usize), UnicodeRangeError>(
            (CssUnicodeRange { start: hex_value(a) as u32, end: hex_value(b) as u32 }, 3usize),
        ),
{
    reveal_with_fuel(gather, 4);
    let kept = seq![0usize, 1usize, 2usize];
    assert(gather(raw, 3, kept, None) == Ok::<(Seq<usize>, usize), usize>((kept, 3usize)));
    assert(seq![0usize].push(1usize) =~= seq![0usize, 1usize]);
    assert(seq![0usize, 1usize].push(2usize) =~= kept);
    assert(Seq::<usize>::empty().push(0usize) =~= seq![0usize]);
    assert(gather(raw, 0, seq![], None) == Ok::<(Seq<usize>, usize), usize>((kept, 3usize)));
    let ts = picked(raw, kept);
    assert(ts =~= raw);
    assert(grammar(ts) == Ok::<(), RangeFault>(()));
    let sa = raw[1].spelling@;
    let sb = raw[2].spelling@;
    let x = owned(sa, 1);
    let y = owned(sb, 2);
    reveal_with_fuel(spelled, 3);
    assert(spelled(ts, 1) =~= Seq::<(u8, usize)>::empty());
    let sp = spelled(ts, 3);
    assert(sp =~= x + y);
    let r = a.len() as int;
    assert forall|j: int| 0 <= j < a.len() implies (#[trigger] sp[1 + j]).0 == a[j] by {
        assert(sp[1 + j] == x[1 + j]);
        assert(sa[1 + j] == a[j]);
    }
    assert forall|j: int| 0 <= j < b.len() implies (#[trigger] sp[2 + r + j]).0 == b[j] by {
        assert(sp[2 + r + j] == y[1 + j]);
        assert(sb[1 + j] == b[j]);
    }
    assert(sp[0].0 == 43);
    assert(sp[1 + r] == y[0]);
    assert(sp[1 + r].0 == 45);
    assert forall|j: int| 1 <= j < 1 + r implies is_hex(#[trigger] sp[j].0) by {
        assert(sp[1 + (j - 1)].0 == a[j - 1]);
        assert(is_hex(a[j - 1]));
    }
    lemma_run_len_hex(sp, 1, 1 + r);
    assert(sp[r].0 == a[r - 1]);
    assert(is_hex(a[r - 1]));
    assert forall|k: int| 2 + r <= k < sp.len() implies is_hex(#[trigger] sp[k].0) by {
        assert(sp[2 + r + (k - 2 - r)].0 == b[k - 2 - r]);
        assert(is_hex(b[k - 2 - r]));
    }
    lemma_first_misfit_none(sp, 2 + r, 2 + r);
    lemma_place_value_hex(sp, 1, a, 0);
    assert(sp.len() == 2 + r + b.len());
    lemma_place_value_hex(sp, 2 + r, b, 0);
    lemma_hex_value_nonneg(a);
}

/// `u` and a number `+H`, or `u`, `+` and an identifier `H`, with one to six
/// hexadecimal digits, read as the single code point `H` whenever it is one.
pub proof fn lemma_single_point_range(raw: Seq<RangeToken>, a: Seq<u8>)
    requires
        is_u(raw[0]),
        raw.len() == 2 && raw[1].kind == RangeTokenKind::Number && raw[1].spelling@ == seq![43u8] + a
            || raw.len() == 3 && raw[1].kind == RangeTokenKind::Delim('+') && raw[1].spelling@ == seq![43u8]
            && raw[2].kind == RangeTokenKind::Ident && raw[2].spelling@ == a,
        1 <= a.len() <= 6,
        all_hex(a),
        hex_value(a) <= MAX_CODE_POINT,
    ensures
        range_outcome(raw) == Ok::<(CssUnicodeRange, usize), UnicodeRangeError>(
            (CssUnicodeRange { start: hex_value(a) as u32, end: hex_value(a) as u32 }, raw.len() as usize),
        ),
{
    reveal_with_fuel(gather, 4);
    reveal_with_fuel(spelled, 3);
    lemma_hex_value_nonneg(a);
    assert(Seq::<usize>::empty().push(0usize) =~= seq![0usize]);
    assert(seq![0usize].push(1usize) =~= seq![0usize, 1usize]);
    assert(spelled(raw, 1) =~= Seq::<(u8, usize)>::empty());
    let r = a.len() as int;
    if raw.len() == 2 {
        let kept = seq![0usize, 1usize];
        assert(gather(raw, 0, seq![], None) == Ok::<(Seq<usize>, usize), usize>((kept, 2usize)));
        let ts = picked(raw, kept);
        assert(ts =~= raw);
        assert(grammar(ts) == Ok::<(), RangeFault>(()));
        let sp = spelled(ts, 2);
        assert(sp =~= owned(raw[1].spelling@, 1));
        assert forall|j: int| 0 <= j < a.len() implies (#[trigger] sp[1 + j]).0 == a[j] by {
            assert(raw[1].spelling@[1 + j] == a[j]);
        }
        assert forall|j: int| 1 <= j < 1 + r implies is_hex(#[trigger] sp[j].0) by {
            assert(sp[1 + (j - 1)].0 == a[j - 1]);
        }
        lemma_run_len_hex(sp, 1, 1 + r);
        assert(sp[r].0 == a[r - 1]);
        lemma_place_value_hex(sp, 1, a, 0);
    } else {
        let kept = seq![0usize, 1usize, 2usize];
        assert(seq![0usize, 1usize].push(2usize) =~= kept);
        assert(gather(raw, 0, seq![], None) == Ok::<(Seq<usize>, usize), usize>((kept, 3usize)));
        let ts = picked(raw, kept);
        assert(ts =~= raw);
        assert(question_marks_from(ts, 3) == Ok::<(), RangeFault>(()));
        assert(grammar(ts) == Ok::<(), RangeFault>(()));
        let sp = spelled(ts, 3);
        assert(sp =~= owned(raw[1].spelling@, 1) + owned(a, 2));
        assert forall|j: int| 0 <= j < a.len() implies (#[trigger] sp[1 + j]).0 == a[j] by {
            assert(sp[1 + j] == owned(a, 2)[j]);
        }
        assert forall|j: int| 1 <= j < 1 + r implies is_hex(#[trigger] sp[j].0) by {
            assert(sp[1 + (j - 1)].0 == a[j - 1]);
        }
        lemma_run_len_hex(sp, 1, 1 + r);
        assert(sp[r].0 == a[r - 1]);
        lemma_place_value_hex(sp, 1, a, 0);
    }
}

/// Tokens that continue a range and are neither white space, comments nor commas.
pub open spec fn plain_continuing(t: RangeToken) -> bool {
    continues(t.kind)
}

proof fn lemma_gather_plain(raw: Seq<RangeToken>, i: int, kept: Seq<usize>)
    requires
        0 <= i <= raw.len(),
        kept.len() + (raw.len() - i) <= 8,
        forall|j: int| i <= j < raw.len() ==> plain_continuing(#[trigger] raw[j]),
    ensures
        gather(raw, i, kept, None) == Ok::<(Seq<usize>, usize), usize>(
            (kept + Seq::new((raw.len() - i) as nat, |j: int| (i + j) as usize), raw.len() as usize),
        ),
    decreases raw.len() - i,
{
    if i < raw.len() {
        assert(plain_continuing(raw[i]));
        lemma_gather_plain(raw, i + 1, kept.push(i as usize));
        assert(kept.push(i as usize) + Seq::new((raw.len() - i - 1) as nat, |j: int| (i + 1 + j) as usize)
            =~= kept + Seq::new((raw.len() - i) as nat, |j: int| (i + j) as usize));
    } else {
        assert(kept + Seq::new(0, |j: int| (i + j) as usize) =~= kept);
    }
}

proof fn lemma_question_marks_ok(ts: Seq<RangeToken>, i: int)
    requires
        0 <= i,
        forall|j: int| i <= j < ts.len() ==> (#[trigger] ts[j]).kind == RangeTokenKind::Delim('?'),
    ensures
        question_marks_from(ts, i) == Ok::<(), RangeFault>(()),
    decreases ts.len() - i,
{
    if i < ts.len() {
        assert(ts[i].kind == RangeTokenKind::Delim('?'));
        lemma_question_marks_ok(ts, i + 1);
    }
}

proof fn lemma_spelled_marks(ts: Seq<RangeToken>, a: Seq<u8>, n: int)
    requires
        2 <= n <= ts.len(),
        ts[1].spelling@ == seq![43u8] + a,
        forall|j: int| 2 <= j < ts.len() ==> (#[trigger] ts[j]).spelling@ == seq![63u8],
    ensures
        spelled(ts, n).len() == 1 + a.len() + (n - 2),
        spelled(ts, n)[0].0 == 43,
        forall|j: int| 0 <= j < a.len() ==> (#[trigger] spelled(ts, n)[1 + j]).0 == a[j],
        forall|j: int| 1 + a.len() <= j < spelled(ts, n).len() ==> (#[trigger] spelled(ts, n)[j]).0 == 63,
    decreases n,
{
    if n == 2 {
        assert(spelled(ts, 1) =~= Seq::<(u8, usize)>::empty());
        assert(spelled(ts, 2) =~= owned(ts[1].spelling@, 1));
        assert forall|j: int| 0 <= j < a.len() implies (#[trigger] spelled(ts, n)[1 + j]).0 == a[j] by {
            assert(ts[1].spelling@[1 + j] == a[j]);
        }
    } else {
        lemma_spelled_marks(ts, a, n - 1);
        let prev = spelled(ts, n - 1);
        assert(ts[n - 1].spelling@ == seq![63u8]);
        assert(spelled(ts, n) == prev + owned(ts[n - 1].spelling@, (n - 1) as usize));
        assert forall|j: int| 0 <= j < a.len() implies (#[trigger] spelled(ts, n)[1 + j]).0 == a[j] by {
            assert(spelled(ts, n)[1 + j] == prev[1 + j]);
        }
        assert forall|j: int| 1 + a.len() <= j < spelled(ts, n).len() implies (#[trigger] spelled(ts, n)[j]).0 == 63 by {
            if j < prev.len() {
                assert(spelled(ts, n)[j] == prev[j]);
            }
        }
    }
}

proof fn lemma_run_len_marks(s: Seq<(u8, usize)>, i: int, m: int)
    requires
        0 <= i <= m <= s.len(),
        forall|j: int| i <= j < m ==> is_hex(#[trigger] s[j].0),
        forall|j: int| m <= j < s.len() ==> (#[trigger] s[j]).0 == 0x3F,
    ensures
        run_len(s, i, false) == s.len() - i,
        i >= m ==> run_len(s, i, true) == s.len() - i,
    decreases s.len() - i,
{
    if i < s.len() {
        lemma_run_len_marks(s, i + 1, if m > i { m } else { i + 1 });
        if i < m {
            assert(is_hex(s[i].0));
        } else {
            assert(s[i].0 == 0x3F);
        }
    }
}

proof fn lemma_place_value_marks(s: Seq<(u8, usize)>, lo: int, m: int, k: nat, w: int)
    requires
        0 <= lo <= m,
        m + k <= s.len(),
        w == 0 || w == 15,
        forall|j: int| m <= j < m + k ==> (#[trigger] s[j]).0 == 0x3F,
    ensures
        place_value(s, lo, m + k, w) == place_value(s, lo, m, w) * pow16(k) + (if w == 15 {
            pow16(k) - 1
        } else {
            0
        }),
    decreases k,
{
    if k > 0 {
        lemma_place_value_marks(s, lo, m, (k - 1) as nat, w);
        assert(s[m + k - 1].0 == 0x3F);
        let p = place_value(s, lo, m, w);
        let q = pow16((k - 1) as nat);
        assert((p * q + (if w == 15 { q - 1 } else { 0 })) * 16 + w == p * (16 * q) + (if w == 15 {
            16 * q - 1
        } else {
            0
        })) by (nonlinear_arith)
            requires
                w == 0 || w == 15,
        ;
    }
}

/// `u`, a number `+H` and question marks, with at most six digits and marks in all,
/// read as every code point whose leading digits are `H`: from `H` followed by zeros
/// to `H` followed by `F`s.
pub proof fn lemma_wildcard_range(raw: Seq<RangeToken>, a: Seq<u8>)
    requires
        3 <= raw.len(),
        is_u(raw[0]),
        raw[1].kind == RangeTokenKind::Number,
        raw[1].spelling@ == seq![43u8] + a,
        forall|j: int| 2 <= j < raw.len() ==> (#[trigger] raw[j]).kind == RangeTokenKind::Delim('?')
            && raw[j].spelling@ == seq![63u8],
        1 <= a.len(),
        a.len() + raw.len() - 2 <= 6,
        all_hex(a),
        hex_value(a) * pow16((raw.len() - 2) as nat) + pow16((raw.len() - 2) as nat) - 1 <= MAX_CODE_POINT,
    ensures
        range_outcome(raw) == Ok::<(CssUnicodeRange, usize), UnicodeRangeError>(
            (
                CssUnicodeRange {
                    start: (hex_value(a) * pow16((raw.len() - 2) as nat)) as u32,
                    end: (hex_value(a) * pow16((raw.len() - 2) as nat) + pow16((raw.len() - 2) as nat) - 1) as u32,
                },
                raw.len() as usize,
            ),
        ),
{
    let k = (raw.len() - 2) as nat;
    assert forall|j: int| 0 <= j < raw.len() implies plain_continuing(#[trigger] raw[j]) by {
        if j >= 2 {
            assert(raw[j].kind == RangeTokenKind::Delim('?'));
        }
    }
    lemma_gather_plain(raw, 0, seq![]);
    let kept = Seq::<usize>::empty() + Seq::new(raw.len(), |j: int| (0 + j) as usize);
    let ts = picked(raw, kept);
    assert(ts =~= raw);
    assert(raw[2].kind == RangeTokenKind::Delim('?'));
    lemma_question_marks_ok(ts, 2);
    assert(grammar(ts) == Ok::<(), RangeFault>(()));
    lemma_spelled_marks(ts, a, ts.len() as int);
    let sp = spelled(ts, ts.len() as int);
    let r = a.len() as int;
    assert forall|j: int| 1 <= j < 1 + r implies is_hex(#[trigger] sp[j].0) by {
        assert(sp[1 + (j - 1)].0 == a[j - 1]);
    }
    lemma_run_len_marks(sp, 1, 1 + r);
    assert(run_len(sp, 1, false) == r + k);
    lemma_place_value_hex(sp, 1, a, 0);
    lemma_place_value_hex(sp, 1, a, 15);
    lemma_place_value_marks(sp, 1, 1 + r, k, 0);
    lemma_place_value_marks(sp, 1, 1 + r, k, 15);
    assert(sp[r + k].0 == 0x3F);
    lemma_hex_value_nonneg(a);
    lemma_pow16_small(k);
    assert(hex_value(a) * pow16(k) >= 0) by (nonlinear_arith)
        requires
            hex_value(a) >= 0,
            pow16(k) >= 1,
    ;
}

/// Powers of sixteen.
pub open spec fn pow16(n: nat) -> int
    decreases n,
{
    if n == 0 {
        1
    } else {
        16 * pow16((n - 1) as nat)
    }
}

proof fn lemma_pow16_small(k: nat)
    requires
        k <= 6,
    ensures
        1 <= pow16(k) <= 0x1000000,
        k < 6 ==> pow16(k) <= 0x100000,
{
    reveal_with_fuel(pow16, 7);
}

fn may_continue(kind: RangeTokenKind) -> (r: bool)
    ensures
        r == continues(kind),
{
    match kind {
        RangeTokenKind::Ident | RangeTokenKind::Number | RangeTokenKind::Dimension => true,
        RangeTokenKind::Delim(c) => c == '+' || c == '?' || c == '-',
        _ => false,
    }
}

/// Chooses the tokens of one range from the stream `raw`: their positions and the
/// number of tokens read, or the position of a comma that comes first.
pub fn gather_range_tokens(raw: &Vec<RangeToken>) -> (r: Result<(Vec<usize>, usize), usize>)
    ensures
        match (r, gather(raw@, 0, seq![], None)) {
            (Ok((kept, read)), Ok((k, n))) => kept@ == k && read == n,
            (Err(i), Err(j)) => i == j,
            _ => false,
        },
        r matches Ok((kept, read)) ==> read <= raw.len() && forall|j: int|
            0 <= j < kept.len() ==> kept[j] < raw.len(),
{
    let mut kept: Vec<usize> = Vec::new();
    let mut pending: Option<usize> = None;
    let mut i: usize = 0;
    while i < raw.len()
        invariant
            i <= raw.len(),
            kept.len() < TOKEN_LIMIT,
            gather(raw@, 0, seq![], None) == gather(raw@, i as int, kept@, pending),
            forall|j: int| 0 <= j < kept.len() ==> kept[j] < i,
            pending matches Some(w) ==> w < i,
        decreases raw.len() - i,
    {
        let kind = raw[i].kind;
        if kind == RangeTokenKind::Comma {
            if kept.len() == 0 {
                return Err(i);
            }
            return Ok((kept, i));
        } else if kind == RangeTokenKind::Whitespace {
            if kept.len() > 0 && pending.is_none() {
                pending = Some(i);
            }
        } else if kind != RangeTokenKind::Comment {
            if let Some(w) = pending {
                kept.push(w);
                pending = None;
                if kept.len() == TOKEN_LIMIT {
                    return Ok((kept, i + 1));
                }
            }
            kept.push(i);
            if kept.len() == TOKEN_LIMIT || !may_continue(kind) {
                return Ok((kept, i + 1));
            }
        }
        i += 1;
    }
    Ok((kept, raw.len()))
}

/// Checks the kinds of the chosen tokens (positions `kept` of `raw`) against the
/// range grammar.
pub fn check_token_grammar(raw: &Vec<RangeToken>, kept: &Vec<usize>) -> (r: Result<(), RangeFault>)
    requires
        forall|j: int| 0 <= j < kept.len() ==> kept[j] < raw.len(),
    ensures
        r == grammar(picked(raw@, kept@)),
        r matches Err(RangeFault::At(j)) ==> j < kept.len(),
{
    let ghost ts = picked(raw@, kept@);
    let n = kept.len();
    if n == 0 {
        return Err(RangeFault::Missing);
    }
    let first = &raw[kept[0]];
    proof {
        reveal_strlit("u");
        assert("u"@ =~= seq!['u']);
    }
    if !(first.kind == RangeTokenKind::Ident && eq_ignore_ascii_case(first.name.as_str(), "u")) {
        return Err(RangeFault::At(0));
    }
    if n < 2 {
        return Err(RangeFault::Missing);
    }
    let second = raw[kept[1]].kind;
    let question_start: usize;
    if second == RangeTokenKind::Delim('+') {
        if n < 3 {
            return Err(RangeFault::Missing);
        }
        let third = raw[kept[2]].kind;
        if third == RangeTokenKind::Ident {
            question_start = 3;
        } else if third == RangeTokenKind::Delim('?') {
            question_start = 2;
        } else {
            return Err(RangeFault::At(2));
        }
    } else if second == RangeTokenKind::Dimension {
        question_start = 2;
    } else if second == RangeTokenKind::Number {
        if n >= 3 {
            let third = raw[kept[2]].kind;
            if third == RangeTokenKind::Number || third == RangeTokenKind::Dimension {
                if n >= 4 {
                    return Err(RangeFault::At(3));
                }
                return Ok(());
            }
        }
        question_start = 2;
    } else {
        return Err(RangeFault::At(1));
    }
    let mut i = question_start;
    while i < n
        invariant
            question_start <= i <= n,
            n == kept.len(),
            ts == picked(raw@, kept@),
            forall|j: int| 0 <= j < kept.len() ==> kept[j] < raw.len(),
            grammar(ts) == question_marks_from(ts, i as int),
        decreases n - i,
    {
        if raw[kept[i]].kind != RangeTokenKind::Delim('?') {
            return Err(RangeFault::At(i));
        }
        i += 1;
    }
    Ok(())
}

/// The bytes that spell the chosen tokens after the first, each with the position of
/// its token among the chosen.
pub fn spelled_bytes(raw: &Vec<RangeToken>, kept: &Vec<usize>) -> (s: Vec<(u8, usize)>)
    requires
        forall|j: int| 0 <= j < kept.len() ==> kept[j] < raw.len(),
    ensures
        s@ == spelled(picked(raw@, kept@), kept.len() as int),
        forall|p: int| 0 <= p < s.len() ==> s@[p].1 < kept.len(),
{
    let ghost ts = picked(raw@, kept@);
    let mut s: Vec<(u8, usize)> = Vec::new();
    let mut k: usize = 1;
    while k < kept.len()
        invariant
            1 <= k,
            k <= kept.len() || k == 1,
            ts == picked(raw@, kept@),
            forall|j: int| 0 <= j < kept.len() ==> kept[j] < raw.len(),
            s@ == spelled(ts, k as int),
            forall|p: int| 0 <= p < s.len() ==> s@[p].1 < k,
        decreases kept.len() - k,
    {
        let bytes = &raw[kept[k]].spelling;
        assert(ts[k as int] == raw@[kept@[k as int] as int]);
        let mut j: usize = 0;
        while j < bytes.len()
            invariant
                j <= bytes.len(),
                k < kept.len(),
                *bytes == ts[k as int].spelling,
                s@ == spelled(ts, k as int) + owned(bytes@.take(j as int), k),
                forall|p: int| 0 <= p < s.len() ==> s@[p].1 <= k,
            decreases bytes.len() - j,
        {
            s.push((bytes[j], k));
            assert(owned(bytes@.take(j + 1), k) =~= owned(bytes@.take(j as int), k).push(
                (bytes@[j as int], k),
            ));
            j += 1;
        }
        assert(bytes@.take(bytes.len() as int) =~= bytes@);
        assert(s@ == spelled(ts, k + 1));
        k += 1;
    }
    proof {
        if kept.len() == 0 {
            assert(spelled(ts, 0) =~= spelled(ts, 1));
        }
    }
    s
}

fn accepts(b: u8, wild: bool) -> (r: bool)
    ensures
        r == (b == 0x3F || (!wild && is_hex(b))),
{
    b == 0x3F || (!wild && ((0x30 <= b && b <= 0x39) || (0x41 <= b && b <= 0x46) || (0x61 <= b
        && b <= 0x66)))
}

fn hex_byte(b: u8) -> (r: Option<u32>)
    ensures
        r == (if is_hex(b) {
            Some(hex_digit(b) as u32)
        } else {
            None
        }),
{
    if 0x30 <= b && b <= 0x39 {
        Some((b - 0x30) as u32)
    } else if 0x41 <= b && b <= 0x46 {
        Some((b - 0x41 + 10) as u32)
    } else if 0x61 <= b && b <= 0x66 {
        Some((b - 0x61 + 10) as u32)
    } else {
        None
    }
}

fn checked_pair(start: u32, end: u32, endpoint: usize) -> (r: Result<(u32, u32), RangeFault>)
    ensures
        r == checked(start as int, end as int, endpoint),
{
    match CssUnicodeRange::try_new(start, end) {
        Some(_) => Ok((start, end)),
        None => Err(RangeFault::At(endpoint)),
    }
}

/// Reads the range that the spelled bytes `s` denote.
pub fn read_spelled_range(s: &Vec<(u8, usize)>) -> (r: Result<(u32, u32), RangeFault>)
    ensures
        r == read_range(s@),
        r matches Err(RangeFault::At(o)) ==> exists|p: int| 0 <= p < s.len() && o == s@[p].1,
{
    let n = s.len();
    if n == 0 {
        return Err(RangeFault::Missing);
    }
    if s[0].0 != 0x2B {
        assert(s@[0].1 == s@[0].1);
        return Err(RangeFault::At(s[0].1));
    }
    if n == 1 {
        return Err(RangeFault::Missing);
    }
    let mut start: u32 = 0;
    let mut finish: u32 = 0;
    let mut wild = false;
    let mut i: usize = 1;
    while i < n && accepts(s[i].0, wild)
        invariant
            1 <= i <= n,
            2 <= n == s.len(),
            s@[0].0 == 0x2B,
            i - 1 <= 6,
            run_len(s@, 1, false) == (i - 1) + run_len(s@, i as int, wild),
            start == place_value(s@, 1, i as int, 0),
            finish == place_value(s@, 1, i as int, 15),
            start <= finish,
            !wild ==> finish == start,
            wild == (i > 1 && s@[i - 1].0 == 0x3F),
            finish < pow16((i - 1) as nat),
        decreases n - i,
    {
        if i - 1 == 6 {
            assert(run_len(s@, i as int, wild) >= 1);
            assert(s@[i as int].1 == s@[i as int].1);
            return Err(RangeFault::At(s[i].1));
        }
        proof {
            lemma_pow16_small((i - 1) as nat);
        }
        let b = s[i].0;
        if b == 0x3F {
            wild = true;
            start = start * 16;
            finish = finish * 16 + 15;
        } else {
            let d = match hex_byte(b) {
                Some(d) => d,
                None => 0,
            };
            start = start * 16 + d;
            finish = start;
        }
        i += 1;
    }
    assert(run_len(s@, i as int, wild) == 0);
    if i == 1 {
        assert(s@[1].1 == s@[1].1);
        return Err(RangeFault::At(s[1].1));
    }
    if wild {
        if n > i {
            assert(s@[i as int].1 == s@[i as int].1);
            return Err(RangeFault::At(s[i].1));
        }
        assert(s@[1].1 == s@[1].1);
        return checked_pair(start, finish, s[1].1);
    }
    if n == i {
        assert(s@[1].1 == s@[1].1);
        return checked_pair(start, start, s[1].1);
    }
    if s[i].0 != 0x2D {
        assert(s@[i as int].1 == s@[i as int].1);
        return Err(RangeFault::At(s[i].1));
    }
    if n == i + 1 {
        return Err(RangeFault::Missing);
    }
    let from = i + 1;
    let mut end: u32 = 0;
    let mut k = from;
    assert(read_range(s@) == match first_misfit(s@, from as int, from as int) {
        Some(j) => Err(RangeFault::At(s@[j].1)),
        None => checked(start as int, place_value(s@, from as int, n as int, 0), s@[from as int].1),
    });
    while k < n
        invariant
            from <= k <= n,
            n == s.len(),
            read_range(s@) == match first_misfit(s@, from as int, from as int) {
                Some(j) => Err(RangeFault::At(s@[j].1)),
                None => checked(start as int, place_value(s@, from as int, n as int, 0), s@[from as int].1),
            },
            k - from <= 6,
            first_misfit(s@, from as int, from as int) == first_misfit(s@, from as int, k as int),
            end == place_value(s@, from as int, k as int, 0),
            end < pow16((k - from) as nat),
        decreases n - k,
    {
        let b = s[k].0;
        let digit = hex_byte(b);
        if digit.is_none() || k - from == 6 {
            assert(s@[k as int].1 == s@[k as int].1);
            return Err(RangeFault::At(s[k].1));
        }
        proof {
            lemma_pow16_small((k - from) as nat);
        }
        let d = match digit {
            Some(d) => d,
            None => 0,
        };
        end = end * 16 + d;
        k += 1;
    }
    assert(s@[from as int].1 == s@[from as int].1);
    checked_pair(start, end, s[from].1)
}

/// Reads the range that the chosen tokens after `u` spell.
pub fn interpret(raw: &Vec<RangeToken>, kept: &Vec<usize>) -> (r: Result<(u32, u32), RangeFault>)
    requires
        forall|j: int| 0 <= j < kept.len() ==> kept[j] < raw.len(),
    ensures
        r == read_range(spelled(picked(raw@, kept@), kept.len() as int)),
        r matches Err(RangeFault::At(j)) ==> j < kept.len(),
{
    let s = spelled_bytes(raw, kept);
    read_spelled_range(&s)
}

fn to_stream_error(f: RangeFault, kept: &Vec<usize>, read: usize) -> (e: UnicodeRangeError)
    requires
        f matches RangeFault::At(j) ==> j < kept.len(),
    ensures
        e == stream_error(f, kept@, read),
{
    match f {
        RangeFault::Missing => UnicodeRangeError::Incomplete(read),
        RangeFault::At(j) => UnicodeRangeError::InvalidToken(kept[j]),
    }
}

/// Reads one `unicode-range` value from the token stream `raw`: the range and the
/// number of tokens read, or why there is none.
pub fn parse(raw: &Vec<RangeToken>) -> (r: Result<(CssUnicodeRange, usize), UnicodeRangeError>)
    ensures
        r == range_outcome(raw@),
        r matches Ok((range, read)) ==> range_fits(range.start as int, range.end as int)
            && read <= raw.len(),
{
    let (kept, read) = match gather_range_tokens(raw) {
        Err(i) => return Err(UnicodeRangeError::InvalidToken(i)),
        Ok(p) => p,
    };
    if let Err(f) = check_token_grammar(raw, &kept) {
        return Err(to_stream_error(f, &kept, read));
    }
    match interpret(raw, &kept) {
        Err(f) => Err(to_stream_error(f, &kept, read)),
        Ok((start, end)) => Ok((CssUnicodeRange { start, end }, read)),
    }
}

} // verus!
