//! Exact decimal scalars: lexical decimal metadata and exact signed rationals with
//! budgeted, lossless arithmetic and fixed-notation formatting.

use crate::bignum::{
    BigCoefficient, budget_charged, budget_error, budget_only, charge_only, decimal_len_of,
    digits_value, lemma_charge_when, lemma_pow10_add,
    lemma_pow10_monotonic, lemma_pow10_positive, limb_len, limbs_value, pow10,
    small_product_cost,
};
use crate::serialization::{
    CssSpecifiedValueSerializationError, CssSpecifiedValueSerializationErrorKind,
    SerializationResult, SpecifiedSerializationContext,
};
use crate::rational::{
    ExactFactor, ExactRational, arithmetic_error, failure, kind_error, pow_mod,
    scaled_denominator, scaled_numerator,
};
use vstd::arithmetic::div_mod::*;
use vstd::arithmetic::mul::*;
use vstd::arithmetic::power::*;
use vstd::prelude::*;
use vstd::string::StringSliceAdditionalSpecFns;

verus! {

pub open spec fn is_digit_byte(b: u8) -> bool {
    48 <= b <= 57
}

pub open spec fn is_nonzero_digit_byte(b: u8) -> bool {
    49 <= b <= 57
}

/// The digit values of the digit bytes of `t`, skipping decimal points.
pub open spec fn digit_values_of(t: Seq<u8>) -> Seq<u8>
    decreases t.len(),
{
    if t.len() == 0 {
        Seq::empty()
    } else if t[0] == 46 {
        digit_values_of(t.drop_first())
    } else {
        seq![(t[0] - 48) as u8] + digit_values_of(t.drop_first())
    }
}

/// The number of digit bytes (all but decimal points) in `t`.
pub open spec fn digit_count(t: Seq<u8>) -> nat {
    digit_values_of(t).len()
}

pub proof fn lemma_digits_value_cons(d: u8, r: Seq<u8>)
    ensures
        digits_value(seq![d] + r) == d * pow10(r.len()) + digits_value(r),
    decreases r.len(),
{
    if r.len() == 0 {
        assert(seq![d] + r =~= seq![d]);
        assert(seq![d].drop_last() =~= Seq::<u8>::empty());
        assert(pow10(0) == 1);
        assert(digits_value(Seq::<u8>::empty()) == 0);
        assert(digits_value(r) == 0);
        assert(digits_value(seq![d]) == digits_value(seq![d].drop_last()) * 10 + seq![d].last());
        assert(d * 1 == d);
    } else {
        let t = seq![d] + r;
        assert(t.drop_last() =~= seq![d] + r.drop_last());
        lemma_digits_value_cons(d, r.drop_last());
        assert(pow10(r.len()) == 10 * pow10((r.len() - 1) as nat));
        assert((d * pow10((r.len() - 1) as nat) + digits_value(r.drop_last())) * 10 + r.last()
            == d * pow10(r.len()) + (digits_value(r.drop_last()) * 10 + r.last()))
            by (nonlinear_arith)
            requires
                pow10(r.len()) == 10 * pow10((r.len() - 1) as nat),
        ;
    }
}

/// Replacing one digit changes the value by the difference at that digit's weight.
pub proof fn lemma_digits_value_update(s: Seq<u8>, i: int, x: u8)
    requires
        0 <= i < s.len(),
    ensures
        digits_value(s.update(i, x)) + s[i] * pow10((s.len() - 1 - i) as nat) == digits_value(s)
            + x * pow10((s.len() - 1 - i) as nat),
    decreases s.len(),
{
    let u = s.update(i, x);
    if i == s.len() - 1 {
        assert(u.drop_last() =~= s.drop_last());
        assert(pow10(0) == 1);
        assert(u.last() == x);
        assert(s.last() == s[i]);
        assert(digits_value(u) == digits_value(u.drop_last()) * 10 + u.last() as nat);
        assert(digits_value(s) == digits_value(s.drop_last()) * 10 + s.last() as nat);
        assert(((s.len() - 1 - i) as nat) == 0);
        lemma_mul_basics(s[i] as int);
        lemma_mul_basics(x as int);
    } else {
        assert(u.drop_last() =~= s.drop_last().update(i, x));
        lemma_digits_value_update(s.drop_last(), i, x);
        let k = (s.len() - 2 - i) as nat;
        assert(pow10((s.len() - 1 - i) as nat) == 10 * pow10(k));
        let a = digits_value(s.drop_last()) as int;
        let b = digits_value(u.drop_last()) as int;
        let p = pow10(k) as int;
        assert(b * 10 + s[i] * (10 * p) == a * 10 + x * (10 * p)) by (nonlinear_arith)
            requires
                b + s[i] * p == a + x * p,
        ;
    }
}

/// Digit values below ten read as a number below `10^len`.
pub proof fn lemma_digits_value_bound(s: Seq<u8>)
    requires
        crate::serialization::is_digit_values(s),
    ensures
        digits_value(s) < pow10(s.len()),
    decreases s.len(),
{
    if s.len() > 0 {
        let d = s.drop_last();
        assert(crate::serialization::is_digit_values(d)) by {
            assert forall|k: int| 0 <= k < d.len() implies #[trigger] d[k] < 10 by {
                assert(d[k] == s[k]);
            }
        }
        lemma_digits_value_bound(d);
        assert(s.last() < 10) by {
            assert(s[s.len() - 1] < 10);
        }
        let a = digits_value(d) as int;
        let p = pow10(d.len()) as int;
        assert(a * 10 + s.last() < 10 * p) by (nonlinear_arith)
            requires
                a < p,
                s.last() < 10,
        ;
    }
}

/// Leading zero digits add nothing to the value.
pub proof fn lemma_digits_value_leading_zeros(s: Seq<u8>, k: int)
    requires
        0 <= k <= s.len(),
        forall|j: int| 0 <= j < k ==> s[j] == 0,
    ensures
        digits_value(s.subrange(k, s.len() as int)) == digits_value(s),
    decreases k,
{
    if k == 0 {
        assert(s.subrange(0, s.len() as int) =~= s);
    } else {
        let r = s.subrange(1, s.len() as int);
        assert(s =~= seq![0u8] + r);
        lemma_digits_value_cons(0, r);
        assert(forall|j: int| 0 <= j < k - 1 ==> r[j] == s[j + 1]);
        lemma_digits_value_leading_zeros(r, k - 1);
        assert(r.subrange(k - 1, r.len() as int) =~= s.subrange(k, s.len() as int));
    }
}

/// The digit bytes of `t` from `i` on, read as values.
pub proof fn lemma_digit_values_step(t: Seq<u8>, i: int, e: int)
    requires
        0 <= i < e <= t.len(),
    ensures
        digit_values_of(t.subrange(i, e)) == if t[i] == 46 {
            digit_values_of(t.subrange(i + 1, e))
        } else {
            seq![(t[i] - 48) as u8] + digit_values_of(t.subrange(i + 1, e))
        },
{
    assert(t.subrange(i, e).drop_first() =~= t.subrange(i + 1, e));
}

/// Decimal `i128` syntax: an optional sign and at least one digit, within range.
pub open spec fn decimal_magnitude(t: Seq<u8>) -> nat {
    digits_value(digit_values_of(t))
}

pub open spec fn all_digit_bytes(t: Seq<u8>) -> bool {
    forall|i: int| 0 <= i < t.len() ==> is_digit_byte(#[trigger] t[i])
}

pub open spec fn parsed_integer(t: Seq<u8>) -> Option<int> {
    let signed = t.len() > 0 && (t[0] == 43 || t[0] == 45);
    let body = if signed {
        t.drop_first()
    } else {
        t
    };
    let value = if t.len() > 0 && t[0] == 45 {
        -decimal_magnitude(body)
    } else {
        decimal_magnitude(body) as int
    };
    if body.len() == 0 || !all_digit_bytes(body) || value < i128::MIN || value > i128::MAX {
        None
    } else {
        Some(value)
    }
}

/// `i128` parsing of ASCII decimal text.
pub fn parse_i128(t: &[u8]) -> (r: Option<i128>)
    ensures
        r matches Some(v) ==> parsed_integer(t@) == Some(v as int),
        r is None ==> parsed_integer(t@) is None,
{
    let n = t.len();
    if n == 0 {
        return None;
    }
    let negative = t[0] == 45u8;
    let start: usize = if t[0] == 43u8 || t[0] == 45u8 {
        1
    } else {
        0
    };
    if start == n {
        proof {
            assert(t@.drop_first().len() == 0);
        }
        return None;
    }
    let ghost body = t@.subrange(start as int, n as int);
    proof {
        if start == 1 {
            assert(body =~= t@.drop_first());
        } else {
            assert(body =~= t@);
        }
    }
    // Accumulate toward the sign so that i128::MIN is representable.
    let mut value: i128 = 0;
    let mut i: usize = start;
    proof {
        assert(t@.subrange(start as int, start as int) =~= Seq::<u8>::empty());
        assert(digit_values_of(Seq::<u8>::empty()) =~= Seq::<u8>::empty());
    }
    while i < n
        invariant
            start <= i <= n,
            n == t@.len(),
            n > 0,
            start == (if t@[0] == 43 || t@[0] == 45 {
                1int
            } else {
                0int
            }),
            negative == (t@[0] == 45),
            start == 1 ==> body == t@.drop_first(),
            start == 0 ==> body == t@,
            body == t@.subrange(start as int, n as int),
            all_digit_bytes(t@.subrange(start as int, i as int)),
            digit_values_of(t@.subrange(start as int, i as int)).len() == i - start,
            value == (if negative {
                -decimal_magnitude(t@.subrange(start as int, i as int))
            } else {
                decimal_magnitude(t@.subrange(start as int, i as int)) as int
            }),
        decreases n - i,
    {
        let b = t[i];
        if b < 48u8 || b > 57u8 {
            proof {
                assert(body[i - start] == t@[i as int]);
                assert(!is_digit_byte(body[i - start]));
                assert(!all_digit_bytes(body));
                let signed = t@.len() > 0 && (t@[0] == 43 || t@[0] == 45);
                let body2 = if signed {
                    t@.drop_first()
                } else {
                    t@
                };
                assert(body2 =~= body);
                assert(parsed_integer(t@) is None);
            }
            return None;
        }
        let d = (b - 48u8) as i128;
        proof {
            lemma_digit_values_append(t@, start as int, i as int);
            let pre = t@.subrange(start as int, i as int);
            let pre1 = t@.subrange(start as int, i + 1);
            assert(digit_values_of(pre1).drop_last() =~= digit_values_of(pre));
            assert(decimal_magnitude(pre1) == decimal_magnitude(pre) * 10 + d);
            assert(all_digit_bytes(pre1)) by {
                assert forall|k: int| 0 <= k < pre1.len() implies is_digit_byte(#[trigger] pre1[k]) by {
                    if k < pre.len() {
                        assert(pre1[k] == pre[k]);
                    }
                }
            }
            lemma_magnitude_grows(t@, start as int, i + 1, n as int);
            assert(t@.subrange(start as int, n as int) == body);
        }
        let shifted = match value.checked_mul(10) {
            Some(v) => v,
            None => {
                return None;
            },
        };
        let next = if negative {
            shifted.checked_sub(d)
        } else {
            shifted.checked_add(d)
        };
        match next {
            Some(v) => {
                value = v;
            },
            None => {
                return None;
            },
        }
        i = i + 1;
    }
    proof {
        assert(t@.subrange(start as int, n as int) =~= body);
    }
    Some(value)
}

/// Appending a digit byte appends its value.
pub proof fn lemma_digit_values_append(t: Seq<u8>, s: int, i: int)
    requires
        0 <= s <= i < t.len(),
        t[i] != 46,
    ensures
        digit_values_of(t.subrange(s, i + 1)) == digit_values_of(t.subrange(s, i)).push(
            (t[i] - 48) as u8,
        ),
    decreases i - s,
{
    if s == i {
        assert(t.subrange(s, i + 1) =~= seq![t[i]]);
        assert(t.subrange(s, i) =~= Seq::<u8>::empty());
        assert(seq![t[i]].drop_first() =~= Seq::<u8>::empty());
        assert(digit_values_of(Seq::<u8>::empty()) =~= Seq::<u8>::empty());
        assert(digit_values_of(seq![t[i]]) =~= seq![(t[i] - 48) as u8]);
    } else {
        lemma_digit_values_append(t, s + 1, i);
        lemma_digit_values_step(t, s, i + 1);
        lemma_digit_values_step(t, s, i);
        if t[s] != 46 {
            assert(seq![(t[s] - 48) as u8] + digit_values_of(t.subrange(s + 1, i)).push(
                (t[i] - 48) as u8,
            ) =~= (seq![(t[s] - 48) as u8] + digit_values_of(t.subrange(s + 1, i))).push(
                (t[i] - 48) as u8,
            ));
        }
    }
}

/// A digit prefix whose value already overflows keeps overflowing.
pub proof fn lemma_magnitude_grows(t: Seq<u8>, s: int, i: int, n: int)
    requires
        0 <= s <= i <= n == t.len(),
        all_digit_bytes(t.subrange(s, i)),
    ensures
        all_digit_bytes(t.subrange(s, n)) ==> decimal_magnitude(t.subrange(s, n))
            >= decimal_magnitude(t.subrange(s, i)),
    decreases n - i,
{
    if i < n && all_digit_bytes(t.subrange(s, n)) {
        assert(is_digit_byte(t.subrange(s, n)[i - s]));
        lemma_digit_values_append(t, s, i);
        assert(all_digit_bytes(t.subrange(s, i + 1))) by {
            assert forall|k: int| 0 <= k < i + 1 - s implies is_digit_byte(
                #[trigger] t.subrange(s, i + 1)[k],
            ) by {
                assert(t.subrange(s, i + 1)[k] == t.subrange(s, n)[k]);
            }
        }
        lemma_magnitude_grows(t, s, i + 1, n);
        let r = digit_values_of(t.subrange(s, i + 1));
        assert(r.drop_last() =~= digit_values_of(t.subrange(s, i)));
    } else if i == n {
    }
}


/// `d × 10^e <= 100`.
pub open spec fn at_most_hundred(d: nat, e: int) -> bool {
    if e >= 0 {
        d * pow10(e as nat) <= 100
    } else {
        d <= 100 * pow10((-e) as nat)
    }
}

/// Digits with a nonzero first and last digit lie in `[10^(len-1), 10^len)`, and are
/// a power of ten only when there is a single digit.
pub proof fn lemma_significand_range(ds: Seq<u8>)
    requires
        crate::serialization::is_digit_values(ds),
        ds.len() > 0,
        ds[0] != 0,
        ds.last() != 0,
    ensures
        pow10((ds.len() - 1) as nat) <= digits_value(ds) < pow10(ds.len()),
        digits_value(ds) == pow10((ds.len() - 1) as nat) ==> ds.len() == 1 && ds[0] == 1,
{
    lemma_digits_value_bound(ds);
    let r = ds.drop_first();
    assert(ds =~= seq![ds[0]] + r);
    lemma_digits_value_cons(ds[0], r);
    let p = pow10(r.len()) as int;
    lemma_pow10_positive(r.len());
    assert(ds[0] * p >= p) by (nonlinear_arith)
        requires
            ds[0] >= 1,
            p >= 1,
    ;
    if digits_value(ds) == pow10((ds.len() - 1) as nat) {
        if ds.len() > 1 {
            let k = (ds.len() - 2) as nat;
            assert(pow10((ds.len() - 1) as nat) == 10 * pow10(k));
            assert(digits_value(ds) == digits_value(ds.drop_last()) * 10 + ds.last());
            let q = digits_value(ds.drop_last()) as int;
            let w = pow10(k) as int;
            assert(ds.last() < 10) by {
                assert(ds[ds.len() - 1] < 10);
            }
            assert(false) by (nonlinear_arith)
                requires
                    q * 10 + ds.last() == 10 * w,
                    1 <= ds.last() < 10,
            ;
        } else {
            assert(r.len() == 0);
            assert(digits_value(r) == 0);
            assert(pow10(0) == 1);
            assert(ds[0] * 1 == ds[0]);
        }
    }
}

/// Position of the first exponent marker (`e` or `E`) at or after `i`, or the end.
pub open spec fn exponent_mark_from(t: Seq<u8>, i: int) -> int
    decreases t.len() - i,
{
    if i >= t.len() {
        t.len() as int
    } else if t[i] == 101 || t[i] == 69 {
        i
    } else {
        exponent_mark_from(t, i + 1)
    }
}

pub open spec fn sign_len(t: Seq<u8>) -> int {
    if t.len() > 0 && (t[0] == 43 || t[0] == 45) {
        1
    } else {
        0
    }
}

/// End of the mantissa: the exponent marker, or the end of the text.
pub open spec fn mantissa_end(t: Seq<u8>) -> int {
    exponent_mark_from(t, sign_len(t))
}

/// An optional sign followed by at least one digit.
pub open spec fn integer_syntax(e: Seq<u8>) -> bool {
    let body = if e.len() > 0 && (e[0] == 43 || e[0] == 45) {
        e.drop_first()
    } else {
        e
    };
    body.len() > 0 && all_digit_bytes(body)
}

/// The representation of a checked numeric token: an optional sign, a mantissa of
/// digits and decimal points, and an optional exponent with an optional sign.
pub open spec fn numeric_syntax(t: Seq<u8>) -> bool {
    let m = mantissa_end(t);
    &&& forall|i: int| sign_len(t) <= i < m ==> is_digit_byte(#[trigger] t[i]) || t[i] == 46
    &&& m < t.len() ==> integer_syntax(t.subrange(m + 1, t.len() as int))
}

/// First nonzero digit byte in `[i, end)`, or `end`.
pub open spec fn first_nonzero_from(t: Seq<u8>, i: int, end: int) -> int
    decreases end - i,
{
    if i >= end {
        end
    } else if is_nonzero_digit_byte(t[i]) {
        i
    } else {
        first_nonzero_from(t, i + 1, end)
    }
}

/// Last nonzero digit byte in `[lo, j)`, or `lo - 1`.
pub open spec fn last_nonzero_before(t: Seq<u8>, lo: int, j: int) -> int
    decreases j - lo,
{
    if j <= lo {
        lo - 1
    } else if is_nonzero_digit_byte(t[j - 1]) {
        j - 1
    } else {
        last_nonzero_before(t, lo, j - 1)
    }
}

/// First decimal point in `[i, end)`, or `end`.
pub open spec fn point_from(t: Seq<u8>, i: int, end: int) -> int
    decreases end - i,
{
    if i >= end {
        end
    } else if t[i] == 46 {
        i
    } else {
        point_from(t, i + 1, end)
    }
}

pub open spec fn significant_first(t: Seq<u8>) -> int {
    first_nonzero_from(t, sign_len(t), mantissa_end(t))
}

pub open spec fn significant_last(t: Seq<u8>) -> int {
    last_nonzero_before(t, significant_first(t), mantissa_end(t))
}

/// Whether the mantissa holds a nonzero digit.
pub open spec fn has_significant(t: Seq<u8>) -> bool {
    significant_first(t) < mantissa_end(t)
}

/// The digits from the first to the last nonzero mantissa digit.
pub open spec fn significant_digits(t: Seq<u8>) -> Seq<u8> {
    if has_significant(t) {
        digit_values_of(t.subrange(significant_first(t), significant_last(t) + 1))
    } else {
        Seq::empty()
    }
}

/// Digits written after the decimal point.
pub open spec fn fraction_len(t: Seq<u8>) -> int {
    let p = point_from(t, sign_len(t), mantissa_end(t));
    if p < mantissa_end(t) {
        mantissa_end(t) - p - 1
    } else {
        0
    }
}

/// Zero digits after the last nonzero mantissa digit.
pub open spec fn trailing_zero_count(t: Seq<u8>) -> int {
    digit_count(t.subrange(significant_last(t) + 1, mantissa_end(t))) as int
}

/// The exponent shift from the significant digits to the written exponent.
pub open spec fn exponent_adjustment_of(t: Seq<u8>) -> int {
    trailing_zero_count(t) - fraction_len(t)
}

/// The written exponent, zero when none is written; `None` outside `i128`.
pub open spec fn written_exponent(t: Seq<u8>) -> Option<int> {
    let m = mantissa_end(t);
    if m < t.len() {
        parsed_integer(t.subrange(m + 1, t.len() as int))
    } else {
        Some(0)
    }
}

pub open spec fn exponent_is_negative(t: Seq<u8>) -> bool {
    let m = mantissa_end(t);
    m + 1 < t.len() && t[m + 1] == 45
}

/// Start of the written exponent's digits, after its sign.
pub open spec fn exponent_body_start(t: Seq<u8>) -> int {
    let m = mantissa_end(t);
    if m < t.len() {
        if m + 1 < t.len() && (t[m + 1] == 43 || t[m + 1] == 45) {
            m + 2
        } else {
            m + 1
        }
    } else {
        t.len() as int
    }
}

/// The magnitude of the written exponent, however large.
pub open spec fn exponent_magnitude(t: Seq<u8>) -> nat {
    decimal_magnitude(t.subrange(exponent_body_start(t), t.len() as int))
}

/// The decimal exponent of the last significant digit, when it fits in `i128`.
pub open spec fn lexical_exponent(t: Seq<u8>) -> Option<i128> {
    match written_exponent(t) {
        Some(e) => {
            let x = e + exponent_adjustment_of(t);
            if i128::MIN <= x <= i128::MAX {
                Some(x as i128)
            } else {
                None
            }
        },
        None => None,
    }
}

/// Normalized borrowed metadata for a checked finite decimal token: its significant
/// digits (nonzero first and last digit), their count and the decimal exponent of the
/// last one. The coefficient stays in the source text.
pub struct LexicalDecimal<'a> {
    pub text: &'a [u8],
    pub significant_start: usize,
    pub significant_end: usize,
    pub len: usize,
    pub exponent: Option<i128>,
    pub negative: bool,
    pub exponent_negative: bool,
    pub exponent_digits_start: usize,
    pub exponent_adjustment: i128,
}

/// The end of the mantissa that starts after the sign.
fn mantissa_end_of(text: &[u8]) -> (mark: usize)
    ensures
        mark as int == mantissa_end(text@),
        sign_len(text@) <= mark <= text@.len(),
{
    let n = text.len();
    let start: usize = if n > 0 && (text[0] == 43u8 || text[0] == 45u8) {
        1
    } else {
        0
    };
    let mut mark = start;
    while mark < n && text[mark] != 101u8 && text[mark] != 69u8
        invariant
            start <= mark <= n,
            n == text@.len(),
            start == sign_len(text@),
            exponent_mark_from(text@, start as int) == exponent_mark_from(text@, mark as int),
        decreases n - mark,
    {
        mark = mark + 1;
    }
    mark
}


/// Whether a text is the representation of a numeric token: an optional sign, digits
/// and decimal points, and an optional exponent of an optional sign and digits.
pub fn is_numeric_syntax(text: &str) -> (r: bool)
    ensures
        r == numeric_syntax(text.spec_bytes()),
{
    let bytes = text.as_bytes();
    let ghost t = bytes@;
    let n = bytes.len();
    let mark = mantissa_end_of(bytes);
    let start: usize = if n > 0 && (bytes[0] == 43u8 || bytes[0] == 45u8) {
        1
    } else {
        0
    };
    let mut i = start;
    while i < mark
        invariant
            start <= i <= mark <= n,
            n == t.len(),
            t == bytes@,
            t == text.spec_bytes(),
            start == sign_len(t),
            mark == mantissa_end(t),
            forall|k: int| start <= k < i ==> is_digit_byte(#[trigger] t[k]) || t[k] == 46,
        decreases mark - i,
    {
        if !((bytes[i] >= 48u8 && bytes[i] <= 57u8) || bytes[i] == 46u8) {
            proof {
                assert(!(is_digit_byte(t[i as int]) || t[i as int] == 46));
            }
            return false;
        }
        i = i + 1;
    }
    if mark == n {
        return true;
    }
    let ghost e = t.subrange(mark + 1, n as int);
    let mut j = mark + 1;
    if j < n && (bytes[j] == 43u8 || bytes[j] == 45u8) {
        j = j + 1;
    }
    let body_start = j;
    if body_start == n {
        proof {
            if e.len() > 0 && (e[0] == 43 || e[0] == 45) {
                assert(e.drop_first().len() == 0);
            }
        }
        return false;
    }
    while j < n
        invariant
            body_start <= j <= n,
            n == t.len(),
            t == bytes@,
            t == text.spec_bytes(),
            mark < n,
            mark == mantissa_end(t),
            e == t.subrange(mark + 1, n as int),
            body_start == if e.len() > 0 && (e[0] == 43 || e[0] == 45) {
                mark + 2
            } else {
                mark + 1
            },
            forall|k: int| body_start <= k < j ==> is_digit_byte(#[trigger] t[k]),
        decreases n - j,
    {
        if !(bytes[j] >= 48u8 && bytes[j] <= 57u8) {
            proof {
                let body = if e.len() > 0 && (e[0] == 43 || e[0] == 45) {
                    e.drop_first()
                } else {
                    e
                };
                assert(body[j - body_start] == t[j as int]);
                assert(!is_digit_byte(body[j - body_start]));
                assert(!integer_syntax(e));
            }
            return false;
        }
        j = j + 1;
    }
    proof {
        let body = if e.len() > 0 && (e[0] == 43 || e[0] == 45) {
            e.drop_first()
        } else {
            e
        };
        assert(body =~= t.subrange(body_start as int, n as int));
        assert(all_digit_bytes(body)) by {
            assert forall|k: int| 0 <= k < body.len() implies is_digit_byte(#[trigger] body[k]) by {
                assert(body[k] == t[body_start + k]);
            }
        }
    }
    true
}

/// The position after the zero digits that start at `i`.
pub open spec fn skip_zero_bytes(t: Seq<u8>, i: int) -> int
    decreases t.len() - i,
{
    if 0 <= i < t.len() && t[i] == 48 {
        skip_zero_bytes(t, i + 1)
    } else {
        i
    }
}

/// Where the written exponent's digits start once its sign and leading zeros are
/// skipped.
pub open spec fn exponent_digits_start_of(t: Seq<u8>) -> int {
    skip_zero_bytes(t, exponent_body_start(t))
}

/// Where the written exponent's digits start once its sign and leading zeros are skipped.
fn exponent_digits_from(text: &[u8], mark: usize) -> (start: usize)
    requires
        mark as int == mantissa_end(text@),
        numeric_syntax(text@),
    ensures
        start <= text@.len(),
        start as int == exponent_digits_start_of(text@),
        start as int >= exponent_body_start(text@),
        all_digit_bytes(text@.subrange(start as int, text@.len() as int)),
        digits_value(digit_values_of(text@.subrange(start as int, text@.len() as int)))
            == exponent_magnitude(text@),
        digit_values_of(text@.subrange(start as int, text@.len() as int)).len() <= text@.len(),
{
    let n = text.len();
    let mut digits_start: usize = if mark < n {
        mark + 1
    } else {
        n
    };
    if digits_start < n && (text[digits_start] == 43u8 || text[digits_start] == 45u8) {
        digits_start = digits_start + 1;
    }
    let ghost body_start = digits_start as int;
    proof {
        assert(body_start == exponent_body_start(text@));
        if mark < n {
            let e = text@.subrange(mark + 1, n as int);
            let body = if e.len() > 0 && (e[0] == 43 || e[0] == 45) {
                e.drop_first()
            } else {
                e
            };
            assert(body =~= text@.subrange(body_start, n as int));
        } else {
            assert(text@.subrange(body_start, n as int) =~= Seq::<u8>::empty());
        }
    }
    while digits_start < n && text[digits_start] == 48u8
        invariant
            body_start <= digits_start <= n,
            n == text@.len(),
            all_digit_bytes(text@.subrange(body_start, n as int)),
            decimal_magnitude(text@.subrange(digits_start as int, n as int)) == decimal_magnitude(
                text@.subrange(body_start, n as int),
            ),
            skip_zero_bytes(text@, body_start) == skip_zero_bytes(text@, digits_start as int),
        decreases n - digits_start,
    {
        proof {
            lemma_digit_values_step(text@, digits_start as int, n as int);
            lemma_digits_value_cons(0u8, digit_values_of(text@.subrange(digits_start + 1, n as int)));
        }
        digits_start = digits_start + 1;
    }
    proof {
        assert forall|k: int| 0 <= k < n - digits_start implies is_digit_byte(
            #[trigger] text@.subrange(digits_start as int, n as int)[k],
        ) by {
            assert(text@.subrange(digits_start as int, n as int)[k] == text@.subrange(
                body_start,
                n as int,
            )[k + digits_start - body_start]);
        }
        lemma_digit_count_bound(text@.subrange(digits_start as int, n as int));
    }
    digits_start
}

/// The first nonzero digit of the mantissa, or the mantissa end.
fn significant_first_of(text: &[u8], mark: usize) -> (first: usize)
    requires
        mark as int == mantissa_end(text@),
        sign_len(text@) <= mark <= text@.len(),
    ensures
        first as int == significant_first(text@),
        sign_len(text@) <= first <= mark,
        first < mark ==> is_nonzero_digit_byte(text@[first as int]),
{
    let n = text.len();
    let start: usize = if n > 0 && (text[0] == 43u8 || text[0] == 45u8) {
        1
    } else {
        0
    };
    let mut first = start;
    while first < mark && !(text[first] >= 49u8 && text[first] <= 57u8)
        invariant
            start <= first <= mark <= n,
            n == text@.len(),
            first_nonzero_from(text@, start as int, mark as int) == first_nonzero_from(
                text@,
                first as int,
                mark as int,
            ),
        decreases mark - first,
    {
        first = first + 1;
    }
    first
}

/// The last nonzero digit of the mantissa, when the first one is at `first`.
fn significant_last_of(text: &[u8], first: usize, mark: usize) -> (last: usize)
    requires
        first < mark <= text@.len(),
        is_nonzero_digit_byte(text@[first as int]),
    ensures
        last as int == last_nonzero_before(text@, first as int, mark as int),
        first <= last < mark,
        is_nonzero_digit_byte(text@[last as int]),
{
    let mut last = mark - 1;
    while !(text[last] >= 49u8 && text[last] <= 57u8)
        invariant
            first <= last < mark <= text@.len(),
            is_nonzero_digit_byte(text@[first as int]),
            last_nonzero_before(text@, first as int, mark as int) == last_nonzero_before(
                text@,
                first as int,
                last + 1,
            ),
        decreases last,
    {
        last = last - 1;
    }
    last
}

/// The number of digit bytes in `[from, to)`.
fn count_digit_bytes(text: &[u8], from: usize, to: usize) -> (count: usize)
    requires
        from <= to <= text@.len(),
        forall|k: int| from <= k < to ==> is_digit_byte(#[trigger] text@[k]) || text@[k] == 46,
    ensures
        count == digit_count(text@.subrange(from as int, to as int)),
        crate::serialization::is_digit_values(digit_values_of(text@.subrange(from as int, to as int))),
        count <= to - from,
{
    let mut count: usize = 0;
    let mut j = from;
    proof {
        assert(text@.subrange(from as int, from as int) =~= Seq::<u8>::empty());
        assert(digit_values_of(Seq::<u8>::empty()) =~= Seq::<u8>::empty());
    }
    while j < to
        invariant
            from <= j <= to <= text@.len(),
            forall|k: int| from <= k < to ==> is_digit_byte(#[trigger] text@[k]) || text@[k] == 46,
            count == digit_count(text@.subrange(from as int, j as int)),
            crate::serialization::is_digit_values(
                digit_values_of(text@.subrange(from as int, j as int)),
            ),
            count <= j - from,
        decreases to - j,
    {
        if text[j] != 46u8 {
            proof {
                lemma_digit_values_append(text@, from as int, j as int);
                assert(is_digit_byte(text@[j as int]));
            }
            count = count + 1;
        } else {
            proof {
                lemma_digit_values_point(text@, from as int, j as int);
            }
        }
        j = j + 1;
    }
    count
}

/// The number of digits after the first decimal point of the mantissa.
fn fraction_len_of(text: &[u8], mark: usize) -> (fractional: usize)
    requires
        mark as int == mantissa_end(text@),
        sign_len(text@) <= mark <= text@.len(),
    ensures
        fractional as int == fraction_len(text@),
{
    let n = text.len();
    let start: usize = if n > 0 && (text[0] == 43u8 || text[0] == 45u8) {
        1
    } else {
        0
    };
    let mut point = start;
    while point < mark && text[point] != 46u8
        invariant
            start <= point <= mark <= n,
            n == text@.len(),
            point_from(text@, start as int, mark as int) == point_from(
                text@,
                point as int,
                mark as int,
            ),
        decreases mark - point,
    {
        point = point + 1;
    }
    if point < mark {
        mark - point - 1
    } else {
        0
    }
}

impl<'a> LexicalDecimal<'a> {
    /// The significant digit values, most significant first.
    pub open spec fn digits(&self) -> Seq<u8> {
        digit_values_of(
            self.text@.subrange(self.significant_start as int, self.significant_end as int),
        )
    }

    /// The written exponent's digit values without sign or leading zeros.
    pub open spec fn exponent_digits(&self) -> Seq<u8> {
        digit_values_of(self.text@.subrange(self.exponent_digits_start as int, self.text@.len() as int))
    }

    pub open spec fn wf(&self) -> bool {
        &&& self.significant_start <= self.significant_end <= self.text@.len()
        &&& self.exponent_digits_start <= self.text@.len()
        &&& self.len == self.digits().len()
        &&& crate::serialization::is_digit_values(self.digits())
        &&& self.len > 0 ==> self.digits()[0] != 0 && self.digits().last() != 0
        &&& forall|k: int|
            self.significant_start <= k < self.significant_end ==> is_digit_byte(
                #[trigger] self.text@[k],
            ) || self.text@[k] == 46
        &&& all_digit_bytes(
            self.text@.subrange(self.exponent_digits_start as int, self.text@.len() as int),
        )
        &&& self.exponent_digits().len() <= self.text@.len()
    }

    /// Reads the decimal metadata of a checked numeric representation.
    pub fn new(text: &'a [u8]) -> (r: Self)
        requires
            numeric_syntax(text@),
        ensures
            r.wf(),
            r.text@ == text@,
            r.digits() == significant_digits(text@),
            digits_value(r.exponent_digits()) == exponent_magnitude(text@),
            r.exponent_digits_start as int == exponent_digits_start_of(text@),
            exponent_digits_start_of(text@) >= exponent_body_start(text@),
            r.exponent_adjustment >= -(usize::MAX as int),
            !has_significant(text@) ==> r.len == 0 && r.exponent == Some(0i128) && !r.negative
                && !r.exponent_negative && r.exponent_adjustment == 0,
            has_significant(text@) ==> {
                &&& r.len > 0
                &&& r.negative == (text@[0] == 45)
                &&& r.exponent_negative == exponent_is_negative(text@)
                &&& r.exponent_adjustment == exponent_adjustment_of(text@)
                &&& r.exponent == lexical_exponent(text@)
            },
    {
        let n = text.len();
        let mark = mantissa_end_of(text);
        let exponent_negative_text = mark < n && mark + 1 < n && text[mark + 1] == 45u8;
        let digits_start = exponent_digits_from(text, mark);
        let first = significant_first_of(text, mark);
        if first == mark {
            proof {
                assert(text@.subrange(0, 0) =~= Seq::<u8>::empty());
                assert(digit_values_of(Seq::<u8>::empty()) =~= Seq::<u8>::empty());
            }
            return Self {
                text,
                significant_start: 0,
                significant_end: 0,
                len: 0,
                exponent: Some(0),
                negative: false,
                exponent_negative: false,
                exponent_digits_start: digits_start,
                exponent_adjustment: 0,
            };
        }
        let last = significant_last_of(text, first, mark);
        let len = count_digit_bytes(text, first, last + 1);
        let fractional = fraction_len_of(text, mark);
        let trailing = count_digit_bytes(text, last + 1, mark);
        let adjustment: i128 = (trailing as i128) - (fractional as i128);
        let parsed = if mark < n {
            parse_i128(vstd::slice::slice_subrange(text, mark + 1, n))
        } else {
            Some(0i128)
        };
        let exponent = match parsed {
            Some(e) => e.checked_add(adjustment),
            None => None,
        };
        proof {
            lemma_digit_values_step(text@, first as int, last + 1);
            lemma_digit_values_last(text@, first as int, last as int);
        }
        Self {
            text,
            significant_start: first,
            significant_end: last + 1,
            len,
            exponent,
            negative: n > 0 && text[0] == 45u8,
            exponent_negative: exponent_negative_text,
            exponent_digits_start: digits_start,
            exponent_adjustment: adjustment,
        }
    }
}


impl BigCoefficient {
    /// The significant digits of a lexical decimal as an integer; its limbs are charged
    /// to the projection budget before they are built.
    pub fn from_lexical(value: &LexicalDecimal, context: &mut SpecifiedSerializationContext) -> (r:
        SerializationResult<Self>)
        requires
            value.wf(),
            old(context).wf(),
        ensures
            value.len == 0 ==> r is Ok && *final(context) == *old(context),
            value.len > 0 && value.len + 8 <= usize::MAX ==> charge_only(
                r,
                *old(context),
                *final(context),
                (value.len + 8) / 9,
            ),
            value.len + 8 > usize::MAX ==> kind_error(
                r,
                CssSpecifiedValueSerializationErrorKind::CapacityOverflow,
            ) && *final(context) == *old(context),
            r matches Ok(b) ==> b.wf() && b.value() == digits_value(value.digits()),
    {
        if value.len == 0 {
            proof {
                assert(value.digits().len() == 0);
            }
            return Ok(Self::zero());
        }
        let limb_count = match crate::bignum::limb_count_for_digits(value.len) {
            Some(n) => n,
            None => {
                return Err(
                    CssSpecifiedValueSerializationError::new(
                        CssSpecifiedValueSerializationErrorKind::CapacityOverflow,
                    ),
                );
            },
        };
        context.charge_projection(limb_count)?;
        let text = value.text;
        let start = value.significant_start;
        let mut j = value.significant_end;
        let mut limbs: Vec<u32> = Vec::new();
        let mut limb: u32 = 0;
        let mut place: u32 = 1;
        let mut count: usize = 0;
        let ghost t = text@;
        proof {
            assert(t.subrange(j as int, j as int) =~= Seq::<u8>::empty());
            assert(digit_values_of(Seq::<u8>::empty()) =~= Seq::<u8>::empty());
            crate::bignum::lemma_pow_base_is_pow10(0);
            reveal_with_fuel(pow10, 1);
        }
        while j > start
            invariant
                start <= j <= value.significant_end <= t.len(),
                t == text@,
                value.wf(),
                value.text@ == t,
                start == value.significant_start,
                count < 9,
                place as nat == pow10(count as nat),
                limb < place,
                crate::bignum::limbs_bounded(limbs@),
                digit_values_of(t.subrange(j as int, value.significant_end as int)).len() == 9
                    * limbs@.len() + count,
                limbs_value(limbs@) + crate::bignum::pow_base(limbs@.len()) * limb == digits_value(
                    digit_values_of(t.subrange(j as int, value.significant_end as int)),
                ),
                forall|k: int|
                    start <= k < value.significant_end ==> is_digit_byte(#[trigger] t[k]) || t[k]
                        == 46,
            decreases j,
        {
            j = j - 1;
            proof {
                lemma_digit_values_step(t, j as int, value.significant_end as int);
            }
            if text[j] != 46u8 {
                let d = (text[j] - 48u8) as u32;
                let ghost suffix = digit_values_of(t.subrange(j + 1, value.significant_end as int));
                proof {
                    lemma_digits_value_cons(d as u8, suffix);
                    crate::bignum::lemma_pow_base_is_pow10(limbs@.len() as nat);
                    lemma_pow10_add(9 * limbs@.len() as nat, count as nat);
                    assert(d * place <= 9 * place) by (nonlinear_arith)
                        requires
                            d <= 9,
                    ;
                    assert(place <= 100000000) by {
                        crate::bignum::lemma_pow10_monotonic(count as nat, 8);
                        reveal_with_fuel(pow10, 9);
                    }
                    assert(crate::bignum::pow_base(limbs@.len()) * (limb + d * place)
                        == crate::bignum::pow_base(limbs@.len()) * limb + d * (pow10(
                        9 * limbs@.len() as nat,
                    ) * place)) by (nonlinear_arith)
                        requires
                            crate::bignum::pow_base(limbs@.len()) == pow10(9 * limbs@.len() as nat),
                    ;
                }
                limb = limb + d * place;
                count = count + 1;
                if count == 9 {
                    proof {
                        crate::bignum::lemma_limbs_push(limbs@, limb);
                        assert(limb < 1000000000) by {
                            reveal_with_fuel(pow10, 10);
                        }
                    }
                    let ghost prev = limbs@;
                    let ghost full = limb;
                    limbs.push(limb);
                    limb = 0;
                    place = 1;
                    count = 0;
                    proof {
                        assert(limbs@ == prev.push(full));
                        lemma_mul_is_commutative(
                            full as int,
                            crate::bignum::pow_base(prev.len()) as int,
                        );
                        reveal_with_fuel(pow10, 1);
                        assert(crate::bignum::limbs_bounded(limbs@)) by {
                            assert(limbs@.last() < crate::bignum::base()) by {
                                reveal_with_fuel(pow10, 10);
                            }
                        }
                        lemma_mul_basics(crate::bignum::pow_base(limbs@.len()) as int);
                    }
                } else {
                    proof {
                        assert(pow10((count) as nat) == 10 * pow10((count - 1) as nat));
                        assert(limb < place * 10) by (nonlinear_arith)
                            requires
                                limb == (limb - d * place) + d * place,
                                limb - d * place < place,
                                d <= 9,
                        ;
                        assert(place * 10 <= 1000000000) by (nonlinear_arith)
                            requires
                                place <= 100000000,
                        ;
                    }
                    place = place * 10;
                }
            } else {
                proof {
                    assert(digit_values_of(t.subrange(j as int, value.significant_end as int))
                        == digit_values_of(t.subrange(j + 1, value.significant_end as int)));
                }
            }
        }
        if count != 0 {
            proof {
                crate::bignum::lemma_limbs_push(limbs@, limb);
                lemma_mul_is_commutative(limb as int, crate::bignum::pow_base(limbs@.len()) as int);
                assert(limb < 1000000000) by {
                    crate::bignum::lemma_pow10_monotonic(count as nat, 9);
                    reveal_with_fuel(pow10, 10);
                }
            }
            limbs.push(limb);
        } else {
            proof {
                assert(pow10(0) == 1);
                assert(limb == 0);
                lemma_mul_basics(crate::bignum::pow_base(limbs@.len()) as int);
            }
        }
        proof {
            assert(t.subrange(start as int, value.significant_end as int) == t.subrange(
                value.significant_start as int,
                value.significant_end as int,
            ));
        }
        let mut result = Self { limbs };
        result.normalize();
        Ok(result)
    }
}


/// The signed coefficient an authored token contributes after scaling by `numerator`.
pub open spec fn lexical_signed(t: Seq<u8>, numerator: nat) -> int {
    let c = digits_value(significant_digits(t)) * numerator;
    if has_significant(t) && t[0] == 45 {
        -(c as int)
    } else {
        c as int
    }
}

/// The decimal exponent an authored token contributes (zero for a zero mantissa).
pub open spec fn lexical_exponent_or_zero(t: Seq<u8>) -> int {
    if has_significant(t) {
        match lexical_exponent(t) {
            Some(e) => e as int,
            None => 0,
        }
    } else {
        0
    }
}

/// Whether the token's exponent, adjusted to its last significant digit, fits in `i128`.
pub open spec fn lexical_exponent_fits(t: Seq<u8>) -> bool {
    !has_significant(t) || lexical_exponent(t) is Some
}

/// What reading an authored decimal token times `numerator` charges: the limbs of its
/// significant digits, then the product's limbs.
pub open spec fn lexical_cost(t: Seq<u8>, numerator: nat) -> int {
    let n = significant_digits(t).len();
    (if n == 0 {
        0
    } else {
        ((n + 8) / 9) as int
    }) + small_product_cost(digits_value(significant_digits(t)), numerator)
}

/// What clamping an authored value times a factor charges after reading it: the
/// clamp of the exact value, or, for an exponent beyond `i128`, the integer one when a
/// positive value is huge.
pub open spec fn clamped_tail_cost(t: Seq<u8>, factor: ExactFactor) -> int {
    let c = digits_value(significant_digits(t)) * (factor.numerator as nat);
    if lexical_exponent_fits(t) {
        crate::rational::clamp_cost(
            (
                c,
                lexical_exponent_or_zero(t),
                factor.denominator as nat,
                has_significant(t) && t[0] == 45 && c != 0,
                false,
            ),
        )
    } else if c == 0 || (has_significant(t) && t[0] == 45) || exponent_is_negative(t) {
        0
    } else {
        1
    }
}

impl ExactRational {
    /// The exact value of an authored decimal token times `numerator / denominator`.
    pub fn from_lexical_factor(
        text: &str,
        factor: ExactFactor,
        context: &mut SpecifiedSerializationContext,
    ) -> (r: SerializationResult<Self>)
        requires
            numeric_syntax(text.spec_bytes()),
            old(context).wf(),
        ensures
            final(context).wf(),
            budget_only(*old(context), *final(context)),
            factor.denominator == 0 ==> kind_error(
                r,
                CssSpecifiedValueSerializationErrorKind::CapacityOverflow,
            ),
            factor.denominator > 0 && !lexical_exponent_fits(text.spec_bytes()) ==> kind_error(
                r,
                CssSpecifiedValueSerializationErrorKind::ByteLimit,
            ),
            r matches Ok(v) ==> v.wf() && v.is_exact() && v.signed() == lexical_signed(
                text.spec_bytes(),
                factor.numerator as nat,
            ) && v.exponent == lexical_exponent_or_zero(text.spec_bytes()) && v.denominator
                == factor.denominator,
            r matches Err(e) ==> arithmetic_error(e.kind),
            factor.denominator > 0 && lexical_exponent_fits(text.spec_bytes())
                && significant_digits(text.spec_bytes()).len() + 8 <= usize::MAX ==> budget_charged(
                r,
                *old(context),
                *final(context),
                lexical_cost(text.spec_bytes(), factor.numerator as nat),
            ),
    {
        if factor.denominator == 0 {
            return failure(CssSpecifiedValueSerializationErrorKind::CapacityOverflow);
        }
        let bytes = text.as_bytes();
        let lexical = LexicalDecimal::new(bytes);
        let exponent = match lexical.exponent {
            Some(e) => e,
            None => {
                return failure(CssSpecifiedValueSerializationErrorKind::ByteLimit);
            },
        };
        let ghost c0 = *context;
        let read = BigCoefficient::from_lexical(&lexical, context);
        proof {
            if lexical.len + 8 <= usize::MAX {
                lemma_charge_when(read, c0, *context, ((lexical.len + 8) / 9) as int, lexical.len == 0);
            }
        }
        let digits = match read {
            Ok(v) => v,
            Err(e) => {
                return Err(e);
            },
        };
        let ghost c1 = *context;
        let step = digits.mul_small(factor.numerator, context);
        proof {
            lemma_charge_when(
                step,
                c1,
                *context,
                limb_len(digits.value() * (factor.numerator as nat)) as int,
                digits.value() == 0 || factor.numerator == 0,
            );
        }
        let coefficient = match step {
            Ok(v) => v,
            Err(e) => {
                return Err(e);
            },
        };
        let negative = lexical.negative && !coefficient.is_zero();
        proof {
            if !has_significant(bytes@) {
                lemma_mul_basics(factor.numerator as int);
                assert(digits_value(Seq::<u8>::empty()) == 0);
            }
        }
        Ok(
            Self {
                negative,
                coefficient,
                exponent,
                denominator: factor.denominator,
                unbounded_tiny: false,
            },
        )
    }

    /// The authored value times the factor, clamped into `[0, 1]`. An exponent beyond
    /// `i128` decides the result without materializing the value: a huge positive
    /// exponent gives one, a huge negative one an unboundedly tiny positive value.
    pub fn from_lexical_factor_clamped_unit(
        text: &str,
        factor: ExactFactor,
        context: &mut SpecifiedSerializationContext,
    ) -> (r: SerializationResult<Self>)
        requires
            numeric_syntax(text.spec_bytes()),
            old(context).wf(),
        ensures
            final(context).wf(),
            budget_only(*old(context), *final(context)),
            factor.denominator == 0 ==> kind_error(
                r,
                CssSpecifiedValueSerializationErrorKind::CapacityOverflow,
            ),
            r matches Ok(v) ==> v.wf(),
            factor.denominator > 0 && lexical_exponent_fits(text.spec_bytes())
                && crate::bignum::decimal_len_of(
                digits_value(significant_digits(text.spec_bytes())) * (factor.numerator as nat),
            ) <= usize::MAX ==> (r matches Ok(v) ==> {
                let n = scaled_numerator(
                    lexical_signed(text.spec_bytes(), factor.numerator as nat),
                    lexical_exponent_or_zero(text.spec_bytes()),
                );
                let d = scaled_denominator(
                    factor.denominator as int,
                    lexical_exponent_or_zero(text.spec_bytes()),
                );
                v.is_exact() && if n <= 0 {
                    v.equals(0, 1)
                } else if n > d {
                    v.equals(1, 1)
                } else {
                    v.equals(n, d)
                }
            }),
            factor.denominator > 0 && !lexical_exponent_fits(text.spec_bytes()) ==> (r matches Ok(
                v,
            ) ==> if lexical_signed(text.spec_bytes(), factor.numerator as nat) <= 0 {
                v.is_exact() && v.equals(0, 1)
            } else if !exponent_is_negative(text.spec_bytes()) {
                v.is_exact() && v.equals(1, 1)
            } else {
                v.unbounded_tiny && v.coefficient.value() > 0
            }),
            r matches Err(e) ==> arithmetic_error(e.kind),
            factor.denominator > 0 && significant_digits(text.spec_bytes()).len() + 8 <= usize::MAX
                && (lexical_exponent_fits(text.spec_bytes()) ==> crate::bignum::decimal_len_of(
                digits_value(significant_digits(text.spec_bytes())) * (factor.numerator as nat),
            ) <= usize::MAX) ==> budget_charged(
                r,
                *old(context),
                *final(context),
                lexical_cost(text.spec_bytes(), factor.numerator as nat) + clamped_tail_cost(
                    text.spec_bytes(),
                    factor,
                ),
            ),
    {
        if factor.denominator == 0 {
            return failure(CssSpecifiedValueSerializationErrorKind::CapacityOverflow);
        }
        let bytes = text.as_bytes();
        let lexical = LexicalDecimal::new(bytes);
        if lexical.exponent.is_some() {
            let value = match Self::from_lexical_factor(text, factor, context) {
                Ok(v) => v,
                Err(e) => {
                    return Err(e);
                },
            };
            proof {
                assert(crate::rational::parts(value) == (
                    digits_value(significant_digits(text.spec_bytes())) * (factor.numerator as nat),
                    lexical_exponent_or_zero(text.spec_bytes()),
                    factor.denominator as nat,
                    has_significant(text.spec_bytes()) && text.spec_bytes()[0] == 45
                        && digits_value(significant_digits(text.spec_bytes())) * (factor.numerator as nat) != 0,
                    false,
                ));
            }
            return value.clamp_unit(context);
        }
        let ghost c0 = *context;
        let read = BigCoefficient::from_lexical(&lexical, context);
        proof {
            if lexical.len + 8 <= usize::MAX {
                lemma_charge_when(read, c0, *context, ((lexical.len + 8) / 9) as int, lexical.len == 0);
            }
        }
        let digits = match read {
            Ok(v) => v,
            Err(e) => {
                return Err(e);
            },
        };
        let ghost c1 = *context;
        let step = digits.mul_small(factor.numerator, context);
        proof {
            lemma_charge_when(
                step,
                c1,
                *context,
                limb_len(digits.value() * (factor.numerator as nat)) as int,
                digits.value() == 0 || factor.numerator == 0,
            );
        }
        let coefficient = match step {
            Ok(v) => v,
            Err(e) => {
                return Err(e);
            },
        };
        if coefficient.is_zero() || lexical.negative {
            let zero = Self::integer(0, context)?;
            proof {
                lemma_mul_basics(zero.den());
            }
            return Ok(zero);
        }
        if !lexical.exponent_negative {
            let one = Self::integer(1, context)?;
            proof {
                lemma_mul_basics(one.den());
            }
            return Ok(one);
        }
        Ok(
            Self {
                coefficient,
                exponent: 0,
                denominator: factor.denominator,
                negative: false,
                unbounded_tiny: true,
            },
        )
    }
}



/// Subtracts a small integer from a big-endian decimal digit string, then drops leading
/// zeros (keeping one digit). Fails when the string's value is smaller.
pub fn decimal_digits_sub_small(digits: &mut Vec<u8>, value: u128) -> (r: SerializationResult<()>)
    requires
        crate::serialization::is_digit_values(old(digits)@),
    ensures
        crate::serialization::is_digit_values(final(digits)@),
        r is Ok <==> digits_value(old(digits)@) >= value,
        r is Ok ==> digits_value(final(digits)@) == digits_value(old(digits)@) - value,
        r matches Err(e) ==> e.kind == CssSpecifiedValueSerializationErrorKind::CapacityOverflow,
{
    let ghost d0 = digits_value(digits@) as int;
    let ghost v0 = value as int;
    let mut rest: u128 = value;
    let mut index = digits.len();
    let mut borrow: u8 = 0;
    let len = digits.len();
    proof {
        assert(pow10(0) == 1);
        assert(pow10((len - index) as nat) == 1);
        lemma_mul_basics(rest as int);
    }
    while rest != 0 || borrow != 0
        invariant
            len == digits.len(),
            index <= len,
            borrow <= 1,
            crate::serialization::is_digit_values(digits@),
            digits_value(digits@) - (rest + borrow) * pow10((len - index) as nat) == d0 - v0,
            d0 == digits_value(old(digits)@),
            v0 == value,
        decreases index,
    {
        if index == 0 {
            proof {
                lemma_digits_value_bound(digits@);
                let p = pow10(len as nat) as int;
                let w = (rest + borrow) as int;
                assert(((len - index) as nat) == len as nat);
                assert(w * p >= p) by (nonlinear_arith)
                    requires
                        w >= 1,
                        p >= 0,
                ;
                assert(digits_value(digits@) < p);
                assert(d0 - v0 < 0);
                assert(digits_value(old(digits)@) < value);
            }
            return failure(CssSpecifiedValueSerializationErrorKind::CapacityOverflow);
        }
        let ghost before = digits@;
        let ghost k = (len - index) as nat;
        index = index - 1;
        let vr = (rest % 10) as u8;
        let sub = vr + borrow;
        let ghost vq = (rest / 10) as int;
        rest = rest / 10;
        let current = digits[index];
        let next = if current >= sub {
            current - sub
        } else {
            current + 10 - sub
        };
        let ghost carried: int = if current >= sub {
            0
        } else {
            1
        };
        digits.set(index, next);
        borrow = if current >= sub {
            0
        } else {
            1
        };
        proof {
            lemma_digits_value_update(before, index as int, next);
            assert((len - 1 - index) as nat == k);
            assert(pow10(k + 1) == 10 * pow10(k));
            assert(((len - index) as nat) == k + 1);
            let p = pow10(k) as int;
            let dv = digits_value(before) as int;
            let nv = digits_value(digits@) as int;
            assert(nv - (vq + carried) * (10 * p) == dv - ((vq * 10 + vr) + (sub - vr)) * p)
                by (nonlinear_arith)
                requires
                    nv + current * p == dv + next * p,
                    next == current - sub + 10 * carried,
            ;
        }
    }
    proof {
        lemma_mul_basics(pow10((len - index) as nat) as int);
    }
    if len == 0 {
        return Ok(());
    }
    let mut first: usize = 0;
    while first < len - 1 && digits[first] == 0
        invariant
            first <= len - 1,
            len == digits.len(),
            forall|j: int| 0 <= j < first ==> digits@[j] == 0,
        decreases len - first,
    {
        first = first + 1;
    }
    let mut kept: Vec<u8> = Vec::new();
    let mut i = first;
    while i < len
        invariant
            first <= i <= len,
            len == digits.len(),
            crate::serialization::is_digit_values(digits@),
            crate::serialization::is_digit_values(kept@),
            kept@ == digits@.subrange(first as int, i as int),
        decreases len - i,
    {
        kept.push(digits[i]);
        i = i + 1;
    }
    proof {
        lemma_digits_value_leading_zeros(digits@, first as int);
    }
    *digits = kept;
    Ok(())
}

/// Adds a small integer to a big-endian decimal digit string, growing it at the front.
pub fn decimal_digits_add_small(digits: &mut Vec<u8>, value: u128) -> (r: SerializationResult<()>)
    requires
        crate::serialization::is_digit_values(old(digits)@),
    ensures
        crate::serialization::is_digit_values(final(digits)@),
        digits_value(final(digits)@) == digits_value(old(digits)@) + value,
        r is Ok,
{
    let ghost d0 = digits_value(digits@) as int;
    let ghost v0 = value as int;
    let mut rest: u128 = value;
    let mut index = digits.len();
    let mut carry: u8 = 0;
    proof {
        assert(pow10(0) == 1);
        assert(pow10((digits.len() - index) as nat) == 1);
        lemma_mul_basics(rest as int);
    }
    while rest != 0 || carry != 0
        invariant
            index <= digits.len(),
            carry <= 1,
            crate::serialization::is_digit_values(digits@),
            digits_value(digits@) + (rest + carry) * pow10((digits.len() - index) as nat) == d0 + v0,
        decreases rest, carry, index,
    {
        let ghost before = digits@;
        let ghost vq = (rest / 10) as int;
        let vr = (rest % 10) as u8;
        if index == 0 {
            let digit = vr + carry;
            rest = rest / 10;
            digits.insert(0, digit % 10);
            carry = digit / 10;
            proof {
                assert(crate::serialization::is_digit_values(digits@)) by {
                    assert forall|k: int| 0 <= k < digits@.len() implies #[trigger] digits@[k] < 10 by {
                    }
                }
                assert(digits@ =~= seq![(digit % 10) as u8] + before);
                lemma_digits_value_cons((digit % 10) as u8, before);
                let n = before.len();
                assert(pow10(n + 1) == 10 * pow10(n));
                let p = pow10(n) as int;
                let dv = digits_value(before) as int;
                let lo = (digit % 10) as int;
                let hi = (digit / 10) as int;
                assert(dv + lo * p + (vq + hi) * (10 * p) == dv + ((vq * 10 + vr) + (digit - vr)) * p)
                    by (nonlinear_arith)
                    requires
                        digit == lo + 10 * hi,
                ;
            }
        } else {
            let ghost k = (digits.len() - index) as nat;
            index = index - 1;
            let current = digits[index];
            let sum = current + vr + carry;
            rest = rest / 10;
            digits.set(index, sum % 10);
            carry = sum / 10;
            proof {
                lemma_digits_value_update(before, index as int, (sum % 10) as u8);
                assert((before.len() - 1 - index) as nat == k);
                assert(pow10(k + 1) == 10 * pow10(k));
                let p = pow10(k) as int;
                let dv = digits_value(before) as int;
                let nv = digits_value(digits@) as int;
                let lo = (sum % 10) as int;
                let hi = (sum / 10) as int;
                assert(nv + (vq + hi) * (10 * p) == dv + ((vq * 10 + vr) + (sum - current - vr)) * p)
                    by (nonlinear_arith)
                    requires
                        nv + current * p == dv + lo * p,
                        sum == lo + 10 * hi,
                ;
            }
        }
    }
    proof {
        lemma_mul_basics(pow10((digits.len() - index) as nat) as int);
    }
    Ok(())
}

impl<'a> LexicalDecimal<'a> {
    /// `base^(exponent - subtract) mod modulus`, for the token's exponent however large.
    pub fn pow_mod_after(
        &self,
        base: u64,
        subtract: u32,
        modulus: u64,
        context: &mut SpecifiedSerializationContext,
    ) -> (r: SerializationResult<u64>)
        requires
            self.wf(),
            modulus > 0,
            old(context).wf(),
        ensures
            final(context).wf(),
            budget_only(*old(context), *final(context)),
            self.exponent matches Some(e) ==> (if e >= subtract {
                r == Ok::<u64, CssSpecifiedValueSerializationError>(
                    (pow(base as int, (e - subtract) as nat) % (modulus as int)) as u64,
                )
            } else {
                kind_error(r, CssSpecifiedValueSerializationErrorKind::CapacityOverflow)
            }),
            self.exponent is None && self.exponent_negative ==> kind_error(
                r,
                CssSpecifiedValueSerializationErrorKind::CapacityOverflow,
            ),
            self.exponent is None && !self.exponent_negative ==> {
                let e = digits_value(self.exponent_digits()) + self.exponent_adjustment;
                &&& e < subtract ==> r is Err
                &&& r matches Ok(x) ==> e >= subtract && x == pow(base as int, (e - subtract) as nat)
                    % (modulus as int)
            },
            r matches Ok(x) ==> x < modulus,
            r matches Err(e) ==> budget_error(e.kind),
            self.exponent is Some ==> *final(context) == *old(context),
            self.exponent is None && !self.exponent_negative && self.text@.len()
                - self.exponent_digits_start + 1 <= usize::MAX && self.exponent_adjustment - subtract
                > i128::MIN && digits_value(self.exponent_digits()) + self.exponent_adjustment >= subtract
                ==> budget_charged(
                r,
                *old(context),
                *final(context),
                self.text@.len() - self.exponent_digits_start + 1,
            ),
    {
        if let Some(exponent) = self.exponent {
            if exponent < 0 {
                return failure(CssSpecifiedValueSerializationErrorKind::CapacityOverflow);
            }
            let exponent = exponent as u128;
            if exponent < subtract as u128 {
                return failure(CssSpecifiedValueSerializationErrorKind::CapacityOverflow);
            }
            let r = pow_mod(base, exponent - subtract as u128, modulus);
            return Ok(r);
        }
        if self.exponent_negative {
            return failure(CssSpecifiedValueSerializationErrorKind::CapacityOverflow);
        }
        let n = self.text.len();
        let start = self.exponent_digits_start;
        let count = n - start;
        let work_digits = match count.checked_add(1) {
            Some(w) => w,
            None => {
                return failure(CssSpecifiedValueSerializationErrorKind::CapacityOverflow);
            },
        };
        context.charge_projection(work_digits)?;
        let mut digits: Vec<u8> = Vec::new();
        let mut i = start;
        proof {
            assert(self.text@.subrange(start as int, start as int) =~= Seq::<u8>::empty());
            assert(digit_values_of(Seq::<u8>::empty()) =~= Seq::<u8>::empty());
        }
        while i < n
            invariant
                start <= i <= n,
                n == self.text@.len(),
                self.wf(),
                start == self.exponent_digits_start,
                crate::serialization::is_digit_values(digits@),
                digits@ == digit_values_of(self.text@.subrange(start as int, i as int)),
            decreases n - i,
        {
            proof {
                assert(is_digit_byte(self.text@.subrange(start as int, n as int)[i - start]));
                lemma_digit_values_append(self.text@, start as int, i as int);
            }
            digits.push(self.text[i] - 48u8);
            i = i + 1;
        }
        let ghost big = digits_value(self.exponent_digits()) + self.exponent_adjustment;
        assert(digits@ == self.exponent_digits());
        let adjustment = match self.exponent_adjustment.checked_sub(subtract as i128) {
            Some(a) => a,
            None => {
                return failure(CssSpecifiedValueSerializationErrorKind::CapacityOverflow);
            },
        };
        if adjustment < 0 {
            if adjustment == i128::MIN {
                return failure(CssSpecifiedValueSerializationErrorKind::CapacityOverflow);
            }
            decimal_digits_sub_small(&mut digits, (-adjustment) as u128)?;
        } else {
            decimal_digits_add_small(&mut digits, adjustment as u128)?;
        }
        assert(digits_value(digits@) == big - subtract);
        let ghost m = modulus as int;
        let ghost b = base as int;
        let mut result: u64 = 1 % modulus;
        let mut j: usize = 0;
        proof {
            assert(digits@.take(0) =~= Seq::<u8>::empty());
            assert(pow(b, 0) == 1) by {
                reveal_with_fuel(pow, 1);
            }
        }
        while j < digits.len()
            invariant
                j <= digits.len(),
                result < modulus,
                modulus > 0,
                m == modulus as int,
                b == base as int,
                crate::serialization::is_digit_values(digits@),
                result == pow(b, digits_value(digits@.take(j as int))) % m,
            decreases digits.len() - j,
        {
            let ghost x0 = digits_value(digits@.take(j as int));
            let ghost r0 = result as int;
            result = pow_mod(result, 10, modulus);
            let step = pow_mod(base, digits[j] as u128, modulus);
            proof {
                let x = result as int;
                let y = step as int;
                lemma_mod_bound(pow(r0, 10), m);
                assert(x * y <= u128::MAX) by (nonlinear_arith)
                    requires
                        0 <= x <= u64::MAX,
                        0 <= y <= u64::MAX,
                ;
                lemma_mod_bound(pow(b, digits[j as int] as nat), m);
                let d = digits@[j as int] as nat;
                assert(digits@.take(j + 1).drop_last() =~= digits@.take(j as int));
                assert(digits@.take(j + 1).last() == digits@[j as int]);
                assert(digits_value(digits@.take(j + 1)) == x0 * 10 + d);
                lemma_pow_mod_noop(pow(b, x0), 10, m);
                lemma_pow_multiplies(b, x0, 10);
                assert(x == pow(b, x0 * 10) % m);
                assert(y == pow(b, d) % m);
                lemma_mul_mod_noop_general(pow(b, x0 * 10), pow(b, d), m);
                lemma_pow_adds(b, x0 * 10, d);
            }
            result = ((result as u128 * step as u128) % modulus as u128) as u64;
            j = j + 1;
        }
        proof {
            assert(digits@.take(digits@.len() as int) =~= digits@);
        }
        Ok(result)
    }
}

/// `base^exponent` when it fits in `u64`.
fn checked_small_pow(base: u64, exponent: u32) -> (r: Option<u64>)
    ensures
        r == (if pow(base as int, exponent as nat) <= u64::MAX {
            Some(pow(base as int, exponent as nat) as u64)
        } else {
            None
        }),
{
    let mut result: u64 = 1;
    let mut i: u32 = 0;
    proof {
        reveal_with_fuel(pow, 1);
    }
    while i < exponent
        invariant
            i <= exponent,
            result == pow(base as int, i as nat),
        decreases exponent - i,
    {
        match result.checked_mul(base) {
            Some(v) => {
                proof {
                    lemma_pow_adds(base as int, i as nat, 1);
                    reveal_with_fuel(pow, 2);
                }
                result = v;
            },
            None => {
                proof {
                    lemma_pow_adds(base as int, i as nat, 1);
                    reveal_with_fuel(pow, 2);
                    assert(pow(base as int, (i + 1) as nat) > u64::MAX);
                    assert(base > 0) by {
                        if base == 0 {
                            assert(result * base == 0) by (nonlinear_arith)
                                requires
                                    base == 0,
                            ;
                        }
                    }
                    lemma_pow_increases(base as nat, (i + 1) as nat, exponent as nat);
                }
                return None;
            },
        }
        i = i + 1;
    }
    Some(result)
}

/// The true written exponent plus the significand shift, however large.
pub open spec fn true_exponent(t: Seq<u8>) -> int {
    (if exponent_is_negative(t) {
        -(exponent_magnitude(t) as int)
    } else {
        exponent_magnitude(t) as int
    }) + exponent_adjustment_of(t)
}

/// The parts of an authored value times a factor: the magnitude, the decimal exponent,
/// the factor's denominator and the sign of a nonzero value.
pub open spec fn lexical_parts(t: Seq<u8>, factor: ExactFactor) -> crate::rational::RationalParts {
    let c = digits_value(significant_digits(t)) * (factor.numerator as nat);
    (c, lexical_exponent_or_zero(t), factor.denominator as nat, has_significant(t) && t[0] == 45 && c != 0, false)
}

/// An authored value whose exponent puts digits after the decimal point: it is read
/// exactly and then reduced.
pub open spec fn modulo_reads_exactly(t: Seq<u8>) -> bool {
    has_significant(t) && lexical_exponent_fits(t) && lexical_exponent_or_zero(t) < 0
}

/// An authored value with a nonnegative decimal exponent, however large: the exponent's
/// powers of two and five cancel against the factor's denominator before the reduction.
pub open spec fn modulo_cancels(t: Seq<u8>) -> bool {
    &&& has_significant(t)
    &&& if lexical_exponent_fits(t) {
        lexical_exponent_or_zero(t) >= 0
    } else {
        !exponent_is_negative(t)
    }
}

/// The decimal exponent of the last significant digit, however large.
pub open spec fn modulo_exponent(t: Seq<u8>) -> int {
    if lexical_exponent_fits(t) {
        lexical_exponent_or_zero(t)
    } else {
        true_exponent(t)
    }
}

/// A positive written exponent beyond `i128` leaves a true exponent far above the
/// powers of two and five a `u64` holds.
proof fn lemma_unfit_exponent_is_large(t: Seq<u8>)
    requires
        numeric_syntax(t),
        has_significant(t),
        lexical_exponent(t) is None,
        !exponent_is_negative(t),
        -(usize::MAX as int) <= exponent_adjustment_of(t) <= i128::MAX,
    ensures
        true_exponent(t) >= 128,
        mantissa_end(t) < t.len(),
{
    let m = mantissa_end(t);
    if m < t.len() {
        let e = t.subrange(m + 1, t.len() as int);
        let body = if e.len() > 0 && (e[0] == 43 || e[0] == 45) {
            e.drop_first()
        } else {
            e
        };
        assert(body =~= t.subrange(exponent_body_start(t), t.len() as int));
        assert(!(e.len() > 0 && e[0] == 45));
    } else {
        assert(t.subrange(exponent_body_start(t), t.len() as int) =~= Seq::<u8>::empty());
        assert(digit_values_of(Seq::<u8>::empty()) =~= Seq::<u8>::empty());
    }
}

/// Positive factors of a product within `u64` are within `u64`.
proof fn lemma_factors_fit(m: int, s: int, a: int, b: int)
    requires
        m >= 1,
        s >= 1,
        a >= 1,
        b >= 1,
        m * (s * a * b) <= u64::MAX,
    ensures
        a <= u64::MAX,
        b <= u64::MAX,
        s * a <= u64::MAX,
        s * a * b <= u64::MAX,
{
    assert(s * a * b <= m * (s * a * b)) by (nonlinear_arith)
        requires
            m >= 1,
            s >= 1,
            a >= 1,
            b >= 1,
    ;
    assert(s * a <= s * a * b) by (nonlinear_arith)
        requires
            s >= 1,
            a >= 1,
            b >= 1,
    ;
    assert(a <= s * a && b <= s * a * b) by (nonlinear_arith)
        requires
            s >= 1,
            a >= 1,
            b >= 1,
    ;
}

/// The factor's denominator once the exponent `e` has cancelled as many of its twos
/// and fives as it can.
pub open spec fn cancelled_denominator(den: nat, e: int) -> int {
    let t2 = crate::rational::twos_in(den);
    let f5 = crate::rational::fives_in(den / (pow(2, t2) as nat));
    let ct = if e < t2 {
        e
    } else {
        t2 as int
    };
    let cf = if e < f5 {
        e
    } else {
        f5 as int
    };
    (crate::rational::strip_two_five(den) as int) * pow(2, (t2 - ct) as nat) * pow(5, (f5 - cf) as nat)
}

/// The stored residue of a cancelled reduction: the residue of the value modulo `m`,
/// over the cancelled denominator.
pub open spec fn cancelled_residue(t: Seq<u8>, factor: ExactFactor, m: nat) -> int {
    let e = modulo_exponent(t);
    let n = scaled_numerator(lexical_signed(t, factor.numerator as nat), e);
    crate::rational::residue_num(n, factor.denominator as int, m as int) * cancelled_denominator(
        factor.denominator as nat,
        e,
    ) / (factor.denominator as int)
}

/// What a cancelled reduction charges: the limbs of the authored digits; for an
/// exponent beyond `i128`, its digits and one more, once for the powers of two and once
/// for the powers of five; then the stored residue.
pub open spec fn cancelled_modulo_cost(t: Seq<u8>, factor: ExactFactor, m: nat) -> int {
    ((significant_digits(t).len() + 8) / 9) as int + (if lexical_exponent_fits(t) {
        0
    } else {
        2 * (t.len() - exponent_digits_start_of(t) + 1)
    }) + crate::bignum::from_u64_cost(cancelled_residue(t, factor, m) as nat)
}

impl ExactRational {
    /// The authored value times the factor, reduced modulo a positive integer without
    /// materializing a large positive exponent: the exponent's powers of two and five
    /// first cancel against the factor's denominator, and the rest is taken modulo
    /// `modulus × denominator`.
    #[verifier::spinoff_prover]
    #[verifier::rlimit(100)]
    pub fn from_lexical_factor_modulo(
        text: &str,
        factor: ExactFactor,
        modulus: u64,
        context: &mut SpecifiedSerializationContext,
    ) -> (r: SerializationResult<Self>)
        requires
            numeric_syntax(text.spec_bytes()),
            old(context).wf(),
        ensures
            final(context).wf(),
            budget_only(*old(context), *final(context)),
            factor.denominator == 0 || modulus == 0 ==> kind_error(
                r,
                CssSpecifiedValueSerializationErrorKind::CapacityOverflow,
            ),
            factor.denominator > 0 && modulus > 0 && has_significant(text.spec_bytes())
                && !lexical_exponent_fits(text.spec_bytes()) && exponent_is_negative(
                text.spec_bytes(),
            ) ==> kind_error(r, CssSpecifiedValueSerializationErrorKind::ByteLimit),
            r matches Ok(v) ==> v.wf() && v.is_exact() && !v.negative,
            has_significant(text.spec_bytes()) && !lexical_exponent_fits(text.spec_bytes())
                && !exponent_is_negative(text.spec_bytes()) ==> (r matches Ok(v) ==> {
                let e = true_exponent(text.spec_bytes());
                let n = scaled_numerator(lexical_signed(text.spec_bytes(), factor.numerator as nat), e);
                let d = scaled_denominator(factor.denominator as int, e);
                v.equals(crate::rational::residue_num(n, d, modulus as int), d)
            }),
            lexical_exponent_fits(text.spec_bytes()) ==> (r matches Ok(v) ==> {
                let n = scaled_numerator(
                    lexical_signed(text.spec_bytes(), factor.numerator as nat),
                    lexical_exponent_or_zero(text.spec_bytes()),
                );
                let d = scaled_denominator(
                    factor.denominator as int,
                    lexical_exponent_or_zero(text.spec_bytes()),
                );
                v.equals(crate::rational::residue_num(n, d, modulus as int), d)
            }),
            factor.denominator > 0 && modulus > 0 && !has_significant(text.spec_bytes()) ==> (r matches Ok(v)
                && v.num() == 0 && *final(context) == *old(context)),
            factor.denominator > 0 && modulus > 0 && modulo_reads_exactly(text.spec_bytes())
                && significant_digits(text.spec_bytes()).len() + 8 <= usize::MAX
                && crate::rational::parts_modulo_fits(lexical_parts(text.spec_bytes(), factor), modulus as nat)
                ==> budget_charged(
                r,
                *old(context),
                *final(context),
                lexical_cost(text.spec_bytes(), factor.numerator as nat) + crate::rational::parts_modulo_cost(
                    lexical_parts(text.spec_bytes(), factor),
                    modulus as nat,
                ),
            ),
            factor.denominator > 0 && modulus > 0 && modulo_cancels(text.spec_bytes()) && modulus
                * cancelled_denominator(factor.denominator as nat, modulo_exponent(text.spec_bytes()))
                > u64::MAX ==> kind_error(r, CssSpecifiedValueSerializationErrorKind::CapacityOverflow)
                && *final(context) == *old(context),
            factor.denominator > 0 && modulus > 0 && modulo_cancels(text.spec_bytes())
                && significant_digits(text.spec_bytes()).len() + 8 <= usize::MAX && modulus
                * cancelled_denominator(factor.denominator as nat, modulo_exponent(text.spec_bytes()))
                <= u64::MAX ==> budget_charged(
                r,
                *old(context),
                *final(context),
                cancelled_modulo_cost(text.spec_bytes(), factor, modulus as nat),
            ),
            r matches Err(e) ==> arithmetic_error(e.kind),
    {
        if factor.denominator == 0 || modulus == 0 {
            return failure(CssSpecifiedValueSerializationErrorKind::CapacityOverflow);
        }
        let bytes = text.as_bytes();
        let lexical = LexicalDecimal::new(bytes);
        let ghost t = bytes@;
        let ghost m = modulus as int;
        if lexical.len == 0 {
            let zero = Self {
                coefficient: BigCoefficient::zero(),
                exponent: 0,
                denominator: 1,
                negative: false,
                unbounded_tiny: false,
            };
            proof {
                assert(!has_significant(t));
                assert(lexical_signed(t, factor.numerator as nat) == 0) by {
                    assert(digits_value(Seq::<u8>::empty()) == 0);
                    lemma_mul_basics(factor.numerator as int);
                }
                crate::rational::lemma_den_positive(factor.denominator as int, 0);
                lemma_mul_basics(pow10(0) as int);
                assert(pow10(0) == 1);
                let d = factor.denominator as int;
                lemma_mul_basics(d);
                lemma_mul_strictly_positive(m, d);
                lemma_mul_basics(m * d);
                lemma_small_mod(0, (m * d) as nat);
                assert(0int / (m * d) == 0);
                lemma_mul_basics(zero.den());
            }
            return Ok(zero);
        }
        if lexical.exponent_negative && lexical.exponent.is_none() {
            return failure(CssSpecifiedValueSerializationErrorKind::ByteLimit);
        }
        if let Some(e) = lexical.exponent {
            if e < 0 {
                let ghost c0 = *context;
                let first = Self::from_lexical_factor(text, factor, context);
                let ghost c1 = *context;
                let ghost a = lexical_parts(t, factor);
                let value = match first {
                    Ok(v) => v,
                    Err(err) => {
                        proof {
                            if significant_digits(t).len() + 8 <= usize::MAX
                                && crate::rational::parts_modulo_fits(a, modulus as nat) {
                                crate::rational::lemma_parts_modulo_cost_nonneg(a, modulus as nat);
                            }
                        }
                        return Err(err);
                    },
                };
                proof {
                    let c = digits_value(significant_digits(t)) * (factor.numerator as nat);
                    assert(value.signed() == lexical_signed(t, factor.numerator as nat));
                    assert(value.coefficient.value() == c);
                    crate::rational::lemma_modulo_by_parts(value, a, modulus as nat);
                }
                return value.modulo(modulus, context);
            }
        }
        let mut denominator = factor.denominator;
        let mut twos: u32 = 0;
        let mut fives: u32 = 0;
        proof {
            assert(pow(2, 0) == 1 && pow(5, 0) == 1) by {
                reveal_with_fuel(pow, 1);
            }
            lemma_mul_basics(denominator as int);
        }
        while denominator % 2 == 0
            invariant
                denominator > 0,
                twos <= 64,
                denominator * pow(2, twos as nat) == factor.denominator,
                twos + crate::rational::twos_in(denominator as nat) == crate::rational::twos_in(
                    factor.denominator as nat,
                ),
                crate::rational::strip_two_five(denominator as nat) == crate::rational::strip_two_five(
                    factor.denominator as nat,
                ),
            decreases denominator,
        {
            proof {
                lemma_fundamental_div_mod(denominator as int, 2);
                lemma_pow_adds(2, twos as nat, 1);
                reveal_with_fuel(pow, 2);
                assert((denominator / 2) * pow(2, (twos + 1) as nat) == denominator * pow(2, twos as nat))
                    by (nonlinear_arith)
                    requires
                        denominator == 2 * (denominator / 2),
                        pow(2, (twos + 1) as nat) == pow(2, twos as nat) * 2,
                ;
                if twos == 64 {
                    lemma_pow_is_two_large(65);
                    lemma_pow_positive(2, 65);
                    assert(denominator / 2 >= 1);
                    assert((denominator / 2) * pow(2, 65) >= pow(2, 65)) by (nonlinear_arith)
                        requires
                            denominator / 2 >= 1,
                            pow(2, 65) > 0,
                    ;
                }
            }
            denominator = denominator / 2;
            twos = twos + 1;
        }
        let ghost odd_part_twos = denominator;
        proof {
            lemma_mul_basics(denominator as int);
            assert(crate::rational::twos_in(denominator as nat) == 0);
        }
        while denominator % 5 == 0
            invariant
                denominator > 0,
                fives <= 64,
                twos <= 64,
                denominator * pow(5, fives as nat) == odd_part_twos,
                odd_part_twos * pow(2, twos as nat) == factor.denominator,
                odd_part_twos > 0,
                denominator % 2 == 1,
                twos == crate::rational::twos_in(factor.denominator as nat),
                fives + crate::rational::fives_in(denominator as nat) == crate::rational::fives_in(
                    odd_part_twos as nat,
                ),
                crate::rational::strip_two_five(denominator as nat) == crate::rational::strip_two_five(
                    factor.denominator as nat,
                ),
            decreases denominator,
        {
            proof {
                lemma_fundamental_div_mod(denominator as int, 5);
                lemma_pow_adds(5, fives as nat, 1);
                reveal_with_fuel(pow, 2);
                assert((denominator / 5) * pow(5, (fives + 1) as nat) == denominator * pow(5, fives as nat))
                    by (nonlinear_arith)
                    requires
                        denominator == 5 * (denominator / 5),
                        pow(5, (fives + 1) as nat) == pow(5, fives as nat) * 5,
                ;
                if fives == 64 {
                    lemma_pow_is_five_large(65);
                    lemma_pow_positive(5, 65);
                    lemma_pow_positive(2, twos as nat);
                    assert((denominator / 5) * pow(5, 65) * pow(2, twos as nat) >= pow(5, 65))
                        by (nonlinear_arith)
                        requires
                            denominator / 5 >= 1,
                            pow(5, 65) > 0,
                            pow(2, twos as nat) >= 1,
                    ;
                }
            }
            proof {
                assert((denominator / 5) % 2 == 1) by (nonlinear_arith)
                    requires
                        denominator == 5 * (denominator / 5),
                        denominator % 2 == 1,
                ;
            }
            denominator = denominator / 5;
            fives = fives + 1;
        }
        proof {
            assert(crate::rational::fives_in(denominator as nat) == 0);
            assert(crate::rational::strip_two_five(denominator as nat) == denominator);
            lemma_pow_positive(2, twos as nat);
            lemma_mul_is_commutative(odd_part_twos as int, pow(2, twos as nat));
            lemma_div_multiples_vanish(odd_part_twos as int, pow(2, twos as nat));
            assert(factor.denominator as nat / (pow(2, twos as nat) as nat) == odd_part_twos);
        }
        let available: Option<u32> = match lexical.exponent {
            Some(e) => Some(
                if e > u32::MAX as i128 {
                    u32::MAX
                } else {
                    e as u32
                },
            ),
            None => None,
        };
        let cancelled_twos = match available {
            Some(v) => if v < twos {
                v
            } else {
                twos
            },
            None => twos,
        };
        let cancelled_fives = match available {
            Some(v) => if v < fives {
                v
            } else {
                fives
            },
            None => fives,
        };
        let ghost es = modulo_exponent(t);
        let ghost cd = cancelled_denominator(factor.denominator as nat, es);
        proof {
            if modulo_cancels(t) {
                if lexical_exponent_fits(t) {
                    assert(lexical.exponent == Some(es as i128));
                } else {
                    lemma_unfit_exponent_is_large(t);
                    assert(lexical.exponent is None);
                }
                assert(cancelled_twos as int == (if es < twos { es } else { twos as int }));
                assert(cancelled_fives as int == (if es < fives { es } else { fives as int }));
                lemma_pow_positive(2, (twos - cancelled_twos) as nat);
                lemma_pow_positive(5, (fives - cancelled_fives) as nat);
                assert(cd == (denominator as int) * pow(2, (twos - cancelled_twos) as nat) * pow(
                    5,
                    (fives - cancelled_fives) as nat,
                ));
                if m * cd <= u64::MAX {
                    lemma_factors_fit(
                        m,
                        denominator as int,
                        pow(2, (twos - cancelled_twos) as nat),
                        pow(5, (fives - cancelled_fives) as nat),
                    );
                }
            }
        }
        let twos_left = match checked_small_pow(2, twos - cancelled_twos) {
            Some(v) => v,
            None => {
                return failure(CssSpecifiedValueSerializationErrorKind::CapacityOverflow);
            },
        };
        let fives_left = match checked_small_pow(5, fives - cancelled_fives) {
            Some(v) => v,
            None => {
                return failure(CssSpecifiedValueSerializationErrorKind::CapacityOverflow);
            },
        };
        let reduced = match denominator.checked_mul(twos_left) {
            Some(v) => match v.checked_mul(fives_left) {
                Some(w) => w,
                None => {
                    return failure(CssSpecifiedValueSerializationErrorKind::CapacityOverflow);
                },
            },
            None => {
                return failure(CssSpecifiedValueSerializationErrorKind::CapacityOverflow);
            },
        };
        proof {
            if modulo_cancels(t) {
                assert(reduced as int == cd);
            }
        }
        let ring = match modulus.checked_mul(reduced) {
            Some(v) => v,
            None => {
                return failure(CssSpecifiedValueSerializationErrorKind::CapacityOverflow);
            },
        };
        let work_limbs = match crate::bignum::limb_count_for_digits(lexical.len) {
            Some(n) => n,
            None => {
                return failure(CssSpecifiedValueSerializationErrorKind::CapacityOverflow);
            },
        };
        context.charge_projection(work_limbs)?;
        proof {
            lemma_pow_positive(2, (twos - cancelled_twos) as nat);
            lemma_pow_positive(5, (fives - cancelled_fives) as nat);
            lemma_mul_strictly_positive(denominator as int, twos_left as int);
            lemma_mul_strictly_positive((denominator * twos_left) as int, fives_left as int);
            lemma_mul_strictly_positive(modulus as int, reduced as int);
        }
        let coefficient = lexical.digits_mod(ring);
        let ghost dv = digits_value(lexical.digits());
        proof {
            let x = coefficient as int;
            let y = factor.numerator as int;
            assert(x * y <= u128::MAX) by (nonlinear_arith)
                requires
                    0 <= x <= u64::MAX,
                    0 <= y <= u64::MAX,
            ;
        }
        let mut residue = ((coefficient as u128 * factor.numerator as u128) % ring as u128) as u64;
        proof {
            if modulo_cancels(t) && !lexical_exponent_fits(t) {
                lemma_unfit_exponent_is_large(t);
                assert(t.len() == bytes.len());
                assert(exponent_body_start(t) >= mantissa_end(t) + 1);
                assert(digits_value(lexical.exponent_digits()) + lexical.exponent_adjustment == true_exponent(t));
            }
        }
        let after_twos = lexical.pow_mod_after(2, cancelled_twos, ring, context)?;
        proof {
            let x = residue as int;
            let y = after_twos as int;
            assert(x * y <= u128::MAX) by (nonlinear_arith)
                requires
                    0 <= x <= u64::MAX,
                    0 <= y <= u64::MAX,
            ;
        }
        residue = ((residue as u128 * after_twos as u128) % ring as u128) as u64;
        let after_fives = lexical.pow_mod_after(5, cancelled_fives, ring, context)?;
        proof {
            let x = residue as int;
            let y = after_fives as int;
            assert(x * y <= u128::MAX) by (nonlinear_arith)
                requires
                    0 <= x <= u64::MAX,
                    0 <= y <= u64::MAX,
            ;
        }
        residue = ((residue as u128 * after_fives as u128) % ring as u128) as u64;
        let ghost unsigned = residue as int;
        if lexical.negative && residue != 0 {
            residue = ring - residue;
        }
        proof {
            {
                let e: int = match lexical.exponent {
                    Some(x) => x as int,
                    None => digits_value(lexical.exponent_digits()) + lexical.exponent_adjustment,
                };
                assert(lexical.exponent is None ==> e == true_exponent(t));
                let ring = m * (reduced as int);
                let num = factor.numerator as int;
                lemma_modulo_lexical_value(
                    num,
                    factor.denominator as int,
                    m,
                    e,
                    denominator as int,
                    twos as nat,
                    fives as nat,
                    cancelled_twos as nat,
                    cancelled_fives as nat,
                    dv as int,
                    coefficient as int,
                    after_twos as int,
                    after_fives as int,
                    reduced as int,
                );
                let big = (dv as int) * num * pow(2, (e - cancelled_twos) as nat) * pow(
                    5,
                    (e - cancelled_fives) as nat,
                );
                assert(unsigned == big % ring);
                lemma_mul_strictly_positive(m, reduced as int);
                lemma_mul_nonnegative(dv as int, num);
                lemma_pow_positive(2, (e - cancelled_twos) as nat);
                lemma_pow_positive(5, (e - cancelled_fives) as nat);
                lemma_mul_nonnegative((dv as int) * num, pow(2, (e - cancelled_twos) as nat));
                lemma_mul_nonnegative(
                    (dv as int) * num * pow(2, (e - cancelled_twos) as nat),
                    pow(5, (e - cancelled_fives) as nat),
                );
                let signed_big = if lexical.negative {
                    -big
                } else {
                    big
                };
                if lexical.negative {
                    crate::rational::lemma_mod_neg(big, ring);
                }
                assert(residue as int == signed_big % ring);
                assert(has_significant(t));
                let sv = lexical_signed(t, factor.numerator as nat);
                assert(sv == if lexical.negative {
                    -((dv as int) * num)
                } else {
                    (dv as int) * num
                });
                let n = scaled_numerator(sv, e);
                let d = scaled_denominator(factor.denominator as int, e);
                assert(d == factor.denominator as int);
                assert(n == sv * pow10(e as nat));
                assert(signed_big * d == n * (reduced as int)) by {
                    if lexical.negative {
                        lemma_mul_unary_negation(big, d);
                        lemma_mul_unary_negation((dv as int) * num, pow10(e as nat) as int);
                        lemma_mul_unary_negation(
                            (dv as int) * num * pow10(e as nat),
                            reduced as int,
                        );
                    }
                }
                crate::rational::lemma_residue_same_ratio(n, d, signed_big, reduced as int, m);
                if modulo_cancels(t) {
                    assert(d == factor.denominator as int);
                    assert(residue as int * d == crate::rational::residue_num(n, d, m) * (reduced as int));
                    lemma_mul_is_commutative(residue as int, d);
                    lemma_div_multiples_vanish(residue as int, d);
                    assert(residue as int == cancelled_residue(t, factor, modulus as nat));
                }
            }
        }
        let value = BigCoefficient::from_u64(residue, context)?;
        let result = Self {
            coefficient: value,
            exponent: 0,
            denominator: reduced,
            negative: false,
            unbounded_tiny: false,
        };
        proof {
            assert(pow10(0) == 1);
            lemma_mul_basics(residue as int);
            lemma_mul_basics(reduced as int);
            assert(result.num() == residue as int);
            assert(result.den() == reduced as int);
        }
        Ok(result)
    }
}

impl<'a> LexicalDecimal<'a> {
    /// The significant digits' value modulo `ring`.
    pub fn digits_mod(&self, ring: u64) -> (r: u64)
        requires
            self.wf(),
            ring > 0,
        ensures
            r == digits_value(self.digits()) % (ring as nat),
    {
        let end = self.significant_end;
        let mut j = self.significant_start;
        let mut current: u64 = 0;
        let ghost t = self.text@;
        proof {
            assert(t.subrange(j as int, j as int) =~= Seq::<u8>::empty());
            assert(digit_values_of(Seq::<u8>::empty()) =~= Seq::<u8>::empty());
            lemma_small_mod(0, ring as nat);
        }
        while j < end
            invariant
                self.significant_start <= j <= end,
                end == self.significant_end,
                self.wf(),
                t == self.text@,
                ring > 0,
                current < ring,
                current == digits_value(digit_values_of(t.subrange(self.significant_start as int, j as int))) % (ring as nat),
            decreases end - j,
        {
            let b = self.text[j];
            if b != 46u8 {
                let d = b - 48u8;
                proof {
                    crate::exact::lemma_digit_values_append(t, self.significant_start as int, j as int);
                    assert(is_digit_byte(t[j as int]));
                    let prefix = digit_values_of(t.subrange(self.significant_start as int, j as int));
                    let next = prefix.push(d);
                    assert(next.drop_last() =~= prefix);
                    let v = digits_value(prefix) as int;
                    let rm = ring as int;
                    lemma_mul_mod_noop_left(v, 10, rm);
                    lemma_add_mod_noop(v * 10, d as int, rm);
                    lemma_add_mod_noop((current as int) * 10, d as int, rm);
                    lemma_mod_twice(v * 10, rm);
                    lemma_small_mod(d as nat, 10);
                    let x = current as int;
                    assert(x * 10 + 9 <= u128::MAX) by (nonlinear_arith)
                        requires
                            0 <= x <= u64::MAX,
                    ;
                    lemma_mul_mod_noop_left(v, 10, rm);
                    assert(((current as int) * 10) % rm == (v * 10) % rm);
                }
                current = ((current as u128 * 10 + d as u128) % ring as u128) as u64;
            } else {
                proof {
                    crate::exact::lemma_digit_values_point(t, self.significant_start as int, j as int);
                }
            }
            j = j + 1;
        }
        current
    }
}

pub proof fn lemma_pow_is_two_large(n: nat)
    requires
        n >= 65,
    ensures
        pow(2, n) > u64::MAX,
    decreases n,
{
    if n == 65 {
        assert(pow(2, 65) == 36893488147419103232) by {
            reveal_with_fuel(pow, 66);
        }
    } else {
        lemma_pow_is_two_large((n - 1) as nat);
        reveal_with_fuel(pow, 2);
        lemma_pow_positive(2, (n - 1) as nat);
    }
}

pub proof fn lemma_pow_is_five_large(n: nat)
    requires
        n >= 65,
    ensures
        pow(5, n) > u64::MAX,
    decreases n,
{
    lemma_pow_is_two_large(n);
    lemma_pow_five_ge_two(n);
}

pub proof fn lemma_pow_five_ge_two(n: nat)
    ensures
        pow(5, n) >= pow(2, n),
    decreases n,
{
    reveal_with_fuel(pow, 2);
    if n > 0 {
        lemma_pow_five_ge_two((n - 1) as nat);
        lemma_pow_positive(2, (n - 1) as nat);
    }
}


pub proof fn lemma_mul_swap_middle(a: int, b: int, c: int, d: int)
    ensures
        (a * b) * (c * d) == (a * c) * (b * d),
{
    assert((a * b) * (c * d) == (a * c) * (b * d)) by (nonlinear_arith);
}

/// The value a modular reduction of authored text produces, step by step.
pub proof fn lemma_modulo_lexical_value(
    numerator: int,
    denominator: int,
    m: int,
    e: int,
    odd: int,
    twos: nat,
    fives: nat,
    cancelled_twos: nat,
    cancelled_fives: nat,
    dv: int,
    coefficient: int,
    after_twos: int,
    after_fives: int,
    reduced: int,
)
    requires
        m > 0,
        e >= 0,
        odd > 0,
        numerator >= 0,
        dv >= 0,
        cancelled_twos <= twos,
        cancelled_fives <= fives,
        cancelled_twos <= e,
        cancelled_fives <= e,
        odd * pow(5, fives) * pow(2, twos) == denominator,
        reduced == odd * pow(2, (twos - cancelled_twos) as nat) * pow(5, (fives - cancelled_fives) as nat),
        reduced > 0,
        coefficient == dv % (m * reduced),
        after_twos == pow(2, (e - cancelled_twos) as nat) % (m * reduced),
        after_fives == pow(5, (e - cancelled_fives) as nat) % (m * reduced),
    ensures
        ({
            let ring = m * reduced;
            let n = dv * numerator * pow(2, (e - cancelled_twos) as nat) * pow(5, (e - cancelled_fives) as nat);
            let r3 = (((coefficient * numerator) % ring) * after_twos % ring) * after_fives % ring;
            &&& r3 == n % ring
            &&& n * denominator == dv * numerator * pow10(e as nat) * reduced
        }),
{
    let ring = m * reduced;
    lemma_mul_strictly_positive(m, reduced);
    let p2 = pow(2, (e - cancelled_twos) as nat);
    let p5 = pow(5, (e - cancelled_fives) as nat);
    lemma_mul_mod_noop_left(dv, numerator, ring);
    let r1 = (coefficient * numerator) % ring;
    assert(r1 == (dv * numerator) % ring);
    lemma_mul_mod_noop_general(dv * numerator, p2, ring);
    let r2 = (r1 * after_twos) % ring;
    assert(r2 == (dv * numerator * p2) % ring);
    lemma_mul_mod_noop_general(dv * numerator * p2, p5, ring);
    // The exponent's powers of ten cancel against the denominator's twos and fives.
    crate::rational::lemma_pow_is_pow10(e as nat);
    lemma_pow_distributes(2, 5, e as nat);
    lemma_pow_adds(2, (e - cancelled_twos) as nat, twos);
    lemma_pow_adds(2, e as nat, (twos - cancelled_twos) as nat);
    lemma_pow_adds(5, (e - cancelled_fives) as nat, fives);
    lemma_pow_adds(5, e as nat, (fives - cancelled_fives) as nat);
    assert((e - cancelled_twos) + twos == e + (twos - cancelled_twos));
    assert((e - cancelled_fives) + fives == e + (fives - cancelled_fives));
    let a2 = pow(2, twos);
    let a5 = pow(5, fives);
    let b2 = pow(2, (twos - cancelled_twos) as nat);
    let b5 = pow(5, (fives - cancelled_fives) as nat);
    let e2 = pow(2, e as nat);
    let e5 = pow(5, e as nat);
    let x = dv * numerator;
    lemma_mul_is_associative(x, p2, p5);
    lemma_mul_is_associative(odd, a5, a2);
    lemma_mul_swap_middle(x, p2 * p5, odd, a5 * a2);
    lemma_mul_is_commutative(a5, a2);
    lemma_mul_swap_middle(p2, p5, a2, a5);
    lemma_mul_is_associative(odd, b2, b5);
    lemma_mul_swap_middle(x, e2 * e5, odd, b2 * b5);
    lemma_mul_swap_middle(e2, e5, b2, b5);
    assert(x * p2 * p5 * (odd * a5 * a2) == (x * odd) * ((p2 * a2) * (p5 * a5)));
    assert(x * (e2 * e5) * (odd * b2 * b5) == (x * odd) * ((e2 * b2) * (e5 * b5)));
}

/// A digit-and-point text has no more digits than bytes.
pub proof fn lemma_digit_count_bound(t: Seq<u8>)
    ensures
        digit_values_of(t).len() <= t.len(),
    decreases t.len(),
{
    if t.len() > 0 {
        lemma_digit_count_bound(t.drop_first());
    }
}

/// A decimal point adds no digit value.
pub proof fn lemma_digit_values_point(t: Seq<u8>, s: int, i: int)
    requires
        0 <= s <= i < t.len(),
        t[i] == 46,
    ensures
        digit_values_of(t.subrange(s, i + 1)) == digit_values_of(t.subrange(s, i)),
    decreases i - s,
{
    if s == i {
        assert(t.subrange(s, i + 1) =~= seq![t[i]]);
        assert(t.subrange(s, i) =~= Seq::<u8>::empty());
        assert(seq![t[i]].drop_first() =~= Seq::<u8>::empty());
    } else {
        lemma_digit_values_point(t, s + 1, i);
        lemma_digit_values_step(t, s, i + 1);
        lemma_digit_values_step(t, s, i);
    }
}

/// The last digit value of a range ending in a digit byte is that digit.
pub proof fn lemma_digit_values_last(t: Seq<u8>, s: int, l: int)
    requires
        0 <= s <= l < t.len(),
        t[l] != 46,
    ensures
        digit_values_of(t.subrange(s, l + 1)).len() > 0,
        digit_values_of(t.subrange(s, l + 1)).last() == (t[l] - 48) as u8,
{
    lemma_digit_values_append(t, s, l);
}



/// A significand of `l` digits at decimal exponent `e` is at most one hundred exactly when
/// its leading digit sits below the hundreds place, or it is exactly one hundred.
proof fn lemma_percentage_bound(d: nat, l: nat, e: int, point: int, result: bool)
    requires
        l >= 1,
        pow10((l - 1) as nat) <= d < pow10(l),
        d == pow10((l - 1) as nat) ==> l == 1 && d == 1,
        point == l + e || (point == i128::MAX && l + e > i128::MAX),
        result == (point < 3 || (point == 3 && l == 1 && d == 1)),
    ensures
        result == at_most_hundred(d, e),
{
    let k = l + e;
    assert(pow10(2) == 100) by {
        reveal_with_fuel(pow10, 3);
    }
    assert(pow10(3) == 1000) by {
        reveal_with_fuel(pow10, 4);
    }
    assert(result == (k < 3 || (k == 3 && l == 1 && d == 1)));
    let lo = pow10((l - 1) as nat) as int;
    let hi = pow10(l) as int;
    if e >= 0 {
        let pe = pow10(e as nat) as int;
        lemma_pow10_positive(e as nat);
        lemma_pow10_add(l, e as nat);
        lemma_pow10_add((l - 1) as nat, e as nat);
        let dd = d as int;
        assert(dd * pe < hi * pe && lo * pe <= dd * pe) by (nonlinear_arith)
            requires
                lo <= dd < hi,
                pe >= 1,
        ;
        if k <= 2 {
            lemma_pow10_monotonic(k as nat, 2);
        } else if k == 3 {
            if dd * pe <= 100 {
                assert(dd == lo) by (nonlinear_arith)
                    requires
                        dd * pe <= 100,
                        lo * pe == 100,
                        lo <= dd,
                        pe >= 1,
                ;
            }
            if l == 1 && d == 1 {
                assert(pow10(0) == 1);
                assert(e == 2);
            }
        } else {
            lemma_pow10_monotonic(3, (k - 1) as nat);
        }
    } else {
        let m = (-e) as nat;
        let pm = pow10(m) as int;
        lemma_pow10_positive(m);
        lemma_pow10_add(2, m);
        if k <= 2 {
            lemma_pow10_monotonic(l, 2 + m);
        } else if k == 3 {
            assert((l - 1) as nat == 2 + m);
            assert(l > 1);
            assert(d != lo);
        } else {
            lemma_pow10_monotonic(3 + m, (l - 1) as nat);
            lemma_pow10_add(3, m);
        }
    }
}

impl<'a> LexicalDecimal<'a> {
    /// Whether the authored value lies in `[0, 100]`: zero always does, a negative value
    /// never, and an exponent below `i128` always does.
    pub fn in_percentage_range(&self) -> (r: bool)
        requires
            self.wf(),
        ensures
            r == (self.len == 0 || (!self.negative && match self.exponent {
                Some(e) => at_most_hundred(digits_value(self.digits()), e as int),
                None => self.exponent_negative,
            })),
    {
        if self.len == 0 {
            return true;
        }
        if self.negative {
            return false;
        }
        let exponent = match self.exponent {
            Some(e) => e,
            None => {
                return self.exponent_negative;
            },
        };
        let ghost ds = self.digits();
        let ghost d = digits_value(ds);
        let ghost l = ds.len();
        proof {
            lemma_significand_range(ds);
        }
        let point: i128 = match exponent.checked_add(self.len as i128) {
            Some(p) => p,
            None => i128::MAX,
        };
        let result = if point < 3 {
            true
        } else if point == 3 && self.len == 1 {
            let digits = crate::specified::significant_digit_values(self);
            proof {
                assert(ds.drop_last() =~= Seq::<u8>::empty());
                assert(digits_value(ds.drop_last()) == 0);
                assert(d == ds[0]);
            }
            digits[0] == 1
        } else {
            false
        };
        proof {
            lemma_percentage_bound(d, l, exponent as int, point as int, result);
        }
        result
    }
}

} // verus!
