//! Exact decimal expansions of binary floating-point values, computed from their bit
//! patterns with integer arithmetic only.

use crate::bignum::{
    decimal_digits, decimal_len_of, digits_value, fixed_digits, lemma_fixed_digits_len,
    lemma_pow10_add, lemma_pow10_positive, pow10,
};
use crate::bignum::{
    budget_charged, budget_error, budget_only, lemma_charge_when, limb_len, small_product_cost,
    BigCoefficient,
};
use crate::exact::{
    digit_values_of, has_significant, is_digit_byte, lemma_digit_values_append, lexical_exponent,
    numeric_syntax, significant_digits, LexicalDecimal,
};
use crate::rational::{
    failure, kind_error, same_ratio, scaled_denominator, scaled_numerator, ExactFactor,
    ExactRational,
};
use crate::serialization::{
    format_digits, format_outcome, is_digit_values, string_outcome, CssSpecifiedValueSerializationErrorKind,
    SerializationResult, SpecifiedSerializationContext,
};
use crate::specified::significant_digit_values;
use vstd::string::StringSliceAdditionalSpecFns;
use vstd::arithmetic::div_mod::*;
use vstd::arithmetic::mul::*;
use vstd::arithmetic::power::*;
use vstd::prelude::*;

verus! {

/// The number written by decimal digit values, least significant first.
pub open spec fn le_value(s: Seq<u8>) -> nat
    decreases s.len(),
{
    if s.len() == 0 {
        0
    } else {
        s[0] as nat + 10 * le_value(s.drop_first())
    }
}

/// No zero digit in the most significant place.
pub open spec fn le_normal(s: Seq<u8>) -> bool {
    s.len() == 0 || s.last() != 0
}

/// How many times ten divides a positive number (zero for zero).
pub open spec fn trailing_zeros(v: nat) -> nat
    decreases v,
{
    if v > 0 && v % 10 == 0 {
        1 + trailing_zeros(v / 10)
    } else {
        0
    }
}

/// The significant decimal digits of `v`, most significant first, without trailing
/// zeros (none for zero).
pub open spec fn significand_digits(v: nat) -> Seq<u8> {
    if v == 0 {
        Seq::empty()
    } else {
        decimal_digits(v / pow10(trailing_zeros(v)))
    }
}

pub proof fn lemma_le_push(s: Seq<u8>, x: u8)
    ensures
        le_value(s.push(x)) == le_value(s) + x * pow10(s.len()),
    decreases s.len(),
{
    if s.len() == 0 {
        assert(s.push(x).drop_first() =~= Seq::<u8>::empty());
        assert(pow10(0) == 1);
        assert(s.push(x)[0] == x);
        assert(le_value(Seq::<u8>::empty()) == 0);
        assert(le_value(s) == 0);
        assert(le_value(s.push(x)) == x + 10 * le_value(s.push(x).drop_first()));
        lemma_mul_basics(x as int);
    } else {
        assert(s.push(x)[0] == s[0]);
        assert(s.push(x).drop_first() =~= s.drop_first().push(x));
        lemma_le_push(s.drop_first(), x);
        assert(le_value(s.push(x)) == s[0] + 10 * le_value(s.drop_first().push(x)));
        assert(le_value(s) == s[0] + 10 * le_value(s.drop_first()));
        let n = s.drop_first().len();
        assert(pow10(n + 1) == 10 * pow10(n));
        assert(s.len() == n + 1);
        let a = le_value(s.drop_first()) as int;
        let p = pow10(n) as int;
        assert(10 * (a + x * p) == 10 * a + x * (10 * p)) by (nonlinear_arith);
    }
}

pub proof fn lemma_le_take_next(s: Seq<u8>, i: int)
    requires
        0 <= i < s.len(),
    ensures
        le_value(s.take(i + 1)) == le_value(s.take(i)) + s[i] * pow10(i as nat),
{
    assert(s.take(i + 1) =~= s.take(i).push(s[i]));
    lemma_le_push(s.take(i), s[i]);
}

pub proof fn lemma_le_bound(s: Seq<u8>)
    requires
        is_digit_values(s),
    ensures
        le_value(s) < pow10(s.len()),
    decreases s.len(),
{
    if s.len() > 0 {
        let r = s.drop_first();
        assert(is_digit_values(r)) by {
            assert forall|k: int| 0 <= k < r.len() implies #[trigger] r[k] < 10 by {
                assert(r[k] == s[k + 1]);
            }
        }
        lemma_le_bound(r);
        assert(s[0] < 10);
        assert(pow10(s.len()) == 10 * pow10(r.len()));
    }
}

/// A normal nonempty digit string is at least `10^(len-1)`; one that large is normal.
pub proof fn lemma_le_top(s: Seq<u8>)
    requires
        is_digit_values(s),
        s.len() > 0,
    ensures
        le_normal(s) <==> le_value(s) >= pow10((s.len() - 1) as nat),
{
    let n = (s.len() - 1) as nat;
    let d = s.drop_last();
    assert(s =~= d.push(s.last()));
    lemma_le_push(d, s.last());
    assert(is_digit_values(d)) by {
        assert forall|k: int| 0 <= k < d.len() implies #[trigger] d[k] < 10 by {
            assert(d[k] == s[k]);
        }
    }
    lemma_le_bound(d);
    lemma_pow10_positive(n);
    let p = pow10(n) as int;
    let l = s.last() as int;
    if l != 0 {
        assert(l * p >= p) by (nonlinear_arith)
            requires
                l >= 1,
                p >= 1,
        ;
    } else {
        lemma_mul_basics(p);
    }
}

/// Low-order zero digits scale the rest by a power of ten.
pub proof fn lemma_le_low_zeros(s: Seq<u8>, t: int)
    requires
        0 <= t <= s.len(),
        forall|j: int| 0 <= j < t ==> s[j] == 0,
    ensures
        le_value(s) == le_value(s.skip(t)) * pow10(t as nat),
    decreases t,
{
    if t == 0 {
        assert(s.skip(0) =~= s);
        assert(pow10(0) == 1);
        lemma_mul_basics(le_value(s) as int);
    } else {
        assert(s[0] == 0);
        let r = s.drop_first();
        assert(forall|j: int| 0 <= j < t - 1 ==> r[j] == s[j + 1]);
        lemma_le_low_zeros(r, t - 1);
        assert(r.skip(t - 1) =~= s.skip(t));
        assert(pow10(t as nat) == 10 * pow10((t - 1) as nat));
        let a = le_value(s.skip(t)) as int;
        let p = pow10((t - 1) as nat) as int;
        assert(10 * (a * p) == a * (10 * p)) by (nonlinear_arith);
    }
}

/// `v * 10^t` with `v` not a multiple of ten has exactly `t` trailing zeros.
pub proof fn lemma_trailing_zeros_of(v: nat, t: nat)
    requires
        v % 10 != 0,
    ensures
        trailing_zeros(v * pow10(t)) == t,
        (v * pow10(t)) / pow10(t) == v,
    decreases t,
{
    lemma_pow10_positive(t);
    lemma_div_by_multiple(v as int, pow10(t) as int);
    if t == 0 {
        assert(pow10(0) == 1);
        assert(v * 1 == v);
        assert(v > 0);
    } else {
        let w = v * pow10((t - 1) as nat);
        lemma_trailing_zeros_of(v, (t - 1) as nat);
        assert(pow10(t) == 10 * pow10((t - 1) as nat));
        assert(v * pow10(t) == w * 10) by (nonlinear_arith)
            requires
                pow10(t) == 10 * pow10((t - 1) as nat),
                w == v * pow10((t - 1) as nat),
        ;
        lemma_pow10_positive((t - 1) as nat);
        assert(w >= 1) by (nonlinear_arith)
            requires
                v >= 1,
                pow10((t - 1) as nat) >= 1,
                w == v * pow10((t - 1) as nat),
        ;
        lemma_mod_multiples_basic(w as int, 10);
        lemma_div_by_multiple(w as int, 10);
        assert((w * 10) % 10 == 0);
        assert((w * 10) / 10 == w);
    }
}

/// Digit values with a nonzero first digit are the decimal digits of their value.
pub proof fn lemma_decimal_digits_unique(ds: Seq<u8>)
    requires
        is_digit_values(ds),
        ds.len() > 0,
        ds[0] != 0,
    ensures
        ds == decimal_digits(digits_value(ds)),
    decreases ds.len(),
{
    let v = digits_value(ds);
    let last = ds.last();
    assert(last < 10) by {
        assert(ds[ds.len() - 1] < 10);
    }
    if ds.len() == 1 {
        assert(ds.drop_last() =~= Seq::<u8>::empty());
        assert(digits_value(ds.drop_last()) == 0);
        assert(v == last);
        assert(decimal_len_of(v) == 1);
        assert(fixed_digits(v, 1) == fixed_digits(v / 10, 0).push((v % 10) as u8));
        assert(fixed_digits(v / 10, 0) =~= Seq::<u8>::empty());
        assert(ds =~= seq![last]);
    } else {
        let p = ds.drop_last();
        assert(is_digit_values(p)) by {
            assert forall|k: int| 0 <= k < p.len() implies #[trigger] p[k] < 10 by {
                assert(p[k] == ds[k]);
            }
        }
        assert(p[0] == ds[0]);
        lemma_decimal_digits_unique(p);
        let a = digits_value(p);
        assert(v == a * 10 + last);
        assert(a >= 1) by {
            crate::exact::lemma_digits_value_cons(p[0], p.drop_first());
            assert(p =~= seq![p[0]] + p.drop_first());
            lemma_pow10_positive(p.drop_first().len());
            assert(p[0] * pow10(p.drop_first().len()) >= 1) by (nonlinear_arith)
                requires
                    p[0] >= 1,
                    pow10(p.drop_first().len()) >= 1,
            ;
        }
        lemma_fundamental_div_mod_converse(v as int, 10, a as int, last as int);
        assert(v >= 10);
        assert(decimal_len_of(v) == 1 + decimal_len_of(a));
        assert(fixed_digits(v, decimal_len_of(v)) == fixed_digits(a, decimal_len_of(a)).push(
            last,
        ));
        assert(ds =~= p.push(last));
    }
}

/// The least-significant-first digits of `m`.
fn le_digits_of(m: u64) -> (r: Vec<u8>)
    ensures
        is_digit_values(r@),
        le_value(r@) == m,
        le_normal(r@),
        r@.len() == 0 <==> m == 0,
{
    let mut out: Vec<u8> = Vec::new();
    let mut rest = m;
    proof {
        assert(pow10(0) == 1);
    }
    while rest > 0
        invariant
            is_digit_values(out@),
            le_value(out@) + rest * pow10(out@.len()) == m,
            out@.len() > 0 ==> rest > 0 || out@.last() != 0,
            out@.len() == 0 ==> rest == m,
        decreases rest,
    {
        let d = (rest % 10) as u8;
        let ghost before = out@;
        out.push(d);
        proof {
            lemma_le_push(before, d);
            let n = before.len();
            assert(pow10(n + 1) == 10 * pow10(n));
            let q = (rest / 10) as int;
            let p = pow10(n) as int;
            assert(le_value(before) + d * p + q * (10 * p) == le_value(before) + (q * 10 + d) * p)
                by (nonlinear_arith);
            assert(is_digit_values(out@)) by {
                assert forall|k: int| 0 <= k < out@.len() implies #[trigger] out@[k] < 10 by {
                    if k < before.len() {
                        assert(out@[k] == before[k]);
                    }
                }
            }
        }
        rest = rest / 10;
    }
    proof {
        lemma_mul_basics(pow10(out@.len()) as int);
        if out@.len() == 0 {
            assert(le_value(out@) == 0);
        } else {
            lemma_le_top(out@);
            lemma_pow10_positive((out@.len() - 1) as nat);
        }
    }
    out
}

/// Multiplies least-significant-first digits by `factor`, keeping them normal.
fn le_mul(ds: &mut Vec<u8>, factor: u32)
    requires
        is_digit_values(old(ds)@),
        le_normal(old(ds)@),
    ensures
        is_digit_values(final(ds)@),
        le_normal(final(ds)@),
        le_value(final(ds)@) == le_value(old(ds)@) * factor,
{
    let ghost initial = ds@;
    if factor == 0 {
        ds.clear();
        proof {
            assert(ds@ =~= Seq::<u8>::empty());
            lemma_mul_basics(le_value(initial) as int);
        }
        return;
    }
    let len = ds.len();
    let k = factor as u64;
    let mut carry: u64 = 0;
    let mut i: usize = 0;
    proof {
        assert(initial.take(0) =~= Seq::<u8>::empty());
        assert(ds@.take(0) =~= Seq::<u8>::empty());
        assert(pow10(0) == 1);
        lemma_mul_basics(k as int);
        lemma_mul_basics(pow10(0) as int);
    }
    while i < len
        invariant
            len == ds@.len(),
            len == initial.len(),
            i <= len,
            k == factor,
            k >= 1,
            carry < k,
            is_digit_values(ds@),
            is_digit_values(initial),
            forall|j: int| i <= j < len ==> ds@[j] == initial[j],
            le_value(ds@.take(i as int)) + carry * pow10(i as nat) == le_value(initial.take(i as int))
                * k,
        decreases len - i,
    {
        let d = ds[i];
        proof {
            assert(ds@[i as int] < 10);
            assert(d as u64 * k <= 9 * 0xffff_ffff) by (nonlinear_arith)
                requires
                    d < 10,
                    k <= 0xffff_ffff,
            ;
        }
        let product = d as u64 * k + carry;
        let ghost before = ds@;
        let nd = (product % 10) as u8;
        ds.set(i, nd);
        let ghost c0 = carry as int;
        carry = product / 10;
        proof {
            assert(d < 10);
            assert(product < 10 * k) by (nonlinear_arith)
                requires
                    product == d * k + c0,
                    d <= 9,
                    c0 < k,
            ;
            lemma_le_take_next(ds@, i as int);
            lemma_le_take_next(initial, i as int);
            assert(ds@.take(i as int) =~= before.take(i as int));
            assert(pow10((i + 1) as nat) == 10 * pow10(i as nat));
            let p = pow10(i as nat) as int;
            let a = le_value(before.take(i as int)) as int;
            let o = le_value(initial.take(i as int)) as int;
            let q = carry as int;
            assert(a + nd * p + q * (10 * p) == (o + d * p) * k) by (nonlinear_arith)
                requires
                    a + c0 * p == o * k,
                    product == nd + 10 * q,
                    product == d * k + c0,
            ;
            assert(is_digit_values(ds@)) by {
                assert forall|j: int| 0 <= j < ds@.len() implies #[trigger] ds@[j] < 10 by {
                    if j != i {
                        assert(ds@[j] == before[j]);
                    }
                }
            }
        }
        i = i + 1;
    }
    proof {
        assert(ds@.take(len as int) =~= ds@);
        assert(initial.take(len as int) =~= initial);
    }
    let ghost target = le_value(initial) * k;
    while carry > 0
        invariant
            is_digit_values(ds@),
            ds@.len() >= len,
            le_value(ds@) + carry * pow10(ds@.len()) == target,
            ds@.len() > len ==> carry > 0 || ds@.last() != 0,
            ds@.len() == len ==> le_value(ds@) + carry * pow10(len as nat) == target,
        decreases carry,
    {
        let d = (carry % 10) as u8;
        let ghost before = ds@;
        ds.push(d);
        proof {
            lemma_le_push(before, d);
            let n = before.len();
            assert(pow10(n + 1) == 10 * pow10(n));
            let q = (carry / 10) as int;
            let p = pow10(n) as int;
            assert(le_value(before) + d * p + q * (10 * p) == le_value(before) + (q * 10 + d) * p)
                by (nonlinear_arith);
            assert(is_digit_values(ds@)) by {
                assert forall|j: int| 0 <= j < ds@.len() implies #[trigger] ds@[j] < 10 by {
                    if j < before.len() {
                        assert(ds@[j] == before[j]);
                    }
                }
            }
        }
        carry = carry / 10;
    }
    proof {
        lemma_mul_basics(pow10(ds@.len()) as int);
        if ds@.len() == len && len > 0 {
            lemma_le_top(initial);
            lemma_le_top(ds@);
            let o = le_value(initial) as int;
            assert(o * k >= o) by (nonlinear_arith)
                requires
                    k >= 1,
                    o >= 0,
            ;
        }
    }
}

/// `m × 2^e` written over `10^(-e)` when `e` is negative: the integer whose decimal
/// digits the exact value has.
pub open spec fn binary_scaled(m: nat, e: int) -> nat {
    if e >= 0 {
        (m * pow(2, e as nat)) as nat
    } else {
        (m * pow(5, (-e) as nat)) as nat
    }
}

/// The decimal exponent of the last significant digit of `v × 10^min(e, 0)`.
pub open spec fn decimal_exponent_of(v: nat, e: int) -> int {
    if v == 0 {
        0
    } else {
        (if e < 0 {
            e
        } else {
            0
        }) + trailing_zeros(v)
    }
}

/// An exact decimal `±digits × 10^exponent`, most significant digit first, with no
/// leading or trailing zero digit, no digits and exponent zero for zero, and no sign
/// on zero.
pub struct ExactDecimal {
    pub digits: Vec<u8>,
    pub exponent: i128,
    pub negative: bool,
}

impl ExactDecimal {
    /// The normal form of `±v × 10^shift`.
    pub open spec fn of_value(self, v: nat, shift: int, negative: bool) -> bool {
        &&& self.digits@ == significand_digits(v)
        &&& self.exponent == decimal_exponent_of(v, shift)
        &&& self.negative == (negative && v != 0)
    }

    /// The exact decimal of `±m × 2^e × factor`.
    pub fn of_binary(m: u64, e: i32, factor: u32, negative: bool) -> (r: Self)
        requires
            -2000 <= e <= 2000,
        ensures
            r.of_value(binary_scaled(m as nat, e as int) * (factor as nat), e as int, negative),
            is_digit_values(r.digits@),
            -2000 <= r.exponent <= usize::MAX,
    {
        let mut ds = le_digits_of(m);
        let count: u32 = if e < 0 {
            (0 - e) as u32
        } else {
            e as u32
        };
        let base: u32 = if e < 0 {
            5
        } else {
            2
        };
        let ghost b = base as int;
        let mut i: u32 = 0;
        proof {
            assert(pow(b, 0) == 1) by {
                reveal_with_fuel(pow, 1);
            }
            lemma_mul_basics(m as int);
        }
        while i < count
            invariant
                i <= count,
                b == base as int,
                is_digit_values(ds@),
                le_normal(ds@),
                le_value(ds@) == m * pow(b, i as nat),
            decreases count - i,
        {
            let ghost before = le_value(ds@);
            le_mul(&mut ds, base);
            proof {
                lemma_pow_adds(b, i as nat, 1);
                assert(pow(b, 1) == b) by {
                    reveal_with_fuel(pow, 2);
                }
                lemma_mul_is_associative(m as int, pow(b, i as nat), b);
            }
            i = i + 1;
        }
        le_mul(&mut ds, factor);
        proof {
            if e >= 0 {
                assert(count == e as nat);
                assert(b == 2);
            } else {
                assert(count == (-e) as nat);
                assert(b == 5);
            }
            lemma_pow_positive(b, count as nat);
            lemma_mul_nonnegative(m as int, pow(b, count as nat));
        }
        let ghost v = le_value(ds@);
        assert(v == binary_scaled(m as nat, e as int) * (factor as nat));
        let shift: i128 = if e < 0 {
            e as i128
        } else {
            0
        };
        Self::from_le(ds, shift, negative)
    }

    /// Normalizes least-significant-first digits, scaled by `10^shift`.
    fn from_le(ds: Vec<u8>, shift: i128, negative: bool) -> (r: Self)
        requires
            is_digit_values(ds@),
            le_normal(ds@),
            -2000 <= shift <= 0,
        ensures
            r.of_value(le_value(ds@), shift as int, negative),
            is_digit_values(r.digits@),
            -2000 <= r.exponent <= usize::MAX,
    {
        let len = ds.len();
        if len == 0 {
            proof {
                assert(le_value(ds@) == 0);
                assert(significand_digits(0) =~= Seq::<u8>::empty());
            }
            return ExactDecimal { digits: Vec::new(), exponent: 0, negative: false };
        }
        proof {
            lemma_le_top(ds@);
            lemma_pow10_positive((len - 1) as nat);
        }
        let mut t: usize = 0;
        while ds[t] == 0
            invariant
                t < len,
                len == ds@.len(),
                le_normal(ds@),
                forall|j: int| 0 <= j < t ==> ds@[j] == 0,
            decreases len - t,
        {
            t = t + 1;
        }
        let mut out: Vec<u8> = Vec::new();
        let mut j: usize = len;
        proof {
            assert(ds@.subrange(len as int, len as int) =~= Seq::<u8>::empty());
        }
        while j > t
            invariant
                t < j <= len || j == t,
                t < len,
                len == ds@.len(),
                is_digit_values(ds@),
                is_digit_values(out@),
                out@.len() == len - j,
                out@.len() > 0 ==> out@[0] == ds@[len - 1],
                digits_value(out@) == le_value(ds@.subrange(j as int, len as int)),
            decreases j,
        {
            j = j - 1;
            let d = ds[j];
            let ghost before = out@;
            out.push(d);
            proof {
                assert(ds@.subrange(j as int, len as int).drop_first() =~= ds@.subrange(
                    j + 1,
                    len as int,
                ));
                assert(ds@.subrange(j as int, len as int)[0] == d);
                assert(out@.drop_last() =~= before);
                assert(is_digit_values(out@)) by {
                    assert forall|k: int| 0 <= k < out@.len() implies #[trigger] out@[k] < 10 by {
                        if k < before.len() {
                            assert(out@[k] == before[k]);
                        }
                    }
                }
            }
        }
        proof {
            let w_seq = ds@.skip(t as int);
            assert(ds@.subrange(t as int, len as int) =~= w_seq);
            lemma_le_low_zeros(ds@, t as int);
            let w = le_value(w_seq);
            assert(w_seq[0] == ds@[t as int]);
            let q = le_value(w_seq.drop_first());
            lemma_fundamental_div_mod_converse(w as int, 10, q as int, ds@[t as int] as int);
            assert(w % 10 != 0);
            lemma_trailing_zeros_of(w, t as nat);
            assert(out@[0] != 0);
            lemma_decimal_digits_unique(out@);
            assert(le_value(ds@) == w * pow10(t as nat));
            assert(le_value(ds@) != 0) by {
                lemma_pow10_positive(t as nat);
                assert(w >= 1);
                assert(w * pow10(t as nat) >= 1) by (nonlinear_arith)
                    requires
                        w >= 1,
                        pow10(t as nat) >= 1,
                ;
            }
        }
        ExactDecimal { digits: out, exponent: shift + t as i128, negative }
    }
}

/// The biased exponent field of a binary32 bit pattern.
pub open spec fn binary32_field(bits: u32) -> int {
    (bits as int / 0x80_0000) % 0x100
}

/// The integer significand of a binary32 bit pattern.
pub open spec fn binary32_coefficient(bits: u32) -> nat {
    let fraction = (bits as int % 0x80_0000) as nat;
    if binary32_field(bits) == 0 {
        fraction
    } else {
        fraction + 0x80_0000
    }
}

/// The power of two that scales the significand.
pub open spec fn binary32_exponent(bits: u32) -> int {
    if binary32_field(bits) == 0 {
        -149
    } else {
        binary32_field(bits) - 150
    }
}

pub open spec fn binary32_sign(bits: u32) -> bool {
    bits >= 0x8000_0000
}

/// Neither an infinity nor a NaN.
pub open spec fn binary32_finite(bits: u32) -> bool {
    binary32_field(bits) != 0xff
}

/// How many decimal places the exact value has beyond its decimal integer.
pub open spec fn binary32_shift(bits: u32) -> nat {
    if binary32_exponent(bits) < 0 {
        (-binary32_exponent(bits)) as nat
    } else {
        0
    }
}

/// The exact magnitude's decimal integer: the value is this times `10^min(exponent, 0)`.
pub open spec fn binary32_scaled(bits: u32) -> nat {
    binary_scaled(binary32_coefficient(bits), binary32_exponent(bits))
}

/// The biased exponent field of a binary64 bit pattern.
pub open spec fn binary64_field(bits: u64) -> int {
    (bits as int / 0x10_0000_0000_0000) % 0x800
}

/// The integer significand of a binary64 bit pattern.
pub open spec fn binary64_coefficient(bits: u64) -> nat {
    let fraction = (bits as int % 0x10_0000_0000_0000) as nat;
    if binary64_field(bits) == 0 {
        fraction
    } else {
        fraction + 0x10_0000_0000_0000
    }
}

pub open spec fn binary64_exponent(bits: u64) -> int {
    if binary64_field(bits) == 0 {
        -1074
    } else {
        binary64_field(bits) - 1075
    }
}

/// The significand and binary exponent of a binary32 bit pattern.
fn binary32_parts(bits: u32) -> (r: (u64, i32))
    ensures
        r.0 == binary32_coefficient(bits),
        r.1 == binary32_exponent(bits),
        -149 <= r.1 <= 105,
{
    let field = (bits / 0x80_0000) % 0x100;
    let fraction = bits % 0x80_0000;
    if field == 0 {
        (fraction as u64, -149)
    } else {
        (fraction as u64 + 0x80_0000, field as i32 - 150)
    }
}

/// The significand and binary exponent of a binary64 bit pattern, sign ignored.
fn binary64_parts(bits: u64) -> (r: (u64, i32))
    ensures
        r.0 == binary64_coefficient(bits),
        r.1 == binary64_exponent(bits),
        -1074 <= r.1 <= 972,
{
    let field = (bits / 0x10_0000_0000_0000) % 0x800;
    let fraction = bits % 0x10_0000_0000_0000;
    if field == 0 {
        (fraction, -1074)
    } else {
        (fraction + 0x10_0000_0000_0000, field as i32 - 1075)
    }
}

/// Whether two digit strings are the same.
fn same_digits(a: &Vec<u8>, b: &Vec<u8>) -> (r: bool)
    ensures
        r == (a@ == b@),
{
    if a.len() != b.len() {
        return false;
    }
    let mut i: usize = 0;
    while i < a.len()
        invariant
            i <= a.len(),
            a.len() == b.len(),
            forall|j: int| 0 <= j < i ==> a@[j] == b@[j],
        decreases a.len() - i,
    {
        if a[i] != b[i] {
            return false;
        }
        i = i + 1;
    }
    proof {
        assert(a@ =~= b@);
    }
    true
}

impl ExactDecimal {
    /// The exact decimal of a binary32 value, given by its bit pattern.
    pub fn binary32(bits: u32) -> (r: Self)
        ensures
            r.of_value(binary32_scaled(bits), binary32_exponent(bits), binary32_sign(bits)),
            is_digit_values(r.digits@),
    {
        let (m, e) = binary32_parts(bits);
        let r = Self::of_binary(m, e, 1, bits >= 0x8000_0000);
        proof {
            lemma_mul_basics(binary32_scaled(bits) as int);
        }
        r
    }

    /// Whether two normal forms are the same.
    pub fn same(&self, other: &Self) -> (r: bool)
        ensures
            r == (self.digits@ == other.digits@ && self.exponent == other.exponent
                && self.negative == other.negative),
    {
        same_digits(&self.digits, &other.digits) && self.exponent == other.exponent
            && self.negative == other.negative
    }
}

/// Fixed-notation text of a binary32 value's exact decimal, a percentage as the
/// fraction it stands for, within `limit` bytes.
pub fn serialize_binary32(bits: u32, percentage: bool, limit: usize) -> (r: SerializationResult<
    String,
>)
    ensures
        string_outcome(
            r,
            format_outcome(
                significand_digits(binary32_scaled(bits)),
                decimal_exponent_of(binary32_scaled(bits), binary32_exponent(bits)) - if percentage {
                    2int
                } else {
                    0int
                },
                binary32_sign(bits) && binary32_scaled(bits) != 0,
                limit as int,
            ),
        ),
{
    let value = ExactDecimal::binary32(bits);
    let shift: i128 = if percentage {
        2
    } else {
        0
    };
    format_digits(&value.digits, value.exponent - shift, value.negative, limit)
}

/// Whether `left × numerator / denominator == right` exactly, for finite binary32
/// operands given by their bit patterns: both products have the same exact decimal.
pub fn binary32_scaled_eq(left: u32, numerator: u32, denominator: u32, right: u32) -> (r: bool)
    ensures
        r == (binary32_finite(left) && binary32_finite(right) && denominator != 0 && {
            let a = binary32_scaled(left) * (numerator as nat);
            let b = binary32_scaled(right) * (denominator as nat);
            &&& significand_digits(a) == significand_digits(b)
            &&& decimal_exponent_of(a, binary32_exponent(left)) == decimal_exponent_of(
                b,
                binary32_exponent(right),
            )
            &&& (binary32_sign(left) && a != 0) == (binary32_sign(right) && b != 0)
        }),
        r == (binary32_finite(left) && binary32_finite(right) && denominator != 0
            && signed_magnitude(binary32_sign(left), binary32_scaled(left) * (numerator as nat))
            * pow10(binary32_shift(right)) == signed_magnitude(
            binary32_sign(right),
            binary32_scaled(right) * (denominator as nat),
        ) * pow10(binary32_shift(left))),
{
    proof {
        let a = binary32_scaled(left) * (numerator as nat);
        let b = binary32_scaled(right) * (denominator as nat);
        let x = -(binary32_shift(left) as int);
        let y = -(binary32_shift(right) as int);
        assert(decimal_exponent_of(a, x) == decimal_exponent_of(a, binary32_exponent(left)));
        assert(decimal_exponent_of(b, y) == decimal_exponent_of(b, binary32_exponent(right)));
        lemma_normal_form_decides_equality(
            a,
            x,
            binary32_sign(left),
            b,
            y,
            binary32_sign(right),
        );
    }
    if (left / 0x80_0000) % 0x100 == 0xff || (right / 0x80_0000) % 0x100 == 0xff || denominator
        == 0 {
        return false;
    }
    let (lm, le) = binary32_parts(left);
    let (rm, re) = binary32_parts(right);
    let a = ExactDecimal::of_binary(lm, le, numerator, left >= 0x8000_0000);
    let b = ExactDecimal::of_binary(rm, re, denominator, right >= 0x8000_0000);
    a.same(&b)
}

/// Whether a binary64 magnitude (its sign bit ignored) is exactly
/// `coefficient × 10^exponent`, for a nonzero coefficient: both have the same exact
/// decimal.
pub fn binary64_equals_decimal(bits: u64, coefficient: u64, exponent: i32) -> (r: bool)
    ensures
        r == (coefficient != 0 && {
            let v = binary_scaled(binary64_coefficient(bits), binary64_exponent(bits));
            &&& significand_digits(v) == significand_digits(coefficient as nat)
            &&& decimal_exponent_of(v, binary64_exponent(bits)) == exponent + trailing_zeros(
                coefficient as nat,
            )
        }),
{
    if coefficient == 0 {
        return false;
    }
    let (m, e) = binary64_parts(bits);
    let value = ExactDecimal::of_binary(m, e, 1, false);
    let written = ExactDecimal::of_binary(coefficient, 0, 1, false);
    proof {
        let v = binary_scaled(binary64_coefficient(bits), binary64_exponent(bits));
        lemma_mul_basics(v as int);
        assert(pow(2, 0) == 1) by {
            reveal_with_fuel(pow, 1);
        }
        lemma_mul_basics(coefficient as int);
        assert(binary_scaled(coefficient as nat, 0) == coefficient);
        lemma_mul_basics(binary_scaled(coefficient as nat, 0) as int);
    }
    same_digits(&value.digits, &written.digits) && value.exponent == exponent as i128
        + written.exponent
}

/// Whether a binary32 candidate holds exactly the value of an authored decimal token:
/// `Some` of the candidate's bits (of zero for a zero token) when it does; `None` when
/// the token has more than 192 significant digits or an exponent outside `i128`, when
/// there is no finite candidate, or when it differs.
pub fn exact_legacy_bits(text: &str, candidate: Option<u32>) -> (r: Option<u32>)
    requires
        numeric_syntax(text.spec_bytes()),
    ensures
        ({
            let t = text.spec_bytes();
            if significant_digits(t).len() > 192 || (has_significant(t) && lexical_exponent(t) is None) {
                r is None
            } else if !has_significant(t) {
                r == Some(0u32)
            } else {
                match candidate {
                    None => r is None,
                    Some(c) => {
                        let v = binary32_scaled(c);
                        r == if binary32_finite(c) && significand_digits(v) == significant_digits(t)
                            && decimal_exponent_of(v, binary32_exponent(c)) == lexical_exponent(
                            t,
                        )->Some_0 && (binary32_sign(c) && v != 0) == (t[0] == 45) {
                            Some(c)
                        } else {
                            None
                        }
                    },
                }
            }
        }),
{
    let lexical = LexicalDecimal::new(text.as_bytes());
    if lexical.len > 192 {
        return None;
    }
    let exponent = match lexical.exponent {
        Some(e) => e,
        None => {
            return None;
        },
    };
    if lexical.len == 0 {
        return Some(0);
    }
    let c = match candidate {
        Some(c) => c,
        None => {
            return None;
        },
    };
    if (c / 0x80_0000) % 0x100 == 0xff {
        return None;
    }
    let value = ExactDecimal::binary32(c);
    let digits = significant_digit_values(&lexical);
    if same_digits(&value.digits, &digits) && value.exponent == exponent && value.negative
        == lexical.negative {
        Some(c)
    } else {
        None
    }
}

/// `a` with the sign `negative`.
pub open spec fn signed_magnitude(negative: bool, a: nat) -> int {
    if negative {
        -(a as int)
    } else {
        a as int
    }
}

/// The decimal digits of a number read back give the number.
pub proof fn lemma_digits_value_decimal(v: nat)
    ensures
        digits_value(decimal_digits(v)) == v,
    decreases v,
{
    if v < 10 {
        assert(decimal_len_of(v) == 1);
        assert(fixed_digits(v, 1) == fixed_digits(v / 10, 0).push((v % 10) as u8));
        assert(fixed_digits(v / 10, 0) =~= Seq::<u8>::empty());
        let d = decimal_digits(v);
        assert(d.drop_last() =~= Seq::<u8>::empty());
        assert(digits_value(d.drop_last()) == 0);
    } else {
        lemma_digits_value_decimal(v / 10);
        assert(decimal_len_of(v) == 1 + decimal_len_of(v / 10));
        let d = decimal_digits(v);
        assert(d == decimal_digits(v / 10).push((v % 10) as u8));
        assert(d.drop_last() =~= decimal_digits(v / 10));
        lemma_fundamental_div_mod(v as int, 10);
    }
}

/// A positive number is its significand times ten to its trailing zero count, and the
/// significand is not a multiple of ten.
pub proof fn lemma_trailing_zeros_split(v: nat)
    requires
        v > 0,
    ensures
        v == (v / pow10(trailing_zeros(v))) * pow10(trailing_zeros(v)),
        (v / pow10(trailing_zeros(v))) % 10 != 0,
    decreases v,
{
    if v % 10 == 0 {
        let w = v / 10;
        lemma_fundamental_div_mod(v as int, 10);
        assert(w > 0);
        lemma_trailing_zeros_split(w);
        let k = trailing_zeros(w);
        assert(trailing_zeros(v) == k + 1);
        assert(pow10(k + 1) == 10 * pow10(k));
        lemma_pow10_positive(k);
        lemma_div_denominator(v as int, 10, pow10(k) as int);
        let q = w / pow10(k);
        assert(v == q * pow10(k + 1)) by (nonlinear_arith)
            requires
                v == 10 * w,
                w == q * pow10(k),
                pow10(k + 1) == 10 * pow10(k),
        ;
    } else {
        assert(trailing_zeros(v) == 0);
        assert(pow10(0) == 1);
        lemma_div_basics(v as int);
        lemma_mul_basics(v as int);
    }
}

/// A positive number has significant digits.
pub proof fn lemma_significand_nonempty(v: nat)
    requires
        v > 0,
    ensures
        significand_digits(v).len() >= 1,
{
    lemma_pow10_positive(trailing_zeros(v));
    let w = v / pow10(trailing_zeros(v));
    lemma_fixed_digits_len(w, decimal_len_of(w));
    assert(decimal_len_of(w) >= 1);
}

/// Equal significands times powers of ten with equal values have equal exponents.
proof fn lemma_scaled_unique(a: nat, i: nat, b: nat, j: nat)
    requires
        a % 10 != 0,
        b % 10 != 0,
        a * pow10(i) == b * pow10(j),
    ensures
        a == b,
        i == j,
    decreases i + j,
{
    lemma_pow10_positive(i);
    lemma_pow10_positive(j);
    if i > 0 && j > 0 {
        assert(pow10(i) == 10 * pow10((i - 1) as nat));
        assert(pow10(j) == 10 * pow10((j - 1) as nat));
        assert(a * pow10((i - 1) as nat) == b * pow10((j - 1) as nat)) by (nonlinear_arith)
            requires
                a * pow10(i) == b * pow10(j),
                pow10(i) == 10 * pow10((i - 1) as nat),
                pow10(j) == 10 * pow10((j - 1) as nat),
        ;
        lemma_scaled_unique(a, (i - 1) as nat, b, (j - 1) as nat);
    } else if i > 0 {
        assert(j == 0);
        assert(pow10(0) == 1);
        assert(pow10(i) == 10 * pow10((i - 1) as nat));
        let q = a * pow10((i - 1) as nat);
        assert(b == q * 10) by (nonlinear_arith)
            requires
                a * pow10(i) == b * 1,
                pow10(i) == 10 * pow10((i - 1) as nat),
                q == a * pow10((i - 1) as nat),
        ;
        lemma_mod_multiples_basic(q as int, 10);
    } else if j > 0 {
        assert(pow10(0) == 1);
        assert(pow10(j) == 10 * pow10((j - 1) as nat));
        let q = b * pow10((j - 1) as nat);
        assert(a == q * 10) by (nonlinear_arith)
            requires
                a * 1 == b * pow10(j),
                pow10(j) == 10 * pow10((j - 1) as nat),
                q == b * pow10((j - 1) as nat),
        ;
        lemma_mod_multiples_basic(q as int, 10);
    } else {
        assert(pow10(0) == 1);
        lemma_mul_basics(a as int);
        lemma_mul_basics(b as int);
    }
}

/// Two exact decimals `±a × 10^x` and `±b × 10^y` (with `x, y <= 0`) have the same normal
/// form exactly when they are the same number.
pub proof fn lemma_normal_form_decides_equality(
    a: nat,
    x: int,
    sa: bool,
    b: nat,
    y: int,
    sb: bool,
)
    requires
        x <= 0,
        y <= 0,
    ensures
        (significand_digits(a) == significand_digits(b) && decimal_exponent_of(a, x)
            == decimal_exponent_of(b, y) && (sa && a != 0) == (sb && b != 0)) <==> signed_magnitude(
            sa,
            a,
        ) * pow10((-y) as nat) == signed_magnitude(sb, b) * pow10((-x) as nat),
{
    let px = pow10((-x) as nat);
    let py = pow10((-y) as nat);
    lemma_pow10_positive((-x) as nat);
    lemma_pow10_positive((-y) as nat);
    if a == 0 || b == 0 {
        if a != 0 {
            lemma_significand_nonempty(a);
            assert(significand_digits(b) =~= Seq::<u8>::empty());
        }
        if b != 0 {
            lemma_significand_nonempty(b);
            assert(significand_digits(a) =~= Seq::<u8>::empty());
        }
        lemma_mul_basics(px as int);
        lemma_mul_basics(py as int);
        if a != 0 {
            assert(a * py != 0) by (nonlinear_arith)
                requires
                    a >= 1,
                    py >= 1,
            ;
            assert(signed_magnitude(sa, a) * py != 0) by {
                if sa {
                    lemma_mul_unary_negation(a as int, py as int);
                }
            }
        }
        if b != 0 {
            assert(b * px != 0) by (nonlinear_arith)
                requires
                    b >= 1,
                    px >= 1,
            ;
            assert(signed_magnitude(sb, b) * px != 0) by {
                if sb {
                    lemma_mul_unary_negation(b as int, px as int);
                }
            }
        }
        if a == 0 && b == 0 {
            assert(significand_digits(a) =~= significand_digits(b));
        }
    } else {
        let ta = trailing_zeros(a);
        let tb = trailing_zeros(b);
        let wa = a / pow10(ta);
        let wb = b / pow10(tb);
        lemma_trailing_zeros_split(a);
        lemma_trailing_zeros_split(b);
        lemma_digits_value_decimal(wa);
        lemma_digits_value_decimal(wb);
        let ea = ((-y) + ta) as nat;
        let eb = ((-x) + tb) as nat;
        lemma_pow10_add(ta, (-y) as nat);
        lemma_pow10_add(tb, (-x) as nat);
        assert(a * py == wa * pow10(ea)) by {
            lemma_mul_is_associative(wa as int, pow10(ta) as int, py as int);
        }
        assert(b * px == wb * pow10(eb)) by {
            lemma_mul_is_associative(wb as int, pow10(tb) as int, px as int);
        }
        assert(decimal_exponent_of(a, x) == x + ta);
        assert(decimal_exponent_of(b, y) == y + tb);
        assert(a * py >= 1 && b * px >= 1) by (nonlinear_arith)
            requires
                a >= 1,
                b >= 1,
                px >= 1,
                py >= 1,
        ;
        if sa {
            lemma_mul_unary_negation(a as int, py as int);
        }
        if sb {
            lemma_mul_unary_negation(b as int, px as int);
        }
        if signed_magnitude(sa, a) * py == signed_magnitude(sb, b) * px {
            assert(sa == sb);
            assert(wa * pow10(ea) == wb * pow10(eb));
            lemma_scaled_unique(wa, ea, wb, eb);
        }
        if significand_digits(a) == significand_digits(b) && x + ta == y + tb && sa == sb {
            assert(wa == wb);
            assert(ea == eb);
        }
    }
}

/// The first decimal digit of a positive number is not zero.
pub proof fn lemma_decimal_first_digit(w: nat)
    requires
        w > 0,
    ensures
        decimal_digits(w).len() >= 1,
        decimal_digits(w)[0] != 0,
    decreases w,
{
    lemma_fixed_digits_len(w, decimal_len_of(w));
    assert(decimal_len_of(w) >= 1);
    if w < 10 {
        assert(decimal_digits(w) == fixed_digits(w / 10, 0).push((w % 10) as u8));
        assert(fixed_digits(w / 10, 0) =~= Seq::<u8>::empty());
    } else {
        lemma_decimal_first_digit(w / 10);
        assert(decimal_digits(w) == decimal_digits(w / 10).push((w % 10) as u8));
    }
}

/// The last decimal digit of a number is its remainder by ten.
pub proof fn lemma_decimal_last_digit(w: nat)
    ensures
        decimal_digits(w).len() >= 1,
        decimal_digits(w).last() == w % 10,
{
    lemma_fixed_digits_len(w, decimal_len_of(w));
    assert(decimal_len_of(w) >= 1);
    assert(decimal_digits(w) == fixed_digits(w / 10, (decimal_len_of(w) - 1) as nat).push(
        (w % 10) as u8,
    ));
}

/// The ratio an exact decimal of `±n × 10^min(e, 0)` scaled by `num / den` stands for.
proof fn lemma_binary_factor_ratio(
    n: nat,
    e: int,
    num: nat,
    den: nat,
    c: nat,
    x: int,
    sign: bool,
    neg: bool,
)
    requires
        den > 0,
        n == 0 ==> c == 0 && x == 0,
        n > 0 ==> c == (n / pow10(trailing_zeros(n))) * num && x == decimal_exponent_of(n, e),
        neg == (sign && n != 0 && num != 0),
    ensures
        same_ratio(
            scaled_numerator(signed_magnitude(neg, c), x),
            scaled_denominator(den as int, x),
            signed_magnitude(sign, n) * num,
            (den * pow10(
                if e < 0 {
                    (-e) as nat
                } else {
                    0
                },
            )) as int,
        ),
{
    let shift: nat = if e < 0 {
        (-e) as nat
    } else {
        0
    };
    let sp = pow10(shift) as int;
    lemma_pow10_positive(shift);
    if n == 0 {
        assert(pow10(0) == 1);
        lemma_mul_basics(num as int);
        lemma_mul_basics((den * sp) as int);
        lemma_mul_basics(den as int);
        assert(scaled_numerator(0, 0) == 0);
        assert(signed_magnitude(sign, n) == 0);
    } else {
        let t = trailing_zeros(n);
        lemma_pow10_positive(t);
        let w = n / pow10(t);
        lemma_trailing_zeros_split(n);
        let tp = pow10(t) as int;
        let a = c as int;
        let b = (n * num) as int;
        assert(x == t - shift);
        let d1 = scaled_denominator(den as int, x);
        let n1 = scaled_numerator(a, x);
        let d2 = (den * sp) as int;
        if x >= 0 {
            let xp = pow10(x as nat) as int;
            lemma_pow10_add(x as nat, shift);
            assert(tp == xp * sp);
            assert(a * xp * (den * sp) == (n * num) * den) by (nonlinear_arith)
                requires
                    a == w * num,
                    n == w * tp,
                    tp == xp * sp,
            ;
            assert(n1 == a * xp);
            assert(d1 == den);
        } else {
            let y = (-x) as nat;
            let yp = pow10(y) as int;
            lemma_pow10_add(t, y);
            assert(sp == tp * yp);
            assert(a * (den * sp) == (n * num) * (den * yp)) by (nonlinear_arith)
                requires
                    a == w * num,
                    n == w * tp,
                    sp == tp * yp,
            ;
            assert(n1 == a);
            assert(d1 == den * yp);
        }
        assert(n1 * d2 == b * d1);
        if num == 0 {
            lemma_mul_basics(w as int);
            assert(a == 0);
            lemma_mul_basics(n as int);
            assert(b == 0);
            assert(!neg);
            lemma_mul_basics(d1);
            lemma_mul_basics(d2);
            assert(scaled_numerator(signed_magnitude(neg, c), x) == n1);
            if sign {
                assert(signed_magnitude(sign, n) * num == -(n as int) * 0);
            }
        } else if sign {
            assert(neg);
            let sn1 = scaled_numerator(-a, x);
            if x >= 0 {
                lemma_mul_unary_negation(a, pow10(x as nat) as int);
            }
            assert(sn1 == -n1);
            lemma_mul_unary_negation(n1, d2);
            lemma_mul_unary_negation(n as int, num as int);
            lemma_mul_unary_negation(b, d1);
        } else {
            assert(!neg);
        }
    }
}

/// The ASCII bytes of decimal digit values.
fn digit_bytes(digits: &Vec<u8>) -> (r: Vec<u8>)
    requires
        is_digit_values(digits@),
    ensures
        r@.len() == digits@.len(),
        digit_values_of(r@) == digits@,
        forall|k: int| 0 <= k < r@.len() ==> is_digit_byte(#[trigger] r@[k]),
{
    let mut out: Vec<u8> = Vec::new();
    let mut i: usize = 0;
    proof {
        assert(digit_values_of(Seq::<u8>::empty()) =~= Seq::<u8>::empty());
    }
    while i < digits.len()
        invariant
            i <= digits.len(),
            is_digit_values(digits@),
            out@.len() == i,
            digit_values_of(out@) == digits@.take(i as int),
            forall|k: int| 0 <= k < out@.len() ==> is_digit_byte(#[trigger] out@[k]),
        decreases digits.len() - i,
    {
        let d = digits[i];
        proof {
            assert(digits@[i as int] < 10);
        }
        let ghost before = out@;
        out.push(d + 48);
        proof {
            lemma_digit_values_append(out@, 0, i as int);
            assert(out@.subrange(0, i + 1) =~= out@);
            assert(out@.subrange(0, i as int) =~= before);
            assert(digits@.take(i + 1) =~= digits@.take(i as int).push(d));
            assert forall|k: int| 0 <= k < out@.len() implies is_digit_byte(#[trigger] out@[k]) by {
                if k < before.len() {
                    assert(out@[k] == before[k]);
                }
            }
        }
        i = i + 1;
    }
    proof {
        assert(digits@.take(digits@.len() as int) =~= digits@);
    }
    out
}


/// What the exact value of a binary32 value times `numerator` charges: the limbs of
/// its significant decimal digits, then the product's limbs.
pub open spec fn binary32_cost(bits: u32, numerator: nat) -> int {
    let d = significand_digits(binary32_scaled(bits));
    (if d.len() == 0 {
        0
    } else {
        ((d.len() + 8) / 9) as int
    }) + small_product_cost(digits_value(d), numerator)
}

impl ExactRational {
    /// The exact value of a binary32 number (given by its bit pattern) times
    /// `numerator / denominator`; an infinity, a NaN or a zero denominator is refused.
    /// The significand's limbs and the product are charged to the projection budget.
    pub fn from_binary32_factor(
        bits: u32,
        factor: ExactFactor,
        context: &mut SpecifiedSerializationContext,
    ) -> (r: SerializationResult<Self>)
        requires
            old(context).wf(),
        ensures
            final(context).wf(),
            budget_only(*old(context), *final(context)),
            !binary32_finite(bits) || factor.denominator == 0 ==> kind_error(
                r,
                CssSpecifiedValueSerializationErrorKind::CapacityOverflow,
            ) && *final(context) == *old(context),
            r matches Ok(v) ==> v.wf() && v.is_exact() && v.equals(
                signed_magnitude(binary32_sign(bits), binary32_scaled(bits)) * factor.numerator,
                (factor.denominator * pow10(binary32_shift(bits))) as int,
            ),
            r matches Err(e) ==> budget_error(e.kind),
            binary32_finite(bits) && factor.denominator > 0 && significand_digits(
                binary32_scaled(bits),
            ).len() + 8 <= usize::MAX ==> budget_charged(
                r,
                *old(context),
                *final(context),
                binary32_cost(bits, factor.numerator as nat),
            ),
    {
        if (bits / 0x80_0000) % 0x100 == 0xff || factor.denominator == 0 {
            return failure(CssSpecifiedValueSerializationErrorKind::CapacityOverflow);
        }
        let decimal = ExactDecimal::binary32(bits);
        let text = digit_bytes(&decimal.digits);
        let len = decimal.digits.len();
        let ghost n = binary32_scaled(bits);
        proof {
            assert(text@.subrange(0, len as int) =~= text@);
            assert(text@.subrange(len as int, len as int) =~= Seq::<u8>::empty());
            assert(digit_values_of(Seq::<u8>::empty()) =~= Seq::<u8>::empty());
            if len > 0 {
                lemma_pow10_positive(trailing_zeros(n));
                let w = n / pow10(trailing_zeros(n));
                lemma_trailing_zeros_split(n);
                let d = decimal.digits@;
                assert(d == decimal_digits(w));
                lemma_fixed_digits_len(w, decimal_len_of(w));
                assert(d[0] != 0) by {
                    if d[0] == 0 {
                        lemma_decimal_first_digit(w);
                    }
                }
                assert(d.last() == w % 10) by {
                    lemma_decimal_last_digit(w);
                }
            }
        }
        let lexical = LexicalDecimal {
            text: text.as_slice(),
            significant_start: 0,
            significant_end: len,
            len,
            exponent: Some(0),
            negative: false,
            exponent_negative: false,
            exponent_digits_start: len,
            exponent_adjustment: 0,
        };
        proof {
            assert(lexical.digits() == decimal.digits@);
            assert(lexical.exponent_digits() =~= Seq::<u8>::empty());
        }
        let ghost c0 = *context;
        let read = BigCoefficient::from_lexical(&lexical, context);
        proof {
            if lexical.len + 8 <= usize::MAX {
                lemma_charge_when(read, c0, *context, ((lexical.len + 8) / 9) as int, lexical.len == 0);
            }
        }
        let digits = match read {
            Ok(v) => v,
            Err(e) => {
                return Err(e);
            },
        };
        let ghost c1 = *context;
        let step = digits.mul_small(factor.numerator, context);
        proof {
            lemma_charge_when(
                step,
                c1,
                *context,
                limb_len(digits.value() * (factor.numerator as nat)) as int,
                digits.value() == 0 || factor.numerator == 0,
            );
        }
        let coefficient = match step {
            Ok(v) => v,
            Err(e) => {
                return Err(e);
            },
        };
        let negative = decimal.negative && factor.numerator != 0;
        let result = ExactRational {
            coefficient,
            exponent: decimal.exponent,
            denominator: factor.denominator,
            negative,
            unbounded_tiny: false,
        };
        proof {
            let num = factor.numerator as nat;
            if n > 0 {
                lemma_pow10_positive(trailing_zeros(n));
                let w = n / pow10(trailing_zeros(n));
                lemma_digits_value_decimal(w);
                lemma_trailing_zeros_split(n);
                assert(w > 0) by {
                    if w == 0 {
                        lemma_mul_basics(pow10(trailing_zeros(n)) as int);
                    }
                }
                if negative {
                    assert(w * num >= 1) by (nonlinear_arith)
                        requires
                            w >= 1,
                            num >= 1,
                    ;
                }
            } else {
                assert(decimal.digits@ =~= Seq::<u8>::empty());
                assert(digits_value(decimal.digits@) == 0);
                lemma_mul_basics(num as int);
            }
            lemma_binary_factor_ratio(
                n,
                binary32_exponent(bits),
                num,
                factor.denominator as nat,
                result.coefficient.value(),
                result.exponent as int,
                binary32_sign(bits),
                negative,
            );
            assert(result.signed() == signed_magnitude(negative, result.coefficient.value()));
        }
        Ok(result)
    }
}

} // verus!
