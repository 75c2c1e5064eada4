//! Exact signed rationals `±coefficient × 10^exponent / denominator` with budgeted,
//! lossless arithmetic.

use crate::bignum::{
    BigCoefficient, add_cost, base, budget_charged, budget_error, budget_tied, increment_cost, budget_only, decimal_len_of,
    div_rem_pow10_cost, from_u64_cost, lemma_charge_when, lemma_limb_len_monotonic,
    lemma_limbs_normal_len, lemma_pow10_add, lemma_pow10_monotonic, lemma_pow10_positive,
    lemma_single_charge, limb_len, mul_pow10_cost, pow10, small_product_cost,
};
use crate::serialization::{
    CssSpecifiedValueSerializationError, CssSpecifiedValueSerializationErrorKind,
    SerializationResult, SpecifiedSerializationContext,
};
use vstd::arithmetic::div_mod::*;
use vstd::arithmetic::mul::*;
use vstd::arithmetic::power::*;
use vstd::prelude::*;

verus! {

broadcast use crate::bignum::lemma_charge_only_budget;

/// An exact positive ratio applied while converting authored text.
#[derive(Clone, Copy, Debug)]
pub struct ExactFactor {
    pub numerator: u64,
    pub denominator: u64,
}

/// `±coefficient × 10^exponent / denominator`. A value marked `unbounded_tiny` is
/// positive and smaller than any value with an `i128` exponent; its fields other than
/// the coefficient carry no magnitude.
#[derive(Debug)]
pub struct ExactRational {
    pub coefficient: BigCoefficient,
    pub exponent: i128,
    pub denominator: u64,
    pub negative: bool,
    pub unbounded_tiny: bool,
}

/// `n × 10^e` as the numerator of a fraction with denominator `scaled_denominator(d, e)`.
pub open spec fn scaled_numerator(n: int, e: int) -> int {
    if e >= 0 {
        n * pow10(e as nat)
    } else {
        n
    }
}

pub open spec fn scaled_denominator(d: int, e: int) -> int {
    if e >= 0 {
        d
    } else {
        d * pow10((-e) as nat)
    }
}

/// `p1 / q1 == p2 / q2` for positive denominators.
pub open spec fn same_ratio(p1: int, q1: int, p2: int, q2: int) -> bool {
    p1 * q2 == p2 * q1
}

/// The sign of `x - y`.
pub open spec fn sign_diff(x: int, y: int) -> int {
    if x < y {
        -1
    } else if x == y {
        0
    } else {
        1
    }
}

/// The sign of `p1 / q1 - p2 / q2` for positive denominators.
pub open spec fn ratio_order(p1: int, q1: int, p2: int, q2: int) -> int {
    sign_diff(p1 * q2, p2 * q1)
}

/// The exact order of fractions with positive denominators is a total order: a value
/// equals itself, swapping the operands reverses the order, and the order is transitive.
pub proof fn lemma_ratio_order_total(p1: int, q1: int, p2: int, q2: int, p3: int, q3: int)
    requires
        q1 > 0,
        q2 > 0,
        q3 > 0,
    ensures
        ratio_order(p1, q1, p1, q1) == 0,
        ratio_order(p1, q1, p2, q2) == -ratio_order(p2, q2, p1, q1),
        ratio_order(p1, q1, p2, q2) <= 0 && ratio_order(p2, q2, p3, q3) <= 0 ==> ratio_order(
            p1,
            q1,
            p3,
            q3,
        ) <= 0,
{
    assert(p1 * q1 == p1 * q1);
    if p1 * q2 <= p2 * q1 && p2 * q3 <= p3 * q2 {
        assert(p1 * q3 <= p3 * q1) by (nonlinear_arith)
            requires
                p1 * q2 <= p2 * q1,
                p2 * q3 <= p3 * q2,
                q1 > 0,
                q2 > 0,
                q3 > 0,
        ;
    }
}

/// The machine integers of rounding `c / d` at `10^-p` hold their values: the shift
/// is addressable and twice the remainder is a small addend.
pub open spec fn fraction_fits(c: nat, d: nat, p: nat) -> bool {
    p > decimal_len_of(c) || (p <= usize::MAX && 2 * (c % d) < u64::MAX - base())
}

/// What rounding `c / d` at `10^-p` charges: nothing when the value is below the last
/// place; otherwise dividing by `d`, splitting off `p` digits, doubling the low part
/// times `d` plus the remainder, and, when its digits tie with `d × 10^p`, storing
/// that bound.
pub open spec fn fraction_cost(c: nat, d: nat, p: nat) -> int {
    if p > decimal_len_of(c) {
        0
    } else {
        let whole = c / d;
        let low = whole % pow10(p);
        let dr = c % d;
        let res = low * d * 2 + 2 * dr;
        limb_len(c) + div_rem_pow10_cost(whole, p) + small_product_cost(low, d)
            + small_product_cost(low * d, 2) + add_cost(low * d * 2, 2 * dr) + if decimal_len_of(
            res,
        ) == decimal_len_of(d) + p {
            from_u64_cost(d) + mul_pow10_cost(d, p)
        } else {
            0
        }
    }
}

proof fn lemma_fraction_cost_parts(c: nat, d: nat, p: nat)
    requires
        d > 0,
    ensures
        add_cost((c / d) % pow10(p) * d * 2, 2 * (c % d)) >= 0,
        div_rem_pow10_cost(c / d, p) >= 0,
{
    lemma_limb_len_monotonic((c / d) % pow10(p) * d * 2, (c / d) % pow10(p) * d * 2 + 2 * (c % d));
}

/// What scaling `c` by `10^s` and dividing by the denominator charges.
pub open spec fn whole_cost(c: nat, s: nat) -> int {
    mul_pow10_cost(c, s) + small_product_cost(c, pow10(s))
}

proof fn lemma_whole_cost_parts(c: nat, s: nat)
    ensures
        small_product_cost(c, pow10(s)) >= 0,
        mul_pow10_cost(c, s) >= 0,
{
}

/// The value `n / d` of a value's parts: the signed coefficient scaled by a positive
/// exponent, the denominator by a negative one.
pub open spec fn parts_num(a: RationalParts) -> int {
    scaled_numerator(
        if a.3 {
            -(a.0 as int)
        } else {
            a.0 as int
        },
        a.1,
    )
}

pub open spec fn parts_den(a: RationalParts) -> int {
    scaled_denominator(a.2 as int, a.1)
}

/// The parts of a value after its common factor is divided out.
pub open spec fn reduced_parts(x: ExactRational) -> RationalParts {
    let c = x.coefficient.value();
    let d = x.denominator as nat;
    (
        reduced_coefficient(c, d),
        if c == 0 {
            0
        } else {
            x.exponent as int
        },
        reduced_denominator(c, d),
        x.negative,
        x.unbounded_tiny,
    )
}

/// What writing a value exactly or rounded charges: the reduction, then the
/// terminating expansion or the rounding.
pub open spec fn exact_or_rounded_cost(x: ExactRational, places: nat) -> int {
    let vp = reduced_parts(x);
    reduce_cost(x.coefficient.value(), x.denominator as nat) + if strip_two_five(vp.2) == 1 {
        terminating_cost(vp.0, vp.2)
    } else {
        rounding_cost(vp, places)
    }
}

/// The machine integers of writing a value exactly or rounded hold their values.
pub open spec fn exact_or_rounded_fits(x: ExactRational, places: nat, byte_limit: nat) -> bool {
    let vp = reduced_parts(x);
    &&& x.is_exact()
    &&& strip_two_five(vp.2) == 1 ==> exact_fits(vp, byte_limit)
    &&& strip_two_five(vp.2) != 1 ==> rounding_fits(vp, places, byte_limit)
}

/// The text a value is written as: its exact expansion when it terminates, otherwise
/// its rounding.
pub open spec fn exact_or_rounded_text(x: ExactRational, places: nat) -> Seq<u8> {
    let vp = reduced_parts(x);
    if strip_two_five(vp.2) == 1 {
        exact_text(parts_num(vp), parts_den(vp))
    } else {
        rounded_text(x.num(), x.den(), places)
    }
}

proof fn lemma_terminating_cost_nonneg(c: nat, d: nat)
    ensures
        terminating_cost(c, d) >= 0,
{
    let (t, f) = terminating_powers(c, d);
    if t >= f {
        lemma_times_five_grows(reduced_coefficient(c, d), 0, (t - f) as nat);
    } else {
        lemma_times_two_grows(reduced_coefficient(c, d), 0, (f - t) as nat);
    }
}

proof fn lemma_rounding_cost_nonneg(a: RationalParts, places: nat)
    requires
        a.2 > 0,
    ensures
        rounding_cost(a, places) >= 0,
{
    if !(a.4 || a.0 == 0) {
        let shift = a.1 + places;
        if shift < 0 {
            let p = (-shift) as nat;
            if p <= decimal_len_of(a.0) {
                lemma_fraction_cost_parts(a.0, a.2, p);
            }
        }
    }
}

/// Whether rounding to `places` places rounds the magnitude up.
pub open spec fn rounds_up(a: RationalParts, places: nat) -> bool {
    let mn = (a.0 * pow10(pos_part(a.1))) as int;
    let md = (a.2 * pow10(neg_part(a.1))) as int;
    let s = sign_diff(2 * ((mn * pow10(places)) % md), md);
    s == 1 || (s == 0 && !a.3)
}

/// What rounding to `places` places charges: the scaling and division of the
/// coefficient, then one more limb when rounding up carries into a new one.
pub open spec fn rounding_cost(a: RationalParts, places: nat) -> int {
    if a.4 || a.0 == 0 {
        0
    } else {
        let shift = a.1 + places;
        let mn = (a.0 * pow10(pos_part(a.1))) as int;
        let md = (a.2 * pow10(neg_part(a.1))) as int;
        (if shift >= 0 {
            whole_cost(a.0, shift as nat)
        } else {
            fraction_cost(a.0, a.2, (-shift) as nat)
        }) + if rounds_up(a, places) {
            increment_cost(((mn * pow10(places)) / md) as nat)
        } else {
            0
        }
    }
}

/// The machine integers of rounding hold their values, and the shift alone does not
/// already rule out the byte limit.
pub open spec fn rounding_fits(a: RationalParts, places: nat, byte_limit: nat) -> bool {
    &&& byte_limit <= isize::MAX
    &&& (a.4 || a.0 == 0 || {
        let shift = a.1 + places;
        &&& i128::MIN < shift <= i128::MAX
        &&& shift >= 0 ==> shift <= byte_limit + decimal_len_of(a.2) && shift <= usize::MAX
        &&& shift < 0 ==> fraction_fits(a.0, a.2, (-shift) as nat)
    })
}

impl ExactRational {
    pub open spec fn wf(&self) -> bool {
        &&& self.coefficient.wf()
        &&& self.denominator > 0
        &&& self.negative ==> self.coefficient.value() > 0
        &&& self.unbounded_tiny ==> !self.negative
    }

    /// The coefficient's digit count fits in `usize`, as that of any coefficient held in memory.
    pub open spec fn addressable(&self) -> bool {
        crate::bignum::decimal_len_of(self.coefficient.value()) <= usize::MAX
    }

    /// Every field but the coefficient's storage agrees.
    pub open spec fn same_fields(&self, other: &Self) -> bool {
        &&& self.coefficient.value() == other.coefficient.value()
        &&& self.exponent == other.exponent
        &&& self.denominator == other.denominator
        &&& self.negative == other.negative
        &&& self.unbounded_tiny == other.unbounded_tiny
    }

    /// The signed coefficient.
    pub open spec fn signed(&self) -> int {
        if self.negative {
            -(self.coefficient.value() as int)
        } else {
            self.coefficient.value() as int
        }
    }

    /// The value is `num() / den()`.
    pub open spec fn num(&self) -> int {
        scaled_numerator(self.signed(), self.exponent as int)
    }

    pub open spec fn den(&self) -> int {
        scaled_denominator(self.denominator as int, self.exponent as int)
    }

    /// The value is `num() / den()` exactly.
    pub open spec fn is_exact(&self) -> bool {
        !self.unbounded_tiny
    }

    /// The value equals `p / q`.
    pub open spec fn equals(&self, p: int, q: int) -> bool {
        same_ratio(self.num(), self.den(), p, q)
    }
}

pub proof fn lemma_den_positive(d: int, e: int)
    requires
        d > 0,
    ensures
        scaled_denominator(d, e) > 0,
{
    if e < 0 {
        lemma_pow10_positive((-e) as nat);
        lemma_mul_strictly_positive(d, pow10((-e) as nat) as int);
    }
}

/// Scaling a fraction's numerator and denominator by `k` keeps its value.
pub proof fn lemma_scaled_numerator_mul(n: int, k: int, e: int)
    ensures
        scaled_numerator(n * k, e) == scaled_numerator(n, e) * k,
        scaled_denominator(n * k, e) == scaled_denominator(n, e) * k,
{
    if e >= 0 {
        lemma_mul_is_associative(n, k, pow10(e as nat) as int);
        lemma_mul_is_associative(n, pow10(e as nat) as int, k);
        lemma_mul_is_commutative(k, pow10(e as nat) as int);
    } else {
        lemma_mul_is_associative(n, k, pow10((-e) as nat) as int);
        lemma_mul_is_associative(n, pow10((-e) as nat) as int, k);
        lemma_mul_is_commutative(k, pow10((-e) as nat) as int);
    }
}

pub proof fn lemma_scaled_numerator_add(a: int, b: int, e: int)
    ensures
        scaled_numerator(a + b, e) == scaled_numerator(a, e) + scaled_numerator(b, e),
{
    if e >= 0 {
        lemma_mul_is_distributive_add_other_way(pow10(e as nat) as int, a, b);
    }
}

pub proof fn lemma_scaled_numerator_neg(a: int, e: int)
    ensures
        scaled_numerator(-a, e) == -scaled_numerator(a, e),
{
    if e >= 0 {
        lemma_mul_unary_negation(a, pow10(e as nat) as int);
    }
}

pub proof fn lemma_same_ratio_scale(p: int, q: int, k: int)
    ensures
        same_ratio(p * k, q * k, p, q),
{
    assert(p * k * q == p * (q * k)) by (nonlinear_arith);
}

pub proof fn lemma_same_ratio_trans(p1: int, q1: int, p2: int, q2: int, p3: int, q3: int)
    requires
        same_ratio(p1, q1, p2, q2),
        same_ratio(p2, q2, p3, q3),
        q2 > 0,
    ensures
        same_ratio(p1, q1, p3, q3),
{
    assert(p1 * q3 == p3 * q1) by (nonlinear_arith)
        requires
            p1 * q2 == p2 * q1,
            p2 * q3 == p3 * q2,
            q2 > 0,
    ;
}

pub proof fn lemma_same_ratio_symmetric(p1: int, q1: int, p2: int, q2: int)
    requires
        same_ratio(p1, q1, p2, q2),
    ensures
        same_ratio(p2, q2, p1, q1),
{
}

/// Moving `s` decimal places from the exponent into the numerator keeps the value:
/// `n × 10^s × 10^(e - s) / d == n × 10^e / d`.
pub proof fn lemma_exponent_shift(n: int, e: int, s: nat, d: int)
    ensures
        same_ratio(
            scaled_numerator(n * pow10(s), e - s),
            scaled_denominator(d, e - s),
            scaled_numerator(n, e),
            scaled_denominator(d, e),
        ),
{
    let p = pow10(s) as int;
    if e - s >= 0 {
        lemma_pow10_add(s, (e - s) as nat);
        assert(n * p * pow10((e - s) as nat) == n * pow10(e as nat)) by {
            lemma_mul_is_associative(n, p, pow10((e - s) as nat) as int);
        }
    } else if e >= 0 {
        lemma_pow10_add(e as nat, (s - e) as nat);
        let a = pow10(e as nat) as int;
        let b = pow10((s - e) as nat) as int;
        assert(n * p * d == n * a * (d * b)) by (nonlinear_arith)
            requires
                p == a * b,
        ;
    } else {
        lemma_pow10_add(s, (-e) as nat);
        let c = pow10((-e) as nat) as int;
        let b = pow10((s - e) as nat) as int;
        assert(n * p * (d * c) == n * (d * b)) by (nonlinear_arith)
            requires
                b == p * c,
        ;
    }
}

/// The value of `(n × 10^s × k) × 10^(e - s) / (d × k)` is that of `n × 10^e / d`.
pub proof fn lemma_rescale(n: int, e: int, s: nat, d: int, k: int)
    requires
        d > 0,
        k > 0,
    ensures
        same_ratio(
            scaled_numerator(n * pow10(s) * k, e - s),
            scaled_denominator(d * k, e - s),
            scaled_numerator(n, e),
            scaled_denominator(d, e),
        ),
{
    lemma_scaled_numerator_mul(n * pow10(s), k, e - s);
    lemma_scaled_numerator_mul(d, k, e - s);
    lemma_same_ratio_scale(
        scaled_numerator(n * pow10(s), e - s),
        scaled_denominator(d, e - s),
        k,
    );
    lemma_exponent_shift(n, e, s, d);
    lemma_den_positive(d, e - s);
    lemma_same_ratio_trans(
        scaled_numerator(n * pow10(s) * k, e - s),
        scaled_denominator(d * k, e - s),
        scaled_numerator(n * pow10(s), e - s),
        scaled_denominator(d, e - s),
        scaled_numerator(n, e),
        scaled_denominator(d, e),
    );
}

/// The greatest common divisor by Euclid's algorithm.
pub open spec fn gcd(a: nat, b: nat) -> nat
    decreases b,
{
    if b == 0 {
        a
    } else {
        gcd(b, a % b)
    }
}

#[verifier::spinoff_prover]
pub proof fn lemma_gcd_divides(a: nat, b: nat)
    requires
        a > 0 || b > 0,
    ensures
        gcd(a, b) > 0,
        a % gcd(a, b) == 0,
        b % gcd(a, b) == 0,
    decreases b,
{
    if b > 0 {
        lemma_gcd_divides(b, a % b);
        let g = gcd(b, a % b);
        lemma_fundamental_div_mod(a as int, b as int);
        lemma_fundamental_div_mod(b as int, g as int);
        lemma_fundamental_div_mod((a % b) as int, g as int);
        let k1 = b / g;
        let k2 = (a % b) / g;
        assert(a == g * (k1 * (a / b) + k2)) by (nonlinear_arith)
            requires
                a == b * (a / b) + a % b,
                b == g * k1,
                a % b == g * k2,
        ;
        lemma_mod_multiples_basic((k1 * (a / b) + k2) as int, g as int);
        lemma_mul_is_commutative(g as int, (k1 * (a / b) + k2) as int);
    }
}

/// The greatest common divisor of two integers, not both zero.
pub fn greatest_common_divisor(left: u64, right: u64) -> (r: u64)
    ensures
        r == gcd(left as nat, right as nat),
{
    let mut a = left;
    let mut b = right;
    while b != 0
        invariant
            gcd(a as nat, b as nat) == gcd(left as nat, right as nat),
        decreases b,
    {
        let t = a % b;
        a = b;
        b = t;
    }
    a
}

pub proof fn lemma_common_divisor_of_residue(c: nat, d: nat, g: nat)
    requires
        d > 0,
        g > 0,
        (c % d) % g == 0,
        d % g == 0,
    ensures
        c % g == 0,
{
    lemma_fundamental_div_mod(c as int, d as int);
    lemma_fundamental_div_mod((c % d) as int, g as int);
    lemma_fundamental_div_mod(d as int, g as int);
    let k1 = d / g;
    let k2 = (c % d) / g;
    assert(c == g * (k1 * (c / d) + k2)) by (nonlinear_arith)
        requires
            c == d * (c / d) + c % d,
            d == g * k1,
            c % d == g * k2,
    ;
    lemma_mod_multiples_basic((k1 * (c / d) + k2) as int, g as int);
    lemma_mul_is_commutative(g as int, (k1 * (c / d) + k2) as int);
}

pub open spec fn kind_error<T>(r: SerializationResult<T>, kind: CssSpecifiedValueSerializationErrorKind) -> bool {
    r matches Err(e) && e.kind == kind
}

/// What an arithmetic step may report besides a budget error.
pub open spec fn arithmetic_error(kind: CssSpecifiedValueSerializationErrorKind) -> bool {
    budget_error(kind) || kind == CssSpecifiedValueSerializationErrorKind::ByteLimit
}

pub fn failure<T>(kind: CssSpecifiedValueSerializationErrorKind) -> (r: SerializationResult<T>)
    ensures
        kind_error(r, kind),
{
    Err(CssSpecifiedValueSerializationError::new(kind))
}

impl ExactRational {
    /// A nonnegative integer.
    pub fn integer(value: u64, context: &mut SpecifiedSerializationContext) -> (r:
        SerializationResult<Self>)
        requires
            old(context).wf(),
        ensures
            final(context).wf(),
            budget_only(*old(context), *final(context)),
            r matches Ok(v) ==> v.wf() && v.is_exact() && v.equals(value as int, 1) && v.den() == 1
                && v.num() == value && !v.negative && v.coefficient.value() == value && v.exponent
                == 0 && v.denominator == 1,
            r matches Err(e) ==> budget_error(e.kind),
            budget_charged(r, *old(context), *final(context), from_u64_cost(value as nat)),
    {
        let ghost c0 = *context;
        let stored = BigCoefficient::from_u64(value, context);
        proof {
            lemma_single_charge(stored, c0, *context, from_u64_cost(value as nat));
        }
        let coefficient = match stored {
            Ok(v) => v,
            Err(e) => {
                return Err(e);
            },
        };
        proof {
            assert(pow10(0) == 1);
            lemma_mul_basics(value as int);
        }
        Ok(Self { coefficient, exponent: 0, denominator: 1, negative: false, unbounded_tiny: false })
    }

    pub fn is_zero(&self) -> (r: bool)
        requires
            self.wf(),
        ensures
            r == (self.coefficient.value() == 0),
            self.is_exact() ==> r == (self.num() == 0),
    {
        proof {
            lemma_pow10_positive((if self.exponent >= 0 { self.exponent as int } else { 0 }) as nat);
            if self.exponent >= 0 && self.signed() != 0 {
                lemma_mul_nonzero(self.signed(), pow10(self.exponent as nat) as int);
            }
        }
        self.coefficient.is_zero()
    }

    /// A copy whose coefficient storage is charged to the projection budget.
    pub fn clone_with_budget(&self, context: &mut SpecifiedSerializationContext) -> (r:
        SerializationResult<Self>)
        requires
            self.wf(),
            old(context).wf(),
        ensures
            crate::bignum::charge_only(
                r,
                *old(context),
                *final(context),
                self.coefficient.limbs.len() as int,
            ),
            r matches Ok(v) ==> v.wf() && v.coefficient.value() == self.coefficient.value()
                && v.exponent == self.exponent && v.denominator == self.denominator && v.negative
                == self.negative && v.unbounded_tiny == self.unbounded_tiny,
    {
        let coefficient = self.coefficient.clone_with_budget(context)?;
        Ok(
            Self {
                coefficient,
                exponent: self.exponent,
                denominator: self.denominator,
                negative: self.negative,
                unbounded_tiny: self.unbounded_tiny,
            },
        )
    }

    /// Cancels the common factor of the coefficient and the denominator; zero becomes
    /// the canonical `0 / 1`.
    pub fn reduce_fraction(self, context: &mut SpecifiedSerializationContext) -> (r:
        SerializationResult<Self>)
        requires
            self.wf(),
            old(context).wf(),
        ensures
            final(context).wf(),
            budget_only(*old(context), *final(context)),
            r matches Ok(v) ==> v.wf() && v.unbounded_tiny == self.unbounded_tiny,
            r matches Ok(v) ==> (v.coefficient.value() == 0 <==> self.coefficient.value() == 0),
            r matches Ok(v) ==> v.equals(self.num(), self.den())
                && v.exponent == (if self.coefficient.value() == 0 { 0 } else { self.exponent })
                && v.negative == self.negative
                && v.denominator as int == (if self.coefficient.value() == 0 {
                    1
                } else {
                    (self.denominator as nat) / gcd(
                        self.coefficient.value() % (self.denominator as nat),
                        self.denominator as nat,
                    )
                }),
            r matches Err(e) ==> budget_error(e.kind),
            r matches Ok(v) ==> v.coefficient.value() == reduced_coefficient(
                self.coefficient.value(),
                self.denominator as nat,
            ),
            budget_charged(
                r,
                *old(context),
                *final(context),
                reduce_cost(self.coefficient.value(), self.denominator as nat),
            ),
    {
        let mut value = self;
        if value.coefficient.is_zero() {
            proof {
                lemma_den_positive(value.denominator as int, value.exponent as int);
                assert(value.signed() == 0);
                lemma_mul_basics(pow10((if value.exponent >= 0 { value.exponent as int } else { 0 }) as nat) as int);
                assert(value.num() == 0);
                lemma_mul_basics(pow10(0) as int);
                lemma_mul_basics(value.den());
            }
            let ghost old_den = value.den();
            value.negative = false;
            value.exponent = 0;
            value.denominator = 1;
            proof {
                assert(value.num() == 0 * pow10(0));
                assert(value.num() == 0);
                assert(value.den() == 1);
                assert(same_ratio(0, 1, 0, old_den));
            }
            return Ok(value);
        }
        let common = greatest_common_divisor(value.coefficient.mod_small(value.denominator), value.denominator);
        let ghost c = value.coefficient.value();
        let ghost d = value.denominator as nat;
        proof {
            lemma_gcd_divides(c % d, d);
            lemma_common_divisor_of_residue(c, d, common as nat);
        }
        let ghost before = value.num();
        let ghost before_den = value.den();
        let ghost e = value.exponent as int;
        if common > 1 {
            let ghost c0 = *context;
            proof {
                lemma_limbs_normal_len(value.coefficient.limbs@);
            }
            let step = value.coefficient.div_rem_small(common, context);
            proof {
                lemma_single_charge(step, c0, *context, value.coefficient.limbs.len() as int);
            }
            let (coefficient, remainder) = match step {
                Ok(pair) => pair,
                Err(e) => {
                    return Err(e);
                },
            };
            let ghost q = coefficient.value();
            let ghost k = common as int;
            let ghost dq = d / (common as nat);
            let ghost s = if value.negative { -(q as int) } else { q as int };
            proof {
                lemma_fundamental_div_mod(c as int, common as int);
                lemma_fundamental_div_mod(d as int, common as int);
                lemma_fundamental_div_mod_converse(c as int, common as int, q as int, remainder as int);
                assert(remainder == 0);
                assert(value.signed() == s * k) by {
                    if value.negative {
                        lemma_mul_unary_negation(q as int, k);
                    }
                    lemma_mul_is_commutative(k, q as int);
                }
                assert(d == dq * k) by {
                    lemma_mul_is_commutative(k, dq as int);
                }
                assert(q > 0) by {
                    if q == 0 {
                        lemma_mul_basics(k);
                    }
                }
                assert(dq > 0) by {
                    if dq == 0 {
                        lemma_mul_basics(k);
                    }
                }
                lemma_scaled_numerator_mul(s, k, value.exponent as int);
                lemma_scaled_numerator_mul(dq as int, k, value.exponent as int);
                lemma_same_ratio_scale(
                    scaled_numerator(s, value.exponent as int),
                    scaled_denominator(dq as int, value.exponent as int),
                    k,
                );
                assert(before == scaled_numerator(s, e) * k);
                assert(before_den == scaled_denominator(dq as int, e) * k);
            }
            value.coefficient = coefficient;
            value.denominator = value.denominator / common;
            proof {
                assert(value.signed() == s);
                assert(value.num() == scaled_numerator(s, e));
                assert(value.den() == scaled_denominator(dq as int, e));
                assert(same_ratio(value.num(), value.den(), before, before_den));
                assert(value.coefficient.value() == q);
                assert(q == c / (common as nat));
            }
        } else {
            proof {
                assert(common == 1);
                assert(d / 1 == d);
                assert(c / 1 == c);
            }
        }
        proof {
            assert(value.coefficient.value() > 0);
            assert(c > 0);
        }
        Ok(value)
    }
}


/// `10^max(e, 0)` and `10^max(-e, 0)`: the value `n × 10^e / d` is
/// `n × 10^pos(e) / (d × 10^neg(e))`.
pub open spec fn pos_part(e: int) -> nat {
    if e >= 0 {
        e as nat
    } else {
        0
    }
}

pub open spec fn neg_part(e: int) -> nat {
    if e >= 0 {
        0
    } else {
        (-e) as nat
    }
}

pub proof fn lemma_split(n: int, d: int, e: int)
    ensures
        scaled_numerator(n, e) == n * pow10(pos_part(e)),
        scaled_denominator(d, e) == d * pow10(neg_part(e)),
{
    if e >= 0 {
        assert(pow10(0) == 1);
        lemma_mul_basics(d);
    } else {
        assert(pow10(0) == 1);
        lemma_mul_basics(n);
    }
}

/// Cross products of two fractions, brought to the smaller exponent `m`, differ from
/// the fractions' own cross products by one common power of ten.
pub proof fn lemma_cross_at_common(na: int, ea: int, da: int, nb: int, eb: int, db: int)
    ensures
        ({
            let m = if ea <= eb { ea } else { eb };
            let k = (neg_part(ea) + neg_part(eb) + m) as nat;
            &&& neg_part(ea) + neg_part(eb) + m >= 0
            &&& scaled_numerator(na, ea) * scaled_denominator(db, eb) == na * db * pow10(
                (ea - m) as nat,
            ) * pow10(k)
            &&& scaled_numerator(nb, eb) * scaled_denominator(da, ea) == nb * da * pow10(
                (eb - m) as nat,
            ) * pow10(k)
        }),
{
    let m = if ea <= eb { ea } else { eb };
    let k = (neg_part(ea) + neg_part(eb) + m) as nat;
    lemma_split(na, da, ea);
    lemma_split(nb, db, eb);
    lemma_pow10_add((ea - m) as nat, k);
    lemma_pow10_add(pos_part(ea), neg_part(eb));
    lemma_pow10_add((eb - m) as nat, k);
    lemma_pow10_add(pos_part(eb), neg_part(ea));
    assert(pos_part(ea) + neg_part(eb) == (ea - m) + k);
    assert(pos_part(eb) + neg_part(ea) == (eb - m) + k);
    let pa = pow10(pos_part(ea)) as int;
    let qb = pow10(neg_part(eb)) as int;
    let pb = pow10(pos_part(eb)) as int;
    let qa = pow10(neg_part(ea)) as int;
    let sa = pow10((ea - m) as nat) as int;
    let sb = pow10((eb - m) as nat) as int;
    let kk = pow10(k) as int;
    assert(na * pa * (db * qb) == na * db * sa * kk) by (nonlinear_arith)
        requires
            pa * qb == sa * kk,
    ;
    assert(nb * pb * (da * qa) == nb * da * sb * kk) by (nonlinear_arith)
        requires
            pb * qa == sb * kk,
    ;
}

/// `10^(len(v) - 1) <= v < 10^len(v)` for positive `v`.
pub proof fn lemma_decimal_len_bounds(v: nat)
    requires
        v >= 1,
    ensures
        crate::bignum::decimal_len_of(v) >= 1,
        pow10((crate::bignum::decimal_len_of(v) - 1) as nat) <= v,
        v < pow10(crate::bignum::decimal_len_of(v)),
    decreases v,
{
    reveal_with_fuel(pow10, 2);
    if v >= 10 {
        lemma_decimal_len_bounds(v / 10);
        let l = crate::bignum::decimal_len_of(v / 10);
        assert(pow10(l) == 10 * pow10((l - 1) as nat));
        assert(pow10(l + 1) == 10 * pow10(l));
    }
}

/// A signed magnitude scaled by two factors.
pub proof fn lemma_signed_scale(neg: bool, c: int, p: int, f: int)
    ensures
        (if neg {
            -c
        } else {
            c
        }) * p * f == (if neg {
            -(c * p * f)
        } else {
            c * p * f
        }),
{
    if neg {
        lemma_mul_unary_negation(c, p);
        lemma_mul_unary_negation(c * p, f);
    }
}

/// Fractions over one denominator add by their numerators.
pub proof fn lemma_sum_same_den(a: int, b: int, q: int, pa: int, qa: int, pb: int, qb: int)
    requires
        same_ratio(a, q, pa, qa),
        same_ratio(b, q, pb, qb),
    ensures
        same_ratio(a + b, q, pa * qb + pb * qa, qa * qb),
{
    lemma_mul_is_distributive_add_other_way(qa * qb, a, b);
    lemma_mul_is_distributive_add_other_way(q, pa * qb, pb * qa);
    assert(a * (qa * qb) == pa * qb * q) by (nonlinear_arith)
        requires
            a * qa == pa * q,
    ;
    assert(b * (qa * qb) == pb * qa * q) by (nonlinear_arith)
        requires
            b * qb == pb * q,
    ;
}

impl ExactRational {
    /// The coefficient rescaled to a smaller or equal exponent and multiplied by a
    /// denominator factor: `coefficient × 10^(exponent - target) × factor`.
    pub fn scaled_coefficient(
        &self,
        target_exponent: i128,
        denominator_factor: u64,
        context: &mut SpecifiedSerializationContext,
    ) -> (r: SerializationResult<BigCoefficient>)
        requires
            self.wf(),
            old(context).wf(),
        ensures
            final(context).wf(),
            budget_only(*old(context), *final(context)),
            r matches Ok(c) ==> c.wf() && self.exponent >= target_exponent && c.value()
                == self.coefficient.value() * pow10((self.exponent - target_exponent) as nat)
                * denominator_factor,
            r matches Err(e) ==> arithmetic_error(e.kind),
            self.unbounded_tiny ==> kind_error(r, CssSpecifiedValueSerializationErrorKind::ByteLimit),
            (!self.unbounded_tiny && (self.exponent < target_exponent || self.exponent
                - target_exponent > usize::MAX)) ==> kind_error(
                r,
                CssSpecifiedValueSerializationErrorKind::CapacityOverflow,
            ),
            !self.unbounded_tiny && self.exponent >= target_exponent && self.exponent
                - target_exponent <= usize::MAX ==> budget_charged(
                r,
                *old(context),
                *final(context),
                scale_cost(
                    self.coefficient.value(),
                    (self.exponent - target_exponent) as nat,
                    denominator_factor as nat,
                ),
            ),
    {
        if self.unbounded_tiny {
            return failure(CssSpecifiedValueSerializationErrorKind::ByteLimit);
        }
        let shift = match self.exponent.checked_sub(target_exponent) {
            Some(s) => s,
            None => {
                return failure(CssSpecifiedValueSerializationErrorKind::CapacityOverflow);
            },
        };
        if shift < 0 || shift > usize::MAX as i128 {
            return failure(CssSpecifiedValueSerializationErrorKind::CapacityOverflow);
        }
        let scaled = match self.coefficient.mul_pow10(shift as usize, context) {
            Ok(v) => v,
            Err(e) => {
                return Err(e);
            },
        };
        let ghost c1 = *context;
        let step = scaled.mul_small(denominator_factor, context);
        proof {
            lemma_limbs_normal_len(scaled.limbs@);
            lemma_charge_when(
                step,
                c1,
                *context,
                limb_len(scaled.value() * (denominator_factor as nat)) as int,
                scaled.value() == 0 || denominator_factor == 0,
            );
        }
        step
    }
}


pub proof fn lemma_positive_scale(c: nat, p: nat, f: nat)
    requires
        c > 0,
        p > 0,
        f > 0,
    ensures
        c * p * f > 0,
{
    lemma_mul_strictly_positive(c as int, p as int);
    lemma_mul_strictly_positive((c * p) as int, f as int);
}

/// Fractions multiply by numerators and denominators.
pub proof fn lemma_product_ratio(na: int, ea: int, da: int, nb: int, eb: int, db: int)
    ensures
        same_ratio(
            scaled_numerator(na * nb, ea + eb),
            scaled_denominator(da * db, ea + eb),
            scaled_numerator(na, ea) * scaled_numerator(nb, eb),
            scaled_denominator(da, ea) * scaled_denominator(db, eb),
        ),
{
    lemma_split(na * nb, da * db, ea + eb);
    lemma_split(na, da, ea);
    lemma_split(nb, db, eb);
    let e1 = pos_part(ea + eb) + neg_part(ea) + neg_part(eb);
    let e2 = pos_part(ea) + pos_part(eb) + neg_part(ea + eb);
    assert(e1 == e2);
    lemma_pow10_add(pos_part(ea + eb), neg_part(ea));
    lemma_pow10_add(pos_part(ea + eb) + neg_part(ea), neg_part(eb));
    lemma_pow10_add(pos_part(ea), pos_part(eb));
    lemma_pow10_add(pos_part(ea) + pos_part(eb), neg_part(ea + eb));
    let x = pow10(pos_part(ea + eb)) as int;
    let y = pow10(neg_part(ea + eb)) as int;
    let pa = pow10(pos_part(ea)) as int;
    let qa = pow10(neg_part(ea)) as int;
    let pb = pow10(pos_part(eb)) as int;
    let qb = pow10(neg_part(eb)) as int;
    let n = na * nb;
    let d = da * db;
    assert(da * qa * (db * qb) == d * (qa * qb)) by (nonlinear_arith)
        requires
            d == da * db,
    ;
    assert(na * pa * (nb * pb) == n * (pa * pb)) by (nonlinear_arith)
        requires
            n == na * nb,
    ;
    assert(n * x * (d * (qa * qb)) == n * d * (x * qa * qb)) by (nonlinear_arith);
    assert(n * (pa * pb) * (d * y) == n * d * (pa * pb * y)) by (nonlinear_arith);
}

impl ExactRational {
    /// The exact sum `self + other`, reduced.
    #[verifier::spinoff_prover]
    #[verifier::rlimit(80)]
    pub fn add_signed(self, other: Self, context: &mut SpecifiedSerializationContext) -> (r:
        SerializationResult<Self>)
        requires
            self.wf(),
            other.wf(),
            old(context).wf(),
        ensures
            final(context).wf(),
            budget_only(*old(context), *final(context)),
            (self.unbounded_tiny || other.unbounded_tiny) ==> kind_error(
                r,
                CssSpecifiedValueSerializationErrorKind::ByteLimit,
            ),
            r matches Ok(v) ==> v.wf() && v.is_exact() && v.equals(
                self.num() * other.den() + other.num() * self.den(),
                self.den() * other.den(),
            ),
            r matches Err(e) ==> arithmetic_error(e.kind),
            self.is_exact() && other.is_exact() && sum_fits(parts(self), parts(other)) ==> budget_charged(
                r,
                *old(context),
                *final(context),
                sum_cost(parts(self), parts(other)),
            ),
    {
        if self.unbounded_tiny || other.unbounded_tiny {
            return failure(CssSpecifiedValueSerializationErrorKind::ByteLimit);
        }
        let exponent = if self.exponent <= other.exponent {
            self.exponent
        } else {
            other.exponent
        };
        let g = greatest_common_divisor(self.denominator, other.denominator);
        let ghost da = self.denominator as int;
        let ghost db = other.denominator as int;
        proof {
            lemma_gcd_divides(self.denominator as nat, other.denominator as nat);
            lemma_fundamental_div_mod(da, g as int);
            lemma_fundamental_div_mod(db, g as int);
        }
        let left_factor = other.denominator / g;
        let right_factor = self.denominator / g;
        proof {
            assert(db == g * left_factor);
            assert(da == g * right_factor);
            assert(left_factor > 0) by {
                if left_factor == 0 {
                    lemma_mul_basics(g as int);
                }
            }
            assert(right_factor > 0) by {
                if right_factor == 0 {
                    lemma_mul_basics(g as int);
                }
            }
            assert(da * left_factor == db * right_factor) by (nonlinear_arith)
                requires
                    db == g * left_factor,
                    da == g * right_factor,
            ;
        }
        let denominator = match self.denominator.checked_mul(left_factor) {
            Some(d) => d,
            None => {
                return failure(CssSpecifiedValueSerializationErrorKind::CapacityOverflow);
            },
        };
        proof {
            lemma_mul_strictly_positive(da, left_factor as int);
        }
        let ghost c0 = *context;
        let left = match self.scaled_coefficient(exponent, left_factor, context) {
            Ok(v) => v,
            Err(e) => {
                return Err(e);
            },
        };
        let ghost c1 = *context;
        let right = match other.scaled_coefficient(exponent, right_factor, context) {
            Ok(v) => v,
            Err(e) => {
                return Err(e);
            },
        };
        let ghost c2 = *context;
        proof {
            lemma_limbs_normal_len(left.limbs@);
            lemma_limbs_normal_len(right.limbs@);
        }
        let ghost sa = (self.exponent - exponent) as nat;
        let ghost sb = (other.exponent - exponent) as nat;
        let ghost ls = if self.negative {
            -(left.value() as int)
        } else {
            left.value() as int
        };
        let ghost rs = if other.negative {
            -(right.value() as int)
        } else {
            right.value() as int
        };
        let (coefficient, negative) = if self.negative == other.negative {
            let step = left.add(&right, context);
            proof {
                lemma_single_charge(
                    step,
                    c2,
                    *context,
                    (if left.limbs.len() >= right.limbs.len() {
                        left.limbs.len()
                    } else {
                        right.limbs.len()
                    }) + 1,
                );
            }
            match step {
                Ok(v) => (v, self.negative),
                Err(e) => {
                    return Err(e);
                },
            }
        } else {
            let order = left.compare_sign(&right);
            if order == 1 {
                let step = left.subtract(&right, context);
                proof {
                    lemma_single_charge(step, c2, *context, left.limbs.len() as int);
                }
                match step {
                    Ok(v) => (v, self.negative),
                    Err(e) => {
                        return Err(e);
                    },
                }
            } else if order == -1 {
                let step = right.subtract(&left, context);
                proof {
                    lemma_single_charge(step, c2, *context, right.limbs.len() as int);
                }
                match step {
                    Ok(v) => (v, other.negative),
                    Err(e) => {
                        return Err(e);
                    },
                }
            } else {
                (BigCoefficient::zero(), false)
            }
        };
        proof {
            lemma_pow10_positive(sa);
            lemma_pow10_positive(sb);
            if self.negative {
                lemma_positive_scale(self.coefficient.value(), pow10(sa), left_factor as nat);
            }
            if other.negative {
                lemma_positive_scale(other.coefficient.value(), pow10(sb), right_factor as nat);
            }
        }
        let sum = Self { coefficient, exponent, denominator, negative, unbounded_tiny: false };
        proof {
            assert(sum.coefficient.wf());
            assert(sum.denominator > 0);
            assert(sum.negative ==> sum.coefficient.value() > 0);
            assert(sum.signed() == ls + rs);
            let m = exponent as int;
            lemma_signed_scale(
                self.negative,
                self.coefficient.value() as int,
                pow10(sa) as int,
                left_factor as int,
            );
            lemma_signed_scale(
                other.negative,
                other.coefficient.value() as int,
                pow10(sb) as int,
                right_factor as int,
            );
            assert(ls == self.signed() * pow10(sa) * left_factor);
            assert(rs == other.signed() * pow10(sb) * right_factor);
            lemma_rescale(self.signed(), self.exponent as int, sa, da, left_factor as int);
            lemma_rescale(other.signed(), other.exponent as int, sb, db, right_factor as int);
            assert(self.exponent - sa == m);
            assert(other.exponent - sb == m);
            let q = scaled_denominator(denominator as int, m);
            lemma_sum_same_den(
                scaled_numerator(ls, m),
                scaled_numerator(rs, m),
                q,
                self.num(),
                self.den(),
                other.num(),
                other.den(),
            );
            lemma_scaled_numerator_add(ls, rs, m);
            lemma_den_positive(denominator as int, m);
        }
        let reduced = sum.reduce_fraction(context);
        proof {
            if reduced is Ok {
                lemma_same_ratio_trans(
                    reduced->Ok_0.num(),
                    reduced->Ok_0.den(),
                    sum.num(),
                    sum.den(),
                    self.num() * other.den() + other.num() * self.den(),
                    self.den() * other.den(),
                );
            }
        }
        reduced
    }

    /// The exact difference `self - other`, reduced.
    pub fn subtract_signed(self, other: Self, context: &mut SpecifiedSerializationContext) -> (r:
        SerializationResult<Self>)
        requires
            self.wf(),
            other.wf(),
            old(context).wf(),
        ensures
            final(context).wf(),
            budget_only(*old(context), *final(context)),
            (self.unbounded_tiny || other.unbounded_tiny) ==> kind_error(
                r,
                CssSpecifiedValueSerializationErrorKind::ByteLimit,
            ),
            r matches Ok(v) ==> v.wf() && v.is_exact() && v.equals(
                self.num() * other.den() - other.num() * self.den(),
                self.den() * other.den(),
            ),
            r matches Err(e) ==> arithmetic_error(e.kind),
            self.is_exact() && other.is_exact() && sum_fits(parts(self), negated(parts(other)))
                ==> budget_charged(
                r,
                *old(context),
                *final(context),
                sum_cost(parts(self), negated(parts(other))),
            ),
    {
        if self.unbounded_tiny || other.unbounded_tiny {
            return failure(CssSpecifiedValueSerializationErrorKind::ByteLimit);
        }
        let ghost original_other = other;
        let mut other = other;
        let ghost before = other.num();
        if !other.is_zero() {
            other.negative = !other.negative;
        }
        proof {
            lemma_scaled_numerator_neg(
                if other.negative {
                    other.coefficient.value() as int
                } else {
                    -(other.coefficient.value() as int)
                },
                other.exponent as int,
            );
            if other.coefficient.value() == 0 {
                lemma_mul_basics(pow10(pos_part(other.exponent as int)) as int);
                lemma_split(0, 1, other.exponent as int);
            }
            assert(other.num() == -before);
            lemma_mul_unary_negation(before, self.den());
        }
        proof {
            assert(parts(other) == negated(parts(original_other)));
        }
        self.add_signed(other, context)
    }

    /// The exact product `self × other`, reduced.
    pub fn multiply_signed(self, other: Self, context: &mut SpecifiedSerializationContext) -> (r:
        SerializationResult<Self>)
        requires
            self.wf(),
            other.wf(),
            old(context).wf(),
        ensures
            final(context).wf(),
            budget_only(*old(context), *final(context)),
            (self.unbounded_tiny || other.unbounded_tiny) ==> kind_error(
                r,
                CssSpecifiedValueSerializationErrorKind::ByteLimit,
            ),
            r matches Ok(v) ==> v.wf() && v.is_exact() && v.equals(
                self.num() * other.num(),
                self.den() * other.den(),
            ),
            r matches Err(e) ==> arithmetic_error(e.kind),
            self.is_exact() && other.is_exact() && self.denominator * other.denominator
                <= u64::MAX && i128::MIN <= self.exponent + other.exponent <= i128::MAX
                ==> budget_charged(
                r,
                *old(context),
                *final(context),
                (if self.coefficient.value() == 0 || other.coefficient.value() == 0 {
                    0
                } else {
                    self.coefficient.limbs.len() + other.coefficient.limbs.len()
                }) + reduce_cost(
                    self.coefficient.value() * other.coefficient.value(),
                    (self.denominator * other.denominator) as nat,
                ),
            ),
    {
        if self.unbounded_tiny || other.unbounded_tiny {
            return failure(CssSpecifiedValueSerializationErrorKind::ByteLimit);
        }
        let denominator = match self.denominator.checked_mul(other.denominator) {
            Some(d) => d,
            None => {
                return failure(CssSpecifiedValueSerializationErrorKind::CapacityOverflow);
            },
        };
        proof {
            lemma_mul_strictly_positive(self.denominator as int, other.denominator as int);
        }
        let ghost c0 = *context;
        let step = self.coefficient.multiply(&other.coefficient, context);
        proof {
            lemma_charge_when(
                step,
                c0,
                *context,
                self.coefficient.limbs.len() + other.coefficient.limbs.len(),
                self.coefficient.value() == 0 || other.coefficient.value() == 0,
            );
        }
        let coefficient = match step {
            Ok(v) => v,
            Err(e) => {
                proof {
                    assert(reduce_cost(
                        self.coefficient.value() * other.coefficient.value(),
                        (self.denominator * other.denominator) as nat,
                    ) >= 0);
                }
                return Err(e);
            },
        };
        let exponent = match self.exponent.checked_add(other.exponent) {
            Some(e) => e,
            None => {
                return failure(CssSpecifiedValueSerializationErrorKind::CapacityOverflow);
            },
        };
        let negative = self.negative != other.negative && !coefficient.is_zero();
        let product = Self { coefficient, exponent, denominator, negative, unbounded_tiny: false };
        proof {
            let ca = self.coefficient.value() as int;
            let cb = other.coefficient.value() as int;
            assert(product.signed() == self.signed() * other.signed()) by {
                lemma_mul_unary_negation(ca, cb);
                lemma_mul_unary_negation(cb, ca);
                lemma_mul_is_commutative(ca, cb);
                lemma_mul_unary_negation(-ca, cb);
                if ca == 0 {
                    lemma_mul_basics(cb);
                }
                if cb == 0 {
                    lemma_mul_basics(ca);
                    lemma_mul_basics(-ca);
                }
            }
            lemma_product_ratio(
                self.signed(),
                self.exponent as int,
                self.denominator as int,
                other.signed(),
                other.exponent as int,
                other.denominator as int,
            );
            lemma_den_positive(denominator as int, exponent as int);
        }
        let reduced = product.reduce_fraction(context);
        proof {
            if reduced is Ok {
                lemma_same_ratio_trans(
                    reduced->Ok_0.num(),
                    reduced->Ok_0.den(),
                    product.num(),
                    product.den(),
                    self.num() * other.num(),
                    self.den() * other.den(),
                );
            }
        }
        reduced
    }

    /// The exact product with `numerator / denominator`, reduced.
    pub fn scale_ratio(
        self,
        numerator: u64,
        denominator: u64,
        context: &mut SpecifiedSerializationContext,
    ) -> (r: SerializationResult<Self>)
        requires
            self.wf(),
            old(context).wf(),
        ensures
            final(context).wf(),
            budget_only(*old(context), *final(context)),
            denominator == 0 ==> kind_error(
                r,
                CssSpecifiedValueSerializationErrorKind::CapacityOverflow,
            ),
            r matches Ok(v) ==> v.wf() && v.unbounded_tiny == self.unbounded_tiny && v.equals(
                self.num() * numerator,
                self.den() * denominator,
            ),
            r matches Err(e) ==> budget_error(e.kind),
            denominator != 0 && self.denominator * denominator <= u64::MAX ==> budget_charged(
                r,
                *old(context),
                *final(context),
                small_product_cost(self.coefficient.value(), numerator as nat) + reduce_cost(
                    (self.coefficient.value() * numerator) as nat,
                    (self.denominator * denominator) as nat,
                ),
            ),
    {
        if denominator == 0 {
            return failure(CssSpecifiedValueSerializationErrorKind::CapacityOverflow);
        }
        let mut value = self;
        let ghost n0 = value.num();
        let ghost d0 = value.den();
        let ghost c0 = *context;
        let step = value.coefficient.mul_small(numerator, context);
        proof {
            lemma_limbs_normal_len(value.coefficient.limbs@);
            lemma_charge_when(
                step,
                c0,
                *context,
                limb_len(value.coefficient.value() * (numerator as nat)) as int,
                value.coefficient.value() == 0 || numerator == 0,
            );
        }
        let coefficient = match step {
            Ok(v) => v,
            Err(e) => {
                proof {
                    assert(reduce_cost((self.coefficient.value() * numerator) as nat, (self.denominator * denominator) as nat) >= 0);
                }
                return Err(e);
            },
        };
        let scaled_denominator = match value.denominator.checked_mul(denominator) {
            Some(d) => d,
            None => {
                return failure(CssSpecifiedValueSerializationErrorKind::CapacityOverflow);
            },
        };
        let ghost s0 = value.signed();
        proof {
            lemma_mul_strictly_positive(self.denominator as int, denominator as int);
        }
        value.coefficient = coefficient;
        value.negative = value.negative && !value.coefficient.is_zero();
        value.denominator = scaled_denominator;
        proof {
            assert(value.signed() == s0 * numerator) by {
                lemma_mul_unary_negation(self.coefficient.value() as int, numerator as int);
                if self.coefficient.value() * numerator == 0 {
                    lemma_mul_basics(numerator as int);
                }
            }
            lemma_scaled_numerator_mul(s0, numerator as int, value.exponent as int);
            lemma_scaled_numerator_mul(self.denominator as int, denominator as int, value.exponent as int);
            lemma_den_positive(value.denominator as int, value.exponent as int);
            lemma_den_positive(self.denominator as int, value.exponent as int);
            assert(same_ratio(value.num(), value.den(), n0 * numerator, d0 * denominator));
        }
        let reduced = value.reduce_fraction(context);
        proof {
            if reduced is Ok {
                lemma_same_ratio_trans(
                    reduced->Ok_0.num(),
                    reduced->Ok_0.den(),
                    value.num(),
                    value.den(),
                    n0 * numerator,
                    d0 * denominator,
                );
            }
        }
        reduced
    }

    /// Divides by a positive integer by growing the denominator (no reduction).
    pub fn divide_by(self, divisor: usize) -> (r: SerializationResult<Self>)
        requires
            self.wf(),
        ensures
            self.unbounded_tiny ==> kind_error(r, CssSpecifiedValueSerializationErrorKind::ByteLimit),
            !self.unbounded_tiny && (divisor == 0 || self.denominator * divisor > u64::MAX)
                ==> kind_error(r, CssSpecifiedValueSerializationErrorKind::CapacityOverflow),
            !self.unbounded_tiny && divisor != 0 && self.denominator * divisor <= u64::MAX ==> (r
                matches Ok(v) && v.wf() && v.is_exact() && v.coefficient.value()
                == self.coefficient.value() && v.exponent == self.exponent && v.negative
                == self.negative && v.denominator == self.denominator * divisor && v.equals(
                self.num(),
                self.den() * divisor,
            )),
    {
        if self.unbounded_tiny {
            return failure(CssSpecifiedValueSerializationErrorKind::ByteLimit);
        }
        let divisor = divisor as u64;
        if divisor == 0 {
            return failure(CssSpecifiedValueSerializationErrorKind::CapacityOverflow);
        }
        let mut value = self;
        let ghost n0 = value.num();
        let ghost d0 = value.den();
        match value.denominator.checked_mul(divisor) {
            Some(d) => {
                value.denominator = d;
            },
            None => {
                return failure(CssSpecifiedValueSerializationErrorKind::CapacityOverflow);
            },
        }
        proof {
            lemma_mul_strictly_positive(self.denominator as int, divisor as int);
            lemma_scaled_numerator_mul(self.denominator as int, divisor as int, value.exponent as int);
            lemma_mul_is_commutative(n0, d0 * divisor);
        }
        Ok(value)
    }
}


pub proof fn lemma_sign_diff_scale(x: int, y: int, k: int)
    requires
        k > 0,
    ensures
        sign_diff(x * k, y * k) == sign_diff(x, y),
{
    if x < y {
        lemma_mul_strict_inequality(x, y, k);
    } else if y < x {
        lemma_mul_strict_inequality(y, x, k);
    }
}

pub proof fn lemma_sign_diff_neg(x: int, y: int)
    ensures
        sign_diff(-x, -y) == -sign_diff(x, y),
{
}

/// More decimal digits at a scale means a larger scaled value.
pub proof fn lemma_digits_order(x: nat, sx: nat, y: nat, sy: nat)
    requires
        x > 0,
        y > 0,
        crate::bignum::decimal_len_of(x) + sx < crate::bignum::decimal_len_of(y) + sy,
    ensures
        x * pow10(sx) < y * pow10(sy),
{
    let lx = crate::bignum::decimal_len_of(x);
    let ly = crate::bignum::decimal_len_of(y);
    lemma_decimal_len_bounds(x);
    lemma_decimal_len_bounds(y);
    lemma_pow10_positive(sx);
    lemma_pow10_positive(sy);
    lemma_mul_strict_inequality(x as int, pow10(lx) as int, pow10(sx) as int);
    lemma_pow10_add(lx, sx);
    lemma_pow10_add((ly - 1) as nat, sy);
    lemma_pow10_monotonic(lx + sx, (ly - 1 + sy) as nat);
    lemma_mul_inequality(pow10((ly - 1) as nat) as int, y as int, pow10(sy) as int);
}

/// The number of decimal digits of a positive `u64`.
fn u64_decimal_len(value: u64) -> (r: u128)
    ensures
        r == crate::bignum::decimal_len_of(value as nat),
        1 <= r <= 20,
{
    proof {
        assert(pow10(20) == 100000000000000000000) by {
            reveal_with_fuel(pow10, 21);
        }
        crate::bignum::lemma_decimal_len_below(value as nat, 20);
    }
    let mut v = value;
    let mut n: u128 = 1;
    while v >= 10
        invariant
            n + crate::bignum::decimal_len_of(v as nat) - 1 == crate::bignum::decimal_len_of(
                value as nat,
            ),
            1 <= n,
            crate::bignum::decimal_len_of(value as nat) <= 20,
        decreases v,
    {
        assert(crate::bignum::decimal_len_of((v / 10) as nat) >= 1);
        v = v / 10;
        n = n + 1;
    }
    n
}

/// The fields of a value that comparison reads: coefficient, exponent, denominator,
/// sign and tininess.
pub type RationalParts = (nat, int, nat, bool, bool);

pub open spec fn parts(a: ExactRational) -> RationalParts {
    (a.coefficient.value(), a.exponent as int, a.denominator as nat, a.negative, a.unbounded_tiny)
}

/// A comparison that the signs, a zero or an unboundedly tiny operand decide alone.
pub open spec fn compare_shortcut(a: RationalParts, b: RationalParts) -> bool {
    a.0 == 0 || b.0 == 0 || a.3 != b.3 || a.4 || b.4
}

/// Whether the decimal magnitudes of the two cross products tie, so that both are
/// aligned to the smaller exponent and compared digit for digit.
pub open spec fn magnitudes_tie(a: RationalParts, b: RationalParts) -> bool {
    decimal_len_of(a.0 * b.2) + a.1 == decimal_len_of(b.0 * a.2) + b.1
}

pub open spec fn min_exponent(a: RationalParts, b: RationalParts) -> int {
    if a.1 <= b.1 {
        a.1
    } else {
        b.1
    }
}

/// The comparison's intermediate lengths and shifts fit the machine integers that
/// hold them.
pub open spec fn compare_fits(a: RationalParts, b: RationalParts) -> bool {
    compare_shortcut(a, b) || {
        let dl = decimal_len_of(a.0 * b.2) as int;
        let dr = decimal_len_of(b.0 * a.2) as int;
        &&& dl <= i128::MAX && dr <= i128::MAX
        &&& i128::MIN <= dl + a.1 <= i128::MAX
        &&& i128::MIN <= dr + b.1 <= i128::MAX
        &&& magnitudes_tie(a, b) ==> a.1 - min_exponent(a, b) <= usize::MAX && b.1
            - min_exponent(a, b) <= usize::MAX
    }
}

/// What comparing two values charges: each coefficient times the other's denominator,
/// and, when their magnitudes tie, both aligned to the smaller exponent.
pub open spec fn compare_cost(a: RationalParts, b: RationalParts) -> int {
    if compare_shortcut(a, b) {
        0
    } else {
        let l = a.0 * b.2;
        let r = b.0 * a.2;
        limb_len(l) + limb_len(r) + if magnitudes_tie(a, b) {
            mul_pow10_cost(l, (a.1 - min_exponent(a, b)) as nat) + mul_pow10_cost(
                r,
                (b.1 - min_exponent(a, b)) as nat,
            )
        } else {
            0
        }
    }
}

/// What comparing a value with one charges: nothing when the sign, a zero, tininess
/// or the digit counts decide; otherwise the value's coefficient and its denominator,
/// the one scaled by the power of ten that aligns them.
pub open spec fn compare_with_one_cost(a: RationalParts) -> int {
    let (c, e, d, negative, tiny) = a;
    if negative || c == 0 || tiny {
        0
    } else if e >= 0 {
        if e > usize::MAX || decimal_len_of(c) + e > u128::MAX || decimal_len_of(c) + e
            != decimal_len_of(d) {
            0
        } else {
            mul_pow10_cost(c, e as nat) + from_u64_cost(d)
        }
    } else {
        if e < -(usize::MAX as int) || decimal_len_of(c) != decimal_len_of(d) + (-e) {
            0
        } else {
            from_u64_cost(d) + mul_pow10_cost(d, (-e) as nat)
        }
    }
}

/// What reducing `c / d` charges: the coefficient's limbs, when a common factor
/// above one is divided out.
pub open spec fn reduce_cost(c: nat, d: nat) -> int {
    if c == 0 || gcd(c % d, d) <= 1 {
        0
    } else {
        limb_len(c) as int
    }
}

/// What scaling a coefficient `c` by `10^s` and a factor `f` charges.
pub open spec fn scale_cost(c: nat, s: nat, f: nat) -> int {
    mul_pow10_cost(c, s) + small_product_cost(c * pow10(s), f)
}

/// The two operands of a sum over the least common denominator at the smaller
/// exponent, and the factors that bring each denominator there.
pub open spec fn sum_terms(a: RationalParts, b: RationalParts) -> (nat, nat, nat, nat) {
    let m = min_exponent(a, b);
    let g = gcd(a.2, b.2);
    let lf = b.2 / g;
    let rf = a.2 / g;
    (a.0 * pow10((a.1 - m) as nat) * lf, b.0 * pow10((b.1 - m) as nat) * rf, lf, rf)
}

/// The machine integers of a sum hold their values.
pub open spec fn sum_fits(a: RationalParts, b: RationalParts) -> bool {
    let m = min_exponent(a, b);
    &&& a.1 - m <= usize::MAX
    &&& b.1 - m <= usize::MAX
    &&& a.2 * sum_terms(a, b).2 <= u64::MAX
}

/// What an exact sum charges: scaling both operands, adding or subtracting their
/// magnitudes, then reducing the result.
pub open spec fn sum_cost(a: RationalParts, b: RationalParts) -> int {
    let m = min_exponent(a, b);
    let (l, r, lf, rf) = sum_terms(a, b);
    let combined: (int, nat) = if a.3 == b.3 {
        ((if limb_len(l) >= limb_len(r) {
            limb_len(l) as int
        } else {
            limb_len(r) as int
        }) + 1, (l + r) as nat)
    } else if l > r {
        (limb_len(l) as int, (l - r) as nat)
    } else if l < r {
        (limb_len(r) as int, (r - l) as nat)
    } else {
        (0, 0)
    };
    scale_cost(a.0, (a.1 - m) as nat, lf) + scale_cost(b.0, (b.1 - m) as nat, rf) + combined.0
        + reduce_cost(combined.1, a.2 * lf)
}

/// What the unreduced sum of two nonnegative values charges: each coefficient
/// scaled to the smaller exponent and by the other's denominator, then their sum.
pub open spec fn nonnegative_sum_cost(a: RationalParts, b: RationalParts) -> int {
    let m = min_exponent(a, b);
    let l = a.0 * pow10((a.1 - m) as nat) * b.2;
    let r = b.0 * pow10((b.1 - m) as nat) * a.2;
    scale_cost(a.0, (a.1 - m) as nat, b.2) + scale_cost(b.0, (b.1 - m) as nat, a.2) + (if limb_len(
        l,
    ) >= limb_len(r) {
        limb_len(l) as int
    } else {
        limb_len(r) as int
    }) + 1
}

/// What `minuend - x` charges: storing the integer, scaling both to the smaller of
/// the exponents and zero (the integer also by the denominator), then subtracting.
pub open spec fn difference_cost(a: RationalParts, minuend: nat) -> int {
    let m = if a.1 <= 0 {
        a.1
    } else {
        0int
    };
    from_u64_cost(minuend) + scale_cost(minuend, (0 - m) as nat, a.2) + scale_cost(
        a.0,
        (a.1 - m) as nat,
        1,
    ) + limb_len(minuend * pow10((0 - m) as nat) * a.2)
}

/// What clamping a value into `[0, 1]` charges: nothing for a value at most zero;
/// otherwise the comparison with one, and the integer one when the value exceeds it.
pub open spec fn clamp_cost(a: RationalParts) -> int {
    if a.3 || a.0 == 0 {
        0
    } else {
        compare_with_one_cost(a) + if !a.4 && scaled_numerator(a.0 as int, a.1)
            > scaled_denominator(a.2 as int, a.1) {
            1int
        } else {
            0
        }
    }
}

/// The parts of the negation.
pub open spec fn negated(a: RationalParts) -> RationalParts {
    (a.0, a.1, a.2, if a.0 == 0 { a.3 } else { !a.3 }, a.4)
}

/// The parts of the integer `v`.
pub open spec fn integer_parts(v: nat) -> RationalParts {
    (v, 0, 1, false, false)
}

impl ExactRational {
    /// The sign of `self - other`.
    #[verifier::spinoff_prover]
    #[verifier::rlimit(60)]
    pub fn compare_sign(&self, other: &Self, context: &mut SpecifiedSerializationContext) -> (r:
        SerializationResult<i8>)
        requires
            self.wf(),
            other.wf(),
            old(context).wf(),
        ensures
            final(context).wf(),
            budget_only(*old(context), *final(context)),
            self.is_exact() && other.is_exact() ==> (r matches Ok(s) ==> s == ratio_order(
                self.num(),
                self.den(),
                other.num(),
                other.den(),
            )),
            r matches Err(e) ==> arithmetic_error(e.kind),
            (self.unbounded_tiny || other.unbounded_tiny) && self.coefficient.value() > 0
                && other.coefficient.value() > 0 && self.negative == other.negative ==> r == if self.unbounded_tiny
                && other.unbounded_tiny {
                if self.same_fields(other) {
                    Ok::<i8, CssSpecifiedValueSerializationError>(0)
                } else {
                    Err(
                        CssSpecifiedValueSerializationError {
                            kind: CssSpecifiedValueSerializationErrorKind::ByteLimit,
                        },
                    )
                }
            } else if self.unbounded_tiny {
                Ok(-1i8)
            } else {
                Ok(1i8)
            },
            self.is_exact() && other.is_exact() && compare_fits(parts(*self), parts(*other))
                ==> budget_charged(r, *old(context), *final(context), compare_cost(parts(*self), parts(*other))),
    {
        let ghost c0 = *context;
        let left_zero = self.is_zero();
        let right_zero = other.is_zero();
        proof {
            lemma_den_positive(self.denominator as int, self.exponent as int);
            lemma_den_positive(other.denominator as int, other.exponent as int);
            lemma_split(self.signed(), self.denominator as int, self.exponent as int);
            lemma_split(other.signed(), other.denominator as int, other.exponent as int);
            lemma_pow10_positive(pos_part(self.exponent as int));
            lemma_pow10_positive(pos_part(other.exponent as int));
            let a = self.num();
            let b = other.num();
            let qa = self.den();
            let qb = other.den();
            if a > 0 {
                lemma_mul_strictly_positive(a, qb);
            }
            if a < 0 {
                lemma_mul_strictly_positive(-a, qb);
                lemma_mul_unary_negation(a, qb);
            }
            if b > 0 {
                lemma_mul_strictly_positive(b, qa);
            }
            if b < 0 {
                lemma_mul_strictly_positive(-b, qa);
                lemma_mul_unary_negation(b, qa);
            }
            if a == 0 {
                lemma_mul_basics(qb);
            }
            if b == 0 {
                lemma_mul_basics(qa);
            }
            if self.signed() > 0 {
                lemma_mul_strictly_positive(self.signed(), pow10(pos_part(self.exponent as int)) as int);
            }
            if self.signed() < 0 {
                lemma_mul_strictly_positive(-self.signed(), pow10(pos_part(self.exponent as int)) as int);
                lemma_mul_unary_negation(self.signed(), pow10(pos_part(self.exponent as int)) as int);
            }
            if other.signed() > 0 {
                lemma_mul_strictly_positive(other.signed(), pow10(pos_part(other.exponent as int)) as int);
            }
            if other.signed() < 0 {
                lemma_mul_strictly_positive(-other.signed(), pow10(pos_part(other.exponent as int)) as int);
                lemma_mul_unary_negation(other.signed(), pow10(pos_part(other.exponent as int)) as int);
            }
        }
        if left_zero && right_zero {
            return Ok(0);
        }
        if left_zero {
            return Ok(
                if other.negative {
                    1
                } else {
                    -1
                },
            );
        }
        if right_zero {
            return Ok(
                if self.negative {
                    -1
                } else {
                    1
                },
            );
        }
        if self.negative != other.negative {
            return Ok(
                if self.negative {
                    -1
                } else {
                    1
                },
            );
        }
        if self.unbounded_tiny || other.unbounded_tiny {
            if self.unbounded_tiny && other.unbounded_tiny {
                if self.coefficient.compare_sign(&other.coefficient) == 0 && self.exponent
                    == other.exponent && self.denominator == other.denominator {
                    return Ok(0);
                }
                return failure(CssSpecifiedValueSerializationErrorKind::ByteLimit);
            }
            return Ok(
                if self.unbounded_tiny {
                    -1
                } else {
                    1
                },
            );
        }
        let ghost cl = self.coefficient.value() * (other.denominator as nat);
        let ghost cr = other.coefficient.value() * (self.denominator as nat);
        let ghost total = compare_cost(parts(*self), parts(*other));
        proof {
            assert(self.coefficient.value() > 0 && other.coefficient.value() > 0);
            assert(total >= limb_len(cl) + limb_len(cr));
        }
        let left_result = self.coefficient.mul_small(other.denominator, context);
        proof {
            lemma_single_charge(left_result, c0, *context, limb_len(cl) as int);
        }
        let left = match left_result {
            Ok(v) => v,
            Err(e) => {
                return Err(e);
            },
        };
        let ghost c1 = *context;
        let right_result = other.coefficient.mul_small(self.denominator, context);
        proof {
            lemma_single_charge(right_result, c1, *context, limb_len(cr) as int);
        }
        let right = match right_result {
            Ok(v) => v,
            Err(e) => {
                return Err(e);
            },
        };
        let ghost c2 = *context;
        let left_len = left.decimal_len();
        let right_len = right.decimal_len();
        if left_len > i128::MAX as u128 || right_len > i128::MAX as u128 {
            return failure(CssSpecifiedValueSerializationErrorKind::CapacityOverflow);
        }
        let left_magnitude = match (left_len as i128).checked_add(self.exponent) {
            Some(v) => v,
            None => {
                return failure(CssSpecifiedValueSerializationErrorKind::CapacityOverflow);
            },
        };
        let right_magnitude = match (right_len as i128).checked_add(other.exponent) {
            Some(v) => v,
            None => {
                return failure(CssSpecifiedValueSerializationErrorKind::CapacityOverflow);
            },
        };
        let exponent = if self.exponent <= other.exponent {
            self.exponent
        } else {
            other.exponent
        };
        let ghost m = exponent as int;
        let ghost sa = (self.exponent - m) as nat;
        let ghost sb = (other.exponent - m) as nat;
        let ghost l = left.value();
        let ghost rv = right.value();
        proof {
            lemma_positive_scale(self.coefficient.value(), 1, other.denominator as nat);
            lemma_positive_scale(other.coefficient.value(), 1, self.denominator as nat);
            lemma_cross_at_common(
                self.coefficient.value() as int,
                self.exponent as int,
                self.denominator as int,
                other.coefficient.value() as int,
                other.exponent as int,
                other.denominator as int,
            );
        }
        let order: i8 = if left_magnitude < right_magnitude {
            proof {
                lemma_digits_order(l, sa, rv, sb);
            }
            -1
        } else if left_magnitude > right_magnitude {
            proof {
                lemma_digits_order(rv, sb, l, sa);
            }
            1
        } else {
            let left_shift = self.exponent - exponent;
            let right_shift = other.exponent - exponent;
            if left_shift > usize::MAX as i128 || right_shift > usize::MAX as i128 {
                return failure(CssSpecifiedValueSerializationErrorKind::CapacityOverflow);
            }
            let left_scaled = match left.mul_pow10(left_shift as usize, context) {
                Ok(v) => v,
                Err(e) => {
                    return Err(e);
                },
            };
            let right_scaled = match right.mul_pow10(right_shift as usize, context) {
                Ok(v) => v,
                Err(e) => {
                    return Err(e);
                },
            };
            left_scaled.compare_sign(&right_scaled)
        };
        proof {
            let k = (neg_part(self.exponent as int) + neg_part(other.exponent as int) + m) as nat;
            lemma_pow10_positive(k);
            let x: int = (l * pow10(sa)) as int;
            let y: int = (rv * pow10(sb)) as int;
            lemma_sign_diff_scale(x, y, pow10(k) as int);
            lemma_mul_is_commutative(self.coefficient.value() as int, other.denominator as int);
            lemma_mul_is_commutative(other.coefficient.value() as int, self.denominator as int);
            if self.negative {
                let ca = self.coefficient.value() as int;
                let cb = other.coefficient.value() as int;
                lemma_cross_at_common(
                    -ca,
                    self.exponent as int,
                    self.denominator as int,
                    -cb,
                    other.exponent as int,
                    other.denominator as int,
                );
                lemma_signed_scale(true, ca, other.denominator as int, 1);
                assert(-ca * (other.denominator as int) == -(ca * (other.denominator as int))) by {
                    lemma_mul_unary_negation(ca, other.denominator as int);
                }
                assert(-cb * (self.denominator as int) == -(cb * (self.denominator as int))) by {
                    lemma_mul_unary_negation(cb, self.denominator as int);
                }
                lemma_mul_unary_negation(l as int, pow10(sa) as int);
                lemma_mul_unary_negation(rv as int, pow10(sb) as int);
                lemma_mul_unary_negation(x, pow10(k) as int);
                lemma_mul_unary_negation(y, pow10(k) as int);
                lemma_sign_diff_neg(x * (pow10(k) as int), y * (pow10(k) as int));
            }
        }
        Ok(
            if self.negative {
                -order
            } else {
                order
            },
        )
    }
}


/// A sign as an ordering.
pub open spec fn ordering_of(s: int) -> core::cmp::Ordering {
    if s < 0 {
        core::cmp::Ordering::Less
    } else if s == 0 {
        core::cmp::Ordering::Equal
    } else {
        core::cmp::Ordering::Greater
    }
}

/// Well-formed values have positive denominators.
proof fn lemma_dens_positive(a: ExactRational, b: ExactRational)
    requires
        a.wf(),
        b.wf(),
    ensures
        a.den() > 0,
        b.den() > 0,
{
    lemma_den_positive(a.denominator as int, a.exponent as int);
    lemma_den_positive(b.denominator as int, b.exponent as int);
}

/// The opposite order.
pub open spec fn reversed_order(o: core::cmp::Ordering) -> core::cmp::Ordering {
    match o {
        core::cmp::Ordering::Less => core::cmp::Ordering::Greater,
        core::cmp::Ordering::Equal => core::cmp::Ordering::Equal,
        core::cmp::Ordering::Greater => core::cmp::Ordering::Less,
    }
}

/// The exact order that `compare` reports is an order: a value equals itself,
/// swapping the operands reverses the order, and zero equals zero whatever its sign.
pub proof fn lemma_compare_order(a: ExactRational, b: ExactRational)
    requires
        a.wf(),
        b.wf(),
        a.is_exact(),
        b.is_exact(),
    ensures
        ordering_of(ratio_order(a.num(), a.den(), a.num(), a.den())) == core::cmp::Ordering::Equal,
        ordering_of(ratio_order(a.num(), a.den(), b.num(), b.den())) == reversed_order(
            ordering_of(ratio_order(b.num(), b.den(), a.num(), a.den())),
        ),
        a.coefficient.value() == 0 && b.coefficient.value() == 0 ==> ordering_of(
            ratio_order(a.num(), a.den(), b.num(), b.den()),
        ) == core::cmp::Ordering::Equal,
{
    lemma_dens_positive(a, b);
    lemma_ratio_order_total(a.num(), a.den(), b.num(), b.den(), a.num(), a.den());
    if a.coefficient.value() == 0 && b.coefficient.value() == 0 {
        lemma_signed_zero_order(a, b);
    }
}

impl ExactRational {
    /// Orders two values exactly.
    pub fn compare(&self, other: &Self, context: &mut SpecifiedSerializationContext) -> (r:
        SerializationResult<core::cmp::Ordering>)
        requires
            self.wf(),
            other.wf(),
            old(context).wf(),
        ensures
            final(context).wf(),
            budget_only(*old(context), *final(context)),
            self.is_exact() && other.is_exact() ==> (r matches Ok(o) ==> o == ordering_of(
                ratio_order(self.num(), self.den(), other.num(), other.den()),
            )),
            r matches Err(e) ==> arithmetic_error(e.kind),
            self.is_exact() && other.is_exact() && compare_fits(parts(*self), parts(*other))
                ==> budget_charged(r, *old(context), *final(context), compare_cost(parts(*self), parts(*other))),
    {
        match self.compare_sign(other, context) {
            Ok(s) => Ok(
                if s < 0 {
                    core::cmp::Ordering::Less
                } else if s == 0 {
                    core::cmp::Ordering::Equal
                } else {
                    core::cmp::Ordering::Greater
                },
            ),
            Err(e) => Err(e),
        }
    }
}

impl ExactRational {
    /// The sign of `self - 1`; nonpositive and unboundedly tiny values are below one.
    pub fn compare_with_one(&self, context: &mut SpecifiedSerializationContext) -> (r:
        SerializationResult<i8>)
        requires
            self.wf(),
            old(context).wf(),
        ensures
            final(context).wf(),
            budget_only(*old(context), *final(context)),
            self.is_exact() && self.addressable() ==> (r matches Ok(s) ==> s == ratio_order(
                self.num(),
                self.den(),
                1,
                1,
            )),
            self.unbounded_tiny || self.negative || self.coefficient.value() == 0 ==> r == Ok::<
                i8,
                CssSpecifiedValueSerializationError,
            >(-1i8),
            r matches Err(e) ==> budget_error(e.kind),
            budget_charged(r, *old(context), *final(context), compare_with_one_cost(parts(*self))),
    {
        proof {
            lemma_split(self.signed(), self.denominator as int, self.exponent as int);
            lemma_den_positive(self.denominator as int, self.exponent as int);
            lemma_pow10_positive(pos_part(self.exponent as int));
            lemma_pow10_positive(neg_part(self.exponent as int));
            lemma_mul_basics(self.num());
            lemma_mul_basics(self.den());
            if self.negative {
                lemma_mul_strictly_positive(
                    self.coefficient.value() as int,
                    pow10(pos_part(self.exponent as int)) as int,
                );
                lemma_mul_unary_negation(
                    self.coefficient.value() as int,
                    pow10(pos_part(self.exponent as int)) as int,
                );
            }
            if self.coefficient.value() == 0 {
                lemma_mul_basics(pow10(pos_part(self.exponent as int)) as int);
            }
        }
        if self.negative || self.is_zero() || self.unbounded_tiny {
            return Ok(-1);
        }
        let coefficient_digits = self.coefficient.decimal_len();
        let denominator_digits = u64_decimal_len(self.denominator);
        let ghost c = self.coefficient.value();
        let ghost d = self.denominator as nat;
        if self.exponent >= 0 {
            if self.exponent > usize::MAX as i128 {
                proof {
                    lemma_digits_order(d, 0, c, self.exponent as nat);
                    lemma_pow10_positive(0);
                    lemma_mul_basics(d as int);
                    assert(pow10(0) == 1);
                }
                return Ok(1);
            }
            let shift = self.exponent as usize;
            let left_digits = match coefficient_digits.checked_add(shift as u128) {
                Some(v) => v,
                None => {
                    proof {
                        lemma_digits_order(d, 0, c, shift as nat);
                        assert(pow10(0) == 1);
                    }
                    return Ok(1);
                },
            };
            if left_digits < denominator_digits {
                proof {
                    lemma_digits_order(c, shift as nat, d, 0);
                    assert(pow10(0) == 1);
                }
                return Ok(-1);
            }
            if left_digits > denominator_digits {
                proof {
                    lemma_digits_order(d, 0, c, shift as nat);
                    assert(pow10(0) == 1);
                }
                return Ok(1);
            }
            let left = match self.coefficient.mul_pow10(shift, context) {
                Ok(v) => v,
                Err(e) => {
                    return Err(e);
                },
            };
            let ghost c1 = *context;
            let stored = BigCoefficient::from_u64(self.denominator, context);
            proof {
                lemma_single_charge(stored, c1, *context, from_u64_cost(self.denominator as nat));
            }
            let right = match stored {
                Ok(v) => v,
                Err(e) => {
                    return Err(e);
                },
            };
            Ok(left.compare_sign(&right))
        } else {
            if self.exponent < -(usize::MAX as i128) {
                proof {
                    if self.addressable() {
                        lemma_decimal_len_bounds(d);
                        lemma_digits_order(c, 0, d, (-self.exponent) as nat);
                    }
                    assert(pow10(0) == 1);
                }
                return Ok(-1);
            }
            let power = (-self.exponent) as usize;
            let right_digits = denominator_digits + power as u128;
            if coefficient_digits < right_digits {
                proof {
                    lemma_digits_order(c, 0, d, power as nat);
                    assert(pow10(0) == 1);
                }
                return Ok(-1);
            }
            if coefficient_digits > right_digits {
                proof {
                    lemma_digits_order(d, power as nat, c, 0);
                    assert(pow10(0) == 1);
                }
                return Ok(1);
            }
            let ghost c1 = *context;
            let stored = BigCoefficient::from_u64(self.denominator, context);
            proof {
                lemma_single_charge(stored, c1, *context, from_u64_cost(self.denominator as nat));
            }
            let unit = match stored {
                Ok(v) => v,
                Err(e) => {
                    return Err(e);
                },
            };
            let right = match unit.mul_pow10(power, context) {
                Ok(v) => v,
                Err(e) => {
                    return Err(e);
                },
            };
            Ok(self.coefficient.compare_sign(&right))
        }
    }

    /// Whether the value is exactly `numerator / denominator`.
    pub fn equals_ratio(
        &self,
        numerator: u64,
        denominator: u64,
        context: &mut SpecifiedSerializationContext,
    ) -> (r: SerializationResult<bool>)
        requires
            self.wf(),
            old(context).wf(),
        ensures
            final(context).wf(),
            budget_only(*old(context), *final(context)),
            denominator == 0 ==> kind_error(
                r,
                CssSpecifiedValueSerializationErrorKind::CapacityOverflow,
            ),
            self.is_exact() && self.addressable() && denominator > 0 ==> (r matches Ok(b) ==> b
                == same_ratio(
                self.num(),
                self.den(),
                numerator as int,
                denominator as int,
            )),
            self.unbounded_tiny && self.coefficient.value() > 0 ==> (r matches Ok(b) ==> !b),
            r matches Err(e) ==> arithmetic_error(e.kind),
            denominator > 0 && (numerator == denominator || numerator == 0 || (self.is_exact()
                && compare_fits(parts(*self), (numerator as nat, 0int, denominator as nat, false, false))))
                ==> budget_charged(
                r,
                *old(context),
                *final(context),
                if numerator == denominator {
                    compare_with_one_cost(parts(*self))
                } else if numerator == 0 {
                    0
                } else {
                    from_u64_cost(numerator as nat) + compare_cost(
                        parts(*self),
                        (numerator as nat, 0int, denominator as nat, false, false),
                    )
                },
            ),
    {
        if denominator == 0 {
            return failure(CssSpecifiedValueSerializationErrorKind::CapacityOverflow);
        }
        if numerator == denominator {
            let order = match self.compare_with_one(context) {
                Ok(o) => o,
                Err(e) => {
                    return Err(e);
                },
            };
            proof {
                lemma_mul_basics(self.num());
                lemma_mul_basics(self.den());
                lemma_mul_is_commutative(self.num(), denominator as int);
                lemma_mul_is_commutative(self.den(), denominator as int);
                if self.num() < self.den() {
                    lemma_mul_strict_inequality(self.num(), self.den(), denominator as int);
                }
                if self.num() > self.den() {
                    lemma_mul_strict_inequality(self.den(), self.num(), denominator as int);
                }
            }
            return Ok(order == 0);
        }
        if numerator == 0 {
            proof {
                lemma_den_positive(self.denominator as int, self.exponent as int);
                lemma_mul_basics(self.den());
                lemma_mul_basics(denominator as int);
                if self.num() != 0 {
                    lemma_mul_nonzero(self.num(), denominator as int);
                }
            }
            return Ok(self.is_zero());
        }
        let ghost c0 = *context;
        let stored = BigCoefficient::from_u64(numerator, context);
        proof {
            lemma_single_charge(stored, c0, *context, from_u64_cost(numerator as nat));
        }
        let coefficient = match stored {
            Ok(v) => v,
            Err(e) => {
                return Err(e);
            },
        };
        let other = Self {
            coefficient,
            exponent: 0,
            denominator,
            negative: false,
            unbounded_tiny: false,
        };
        proof {
            lemma_pow10_positive(0);
            assert(pow10(0) == 1);
            lemma_mul_basics(numerator as int);
            assert(other.num() == numerator as int);
            assert(other.den() == denominator as int);
        }
        proof {
            assert(parts(other) == (numerator as nat, 0int, denominator as nat, false, false));
        }
        let order = match self.compare_sign(&other, context) {
            Ok(o) => o,
            Err(e) => {
                return Err(e);
            },
        };
        Ok(order == 0)
    }

    /// Clamps the value into `[0, 1]`; an unboundedly tiny value is already inside.
    pub fn clamp_unit(self, context: &mut SpecifiedSerializationContext) -> (r:
        SerializationResult<Self>)
        requires
            self.wf(),
            old(context).wf(),
        ensures
            final(context).wf(),
            budget_only(*old(context), *final(context)),
            r matches Ok(v) ==> v.wf(),
            self.is_exact() && self.addressable() ==> (r matches Ok(v) ==> v.is_exact() && if self.num() <= 0 {
                v.equals(0, 1)
            } else if self.num() > self.den() {
                v.equals(1, 1)
            } else {
                v.same_fields(&self)
            }),
            self.unbounded_tiny && self.coefficient.value() > 0 ==> (r matches Ok(v)
                ==> v.same_fields(&self)),
            r matches Err(e) ==> budget_error(e.kind),
            self.unbounded_tiny || self.addressable() ==> budget_charged(
                r,
                *old(context),
                *final(context),
                clamp_cost(parts(self)),
            ),
    {
        proof {
            lemma_split(self.signed(), self.denominator as int, self.exponent as int);
            lemma_pow10_positive(pos_part(self.exponent as int));
            if self.negative {
                lemma_mul_strictly_positive(
                    self.coefficient.value() as int,
                    pow10(pos_part(self.exponent as int)) as int,
                );
                lemma_mul_unary_negation(
                    self.coefficient.value() as int,
                    pow10(pos_part(self.exponent as int)) as int,
                );
            }
            if !self.negative && self.coefficient.value() > 0 {
                lemma_mul_strictly_positive(
                    self.coefficient.value() as int,
                    pow10(pos_part(self.exponent as int)) as int,
                );
            }
            if self.coefficient.value() == 0 {
                lemma_mul_basics(pow10(pos_part(self.exponent as int)) as int);
            }
            lemma_mul_basics(self.num());
            lemma_mul_basics(self.den());
        }
        if self.negative || self.is_zero() {
            let zero = Self::integer(0, context)?;
            proof {
                lemma_mul_basics(zero.den());
            }
            return Ok(zero);
        }
        let ghost c0 = *context;
        let order = match self.compare_with_one(context) {
            Ok(o) => o,
            Err(e) => {
                return Err(e);
            },
        };
        if order == 1 {
            let one = match Self::integer(1, context) {
                Ok(v) => v,
                Err(e) => {
                    return Err(e);
                },
            };
            return Ok(one);
        }
        Ok(self)
    }

    /// The smaller of a nonnegative value and a nonnegative integer.
    pub fn min_integer(self, maximum: u64, context: &mut SpecifiedSerializationContext) -> (r:
        SerializationResult<Self>)
        requires
            self.wf(),
            !self.negative,
            old(context).wf(),
        ensures
            final(context).wf(),
            budget_only(*old(context), *final(context)),
            r matches Ok(v) ==> v.wf(),
            self.is_exact() ==> (r matches Ok(v) ==> v.is_exact() && if self.num() > maximum
                * self.den() {
                v.equals(maximum as int, 1)
            } else {
                v.same_fields(&self)
            }),
            r matches Err(e) ==> arithmetic_error(e.kind),
            self.is_exact() && compare_fits(parts(self), integer_parts(maximum as nat)) ==> budget_charged(
                r,
                *old(context),
                *final(context),
                from_u64_cost(maximum as nat) + compare_cost(parts(self), integer_parts(maximum as nat)),
            ),
    {
        let ghost c0 = *context;
        let bound = match Self::integer(maximum, context) {
            Ok(v) => v,
            Err(e) => {
                return Err(e);
            },
        };
        proof {
            assert(parts(bound) == integer_parts(maximum as nat));
        }
        let order = match self.compare_sign(&bound, context) {
            Ok(o) => o,
            Err(e) => {
                return Err(e);
            },
        };
        proof {
            lemma_mul_basics(self.num());
            lemma_mul_is_commutative(maximum as int, self.den());
        }
        if order == 1 {
            Ok(bound)
        } else {
            Ok(self)
        }
    }

    /// The larger of the value and zero.
    pub fn max_zero(self, context: &mut SpecifiedSerializationContext) -> (r:
        SerializationResult<Self>)
        requires
            self.wf(),
            old(context).wf(),
        ensures
            final(context).wf(),
            budget_only(*old(context), *final(context)),
            r matches Ok(v) ==> v.wf() && if self.negative || self.coefficient.value() == 0 {
                v.is_exact() && v.equals(0, 1)
            } else {
                v.same_fields(&self)
            },
            r matches Err(e) ==> budget_error(e.kind),
            r is Ok,
            *final(context) == *old(context),
    {
        if self.negative || self.is_zero() {
            let zero = Self::integer(0, context)?;
            proof {
                lemma_mul_basics(zero.den());
            }
            Ok(zero)
        } else {
            Ok(self)
        }
    }

    /// Orders the value against a nonnegative integer.
    pub fn compare_integer(&self, value: u64, context: &mut SpecifiedSerializationContext) -> (r:
        SerializationResult<i8>)
        requires
            self.wf(),
            old(context).wf(),
        ensures
            final(context).wf(),
            budget_only(*old(context), *final(context)),
            self.is_exact() ==> (r matches Ok(s) ==> s == ratio_order(
                self.num(),
                self.den(),
                value as int,
                1,
            )),
            r matches Err(e) ==> arithmetic_error(e.kind),
            self.is_exact() && compare_fits(parts(*self), integer_parts(value as nat)) ==> budget_charged(
                r,
                *old(context),
                *final(context),
                from_u64_cost(value as nat) + compare_cost(parts(*self), integer_parts(value as nat)),
            ),
    {
        let other = match Self::integer(value, context) {
            Ok(v) => v,
            Err(e) => {
                return Err(e);
            },
        };
        proof {
            assert(parts(other) == integer_parts(value as nat));
        }
        self.compare_sign(&other, context)
    }
}


impl ExactRational {
    /// The exact sum of two nonnegative values over the product of their denominators.
    pub fn add_nonnegative(&self, other: &Self, context: &mut SpecifiedSerializationContext) -> (r:
        SerializationResult<Self>)
        requires
            self.wf(),
            other.wf(),
            !self.negative,
            !other.negative,
            old(context).wf(),
        ensures
            final(context).wf(),
            budget_only(*old(context), *final(context)),
            (self.unbounded_tiny || other.unbounded_tiny) ==> r is Err,
            r matches Ok(v) ==> v.wf() && v.is_exact() && !v.negative && v.equals(
                self.num() * other.den() + other.num() * self.den(),
                self.den() * other.den(),
            ),
            r matches Err(e) ==> arithmetic_error(e.kind),
            self.is_exact() && other.is_exact() && self.denominator * other.denominator <= u64::MAX
                && self.exponent - min_exponent(parts(*self), parts(*other)) <= usize::MAX
                && other.exponent - min_exponent(parts(*self), parts(*other)) <= usize::MAX
                ==> budget_charged(
                r,
                *old(context),
                *final(context),
                nonnegative_sum_cost(parts(*self), parts(*other)),
            ),
    {
        let exponent = if self.exponent <= other.exponent {
            self.exponent
        } else {
            other.exponent
        };
        let denominator = match self.denominator.checked_mul(other.denominator) {
            Some(d) => d,
            None => {
                return failure(CssSpecifiedValueSerializationErrorKind::CapacityOverflow);
            },
        };
        let left = match self.scaled_coefficient(exponent, other.denominator, context) {
            Ok(v) => v,
            Err(e) => {
                return Err(e);
            },
        };
        let right = match other.scaled_coefficient(exponent, self.denominator, context) {
            Ok(v) => v,
            Err(e) => {
                return Err(e);
            },
        };
        let ghost c2 = *context;
        proof {
            lemma_limbs_normal_len(left.limbs@);
            lemma_limbs_normal_len(right.limbs@);
        }
        let step = left.add(&right, context);
        proof {
            lemma_single_charge(
                step,
                c2,
                *context,
                (if left.limbs.len() >= right.limbs.len() {
                    left.limbs.len()
                } else {
                    right.limbs.len()
                }) + 1,
            );
        }
        let coefficient = match step {
            Ok(v) => v,
            Err(e) => {
                return Err(e);
            },
        };
        let sum = Self { coefficient, exponent, denominator, negative: false, unbounded_tiny: false };
        proof {
            let m = exponent as int;
            let sa = (self.exponent - m) as nat;
            let sb = (other.exponent - m) as nat;
            let da = self.denominator as int;
            let db = other.denominator as int;
            lemma_mul_strictly_positive(da, db);
            lemma_rescale(self.signed(), self.exponent as int, sa, da, db);
            lemma_rescale(other.signed(), other.exponent as int, sb, db, da);
            lemma_mul_is_commutative(da, db);
            lemma_sum_same_den(
                scaled_numerator(left.value() as int, m),
                scaled_numerator(right.value() as int, m),
                scaled_denominator(denominator as int, m),
                self.num(),
                self.den(),
                other.num(),
                other.den(),
            );
            lemma_scaled_numerator_add(left.value() as int, right.value() as int, m);
        }
        Ok(sum)
    }

    /// `minuend - self` for a nonnegative value no larger than `minuend`.
    pub fn subtract_from_integer(&self, minuend: u64, context: &mut SpecifiedSerializationContext) -> (r:
        SerializationResult<Self>)
        requires
            self.wf(),
            !self.negative,
            self.is_exact() ==> self.num() <= minuend * self.den(),
            old(context).wf(),
        ensures
            final(context).wf(),
            budget_only(*old(context), *final(context)),
            self.unbounded_tiny ==> r is Err,
            r matches Ok(v) ==> v.wf() && v.is_exact() && !v.negative && v.equals(
                minuend * self.den() - self.num(),
                self.den(),
            ),
            r matches Err(e) ==> arithmetic_error(e.kind),
            self.is_exact() && -(usize::MAX as int) <= self.exponent <= usize::MAX ==> budget_charged(
                r,
                *old(context),
                *final(context),
                difference_cost(parts(*self), minuend as nat),
            ),
    {
        let upper = match Self::integer(minuend, context) {
            Ok(v) => v,
            Err(e) => {
                return Err(e);
            },
        };
        let exponent = if self.exponent <= 0 {
            self.exponent
        } else {
            0
        };
        let denominator = self.denominator;
        let left = match upper.scaled_coefficient(exponent, denominator, context) {
            Ok(v) => v,
            Err(e) => {
                return Err(e);
            },
        };
        let right = match self.scaled_coefficient(exponent, 1, context) {
            Ok(v) => v,
            Err(e) => {
                return Err(e);
            },
        };
        let ghost c3 = *context;
        proof {
            lemma_limbs_normal_len(left.limbs@);
        }
        let ghost m = exponent as int;
        let ghost c = self.coefficient.value() as int;
        let ghost e = self.exponent as int;
        let ghost dd = denominator as int;
        proof {
            assert(upper.coefficient.value() == minuend);
            assert(upper.exponent == 0);
            lemma_cross_at_common(c, e, dd, minuend as int, 0, 1);
            let k = (neg_part(e) + neg_part(0) + m) as nat;
            lemma_pow10_positive(k);
            lemma_mul_basics(self.num());
            lemma_mul_basics(minuend as int);
            assert(pow10(0) == 1);
            let x = c * 1 * pow10((e - m) as nat);
            let y = minuend * dd * pow10((0 - m) as nat);
            assert(x * pow10(k) <= y * pow10(k));
            if x > y {
                lemma_mul_strict_inequality(y, x, pow10(k) as int);
            }
            lemma_mul_basics(c);
            lemma_mul_is_commutative(c, pow10((e - m) as nat) as int);
            lemma_mul_is_associative(minuend as int, pow10((0 - m) as nat) as int, dd);
            lemma_mul_is_associative(minuend as int, dd, pow10((0 - m) as nat) as int);
            lemma_mul_is_commutative(dd, pow10((0 - m) as nat) as int);
            assert(left.value() >= right.value());
        }
        let step = left.subtract(&right, context);
        proof {
            lemma_single_charge(step, c3, *context, left.limbs.len() as int);
        }
        let coefficient = match step {
            Ok(v) => v,
            Err(e) => {
                return Err(e);
            },
        };
        let difference = Self { coefficient, exponent, denominator, negative: false, unbounded_tiny: false };
        proof {
            let s = (0 - m) as nat;
            lemma_rescale(minuend as int, 0, s, 1, dd);
            lemma_rescale(c, e, (e - m) as nat, dd, 1);
            lemma_mul_basics(dd);
            let q = scaled_denominator(dd, m);
            let a = scaled_numerator(left.value() as int, m);
            let b = scaled_numerator(right.value() as int, m);
            assert(same_ratio(a, q, minuend as int, 1));
            assert(same_ratio(b, q, self.num(), self.den()));
            assert(same_ratio(-b, q, -self.num(), self.den())) by {
                lemma_mul_unary_negation(b, self.den());
                lemma_mul_unary_negation(self.num(), q);
            }
            lemma_sum_same_den(a, -b, q, minuend as int, 1, -self.num(), self.den());
            lemma_scaled_numerator_add(left.value() as int, -(right.value() as int), m);
            lemma_scaled_numerator_neg(right.value() as int, m);
            lemma_mul_basics(self.den());
            lemma_mul_basics(-self.num());
        }
        Ok(difference)
    }
}


/// `2^n` and `5^n`.
pub open spec fn pow2(n: nat) -> nat
    decreases n,
{
    if n == 0 {
        1
    } else {
        2 * pow2((n - 1) as nat)
    }
}

pub open spec fn pow5(n: nat) -> nat
    decreases n,
{
    if n == 0 {
        1
    } else {
        5 * pow5((n - 1) as nat)
    }
}

/// `n` without its factors two and five.
pub open spec fn strip_two_five(n: nat) -> nat
    decreases n,
{
    if n == 0 {
        0
    } else if n % 2 == 0 {
        strip_two_five(n / 2)
    } else if n % 5 == 0 {
        strip_two_five(n / 5)
    } else {
        n
    }
}

/// The denominator left once the coefficient's common factor is cancelled.
pub open spec fn reduced_denominator(c: nat, d: nat) -> nat {
    if c == 0 {
        1
    } else {
        d / gcd(c % d, d)
    }
}

/// The coefficient of `c / d` after the common factor is divided out.
pub open spec fn reduced_coefficient(c: nat, d: nat) -> nat {
    if c == 0 {
        0
    } else {
        c / gcd(c % d, d)
    }
}

/// How many times two divides `n`.
pub open spec fn twos_in(n: nat) -> nat
    decreases n,
{
    if n > 0 && n % 2 == 0 {
        1 + twos_in(n / 2)
    } else {
        0
    }
}

/// How many times five divides `n`.
pub open spec fn fives_in(n: nat) -> nat
    decreases n,
{
    if n > 0 && n % 5 == 0 {
        1 + fives_in(n / 5)
    } else {
        0
    }
}

/// How many trailing decimal zeros `v` has.
pub open spec fn trailing_tens(v: nat) -> nat
    decreases v,
{
    if v > 0 && v % 10 == 0 {
        1 + trailing_tens(v / 10)
    } else {
        0
    }
}

/// What multiplying `v` by five `n` times charges: each product's limbs.
pub open spec fn times_five_cost(v: nat, n: nat) -> int
    decreases n,
{
    if n == 0 {
        0
    } else {
        times_five_cost(v, (n - 1) as nat) + limb_len(v * pow5(n))
    }
}

/// What multiplying `v` by two `n` times charges: each product's limbs.
pub open spec fn times_two_cost(v: nat, n: nat) -> int
    decreases n,
{
    if n == 0 {
        0
    } else {
        times_two_cost(v, (n - 1) as nat) + limb_len(v * pow2(n))
    }
}

/// The factors of two and of five in the reduced denominator of `c / d`.
pub open spec fn terminating_powers(c: nat, d: nat) -> (nat, nat) {
    let dr = reduced_denominator(c, d);
    let t = twos_in(dr);
    (t, fives_in(dr / pow2(t)))
}

/// What turning `c / d` into a terminating decimal charges: the reduction, then
/// multiplying the reduced coefficient by five for each surplus two in the denominator,
/// or by two for each surplus five.
pub open spec fn terminating_cost(c: nat, d: nat) -> int {
    let cr = reduced_coefficient(c, d);
    let (t, f) = terminating_powers(c, d);
    reduce_cost(c, d) + if cr == 0 {
        0
    } else if t >= f {
        times_five_cost(cr, (t - f) as nat)
    } else {
        times_two_cost(cr, (f - t) as nat)
    }
}

/// The reduced coefficient of `c / d` scaled so that its denominator becomes a power
/// of ten, and that power.
pub open spec fn terminating_scaled(c: nat, d: nat) -> (nat, nat) {
    let cr = reduced_coefficient(c, d);
    let (t, f) = terminating_powers(c, d);
    let top = if t >= f {
        t
    } else {
        f
    };
    (cr * pow5((top - f) as nat) * pow2((top - t) as nat), top)
}

/// The coefficient of the terminating form of `c / d`: the scaled coefficient without
/// its trailing zeros.
pub open spec fn terminating_coefficient(c: nat, d: nat) -> nat {
    let (v, top) = terminating_scaled(c, d);
    v / pow10(trailing_tens(v))
}

/// The exponent of the terminating form of `c × 10^e / d`.
pub open spec fn terminating_exponent(c: nat, d: nat, e: int) -> int {
    let (v, top) = terminating_scaled(c, d);
    if reduced_coefficient(c, d) == 0 {
        0
    } else {
        e - top + trailing_tens(v)
    }
}

/// What reducing a terminating value `±tc × 10^te` modulo `m` charges, once it is
/// terminating: the residue as an integer for a whole value; otherwise splitting off
/// the fraction, the power of ten it is over, and the residue rebuilt over that power
/// (for a negative value with a fraction, from the complement of the fraction).
pub open spec fn modulo_tail_cost(tc: nat, te: int, negative: bool, m: nat) -> int {
    if tc == 0 {
        0
    } else if te >= 0 {
        let x = (tc * pow10(te as nat)) as int;
        let sv = if negative {
            -x
        } else {
            x
        };
        from_u64_cost((sv % (m as int)) as nat)
    } else {
        let p = (-te) as nat;
        let iq = tc / pow10(p);
        let fr = tc % pow10(p);
        let ir = iq % m;
        div_rem_pow10_cost(tc, p) + 1 + mul_pow10_cost(1, p) + if !negative {
            from_u64_cost(ir) + mul_pow10_cost(ir, p) + (if limb_len(ir * pow10(p)) >= limb_len(
                fr,
            ) {
                limb_len(ir * pow10(p)) as int
            } else {
                limb_len(fr) as int
            }) + 1
        } else if fr == 0 {
            from_u64_cost(
                if ir == 0 {
                    0
                } else {
                    (m - ir) as nat
                },
            )
        } else {
            let w = (m - ir - 1) as nat;
            let comp = (pow10(p) - fr) as nat;
            from_u64_cost(w) + mul_pow10_cost(w, p) + limb_len(1 * pow10(p)) + (if limb_len(
                w * pow10(p),
            ) >= limb_len(comp) {
                limb_len(w * pow10(p)) as int
            } else {
                limb_len(comp) as int
            }) + 1
        }
    }
}

/// What reducing `x` modulo `m` charges: its terminating form, then the residue.
pub open spec fn modulo_cost(x: ExactRational, m: nat) -> int {
    let c = x.coefficient.value();
    let d = x.denominator as nat;
    terminating_cost(c, d) + modulo_tail_cost(
        terminating_coefficient(c, d),
        terminating_exponent(c, d, x.exponent as int),
        x.negative,
        m,
    )
}

proof fn lemma_modulo_tail_nonneg(x: ExactRational, m: nat)
    ensures
        modulo_tail_cost(
            terminating_coefficient(x.coefficient.value(), x.denominator as nat),
            terminating_exponent(x.coefficient.value(), x.denominator as nat, x.exponent as int),
            x.negative,
            m,
        ) >= 0,
{
}

/// The machine integers of reducing `x` modulo `m` hold their values.
pub open spec fn modulo_fits(x: ExactRational, m: nat) -> bool {
    let c = x.coefficient.value();
    let d = x.denominator as nat;
    let te = terminating_exponent(c, d, x.exponent as int);
    &&& m > 0
    &&& exact_fits(parts(x), 0)
    &&& te < 0 ==> i128::MIN < te && -te <= usize::MAX
}

/// What reducing a value with the parts `a` modulo `m` charges; `modulo_cost` over the
/// parts alone.
pub open spec fn parts_modulo_cost(a: RationalParts, m: nat) -> int {
    terminating_cost(a.0, a.2) + modulo_tail_cost(
        terminating_coefficient(a.0, a.2),
        terminating_exponent(a.0, a.2, a.1),
        a.3,
        m,
    )
}

/// The machine integers of reducing a value with the parts `a` modulo `m` hold their
/// values; `modulo_fits` over the parts alone.
pub open spec fn parts_modulo_fits(a: RationalParts, m: nat) -> bool {
    let te = terminating_exponent(a.0, a.2, a.1);
    &&& m > 0
    &&& exact_fits(a, 0)
    &&& te < 0 ==> i128::MIN < te && -te <= usize::MAX
}

/// Reducing modulo `m` charges nothing negative.
pub proof fn lemma_parts_modulo_cost_nonneg(a: RationalParts, m: nat)
    ensures
        parts_modulo_cost(a, m) >= 0,
{
    lemma_terminating_cost_nonneg(a.0, a.2);
}

/// A value is reduced as its parts say; the sign of a zero changes nothing.
pub proof fn lemma_modulo_by_parts(x: ExactRational, a: RationalParts, m: nat)
    requires
        x.coefficient.value() == a.0,
        x.exponent as int == a.1,
        x.denominator as nat == a.2,
        x.unbounded_tiny == a.4,
        a.0 != 0 ==> x.negative == a.3,
    ensures
        modulo_cost(x, m) == parts_modulo_cost(a, m),
        modulo_fits(x, m) == parts_modulo_fits(a, m),
        parts_modulo_cost(a, m) >= 0,
{
    lemma_terminating_cost_nonneg(a.0, a.2);
    lemma_modulo_tail_nonneg(x, m);
    if a.0 == 0 {
        let (v, top) = terminating_scaled(a.0, a.2);
        assert(reduced_coefficient(a.0, a.2) == 0);
        let (t, f) = terminating_powers(a.0, a.2);
        let top = if t >= f { t } else { f };
        lemma_mul_basics(pow5((top - f) as nat) as int);
        lemma_mul_basics(pow2((top - t) as nat) as int);
        assert(v == 0);
        assert(trailing_tens(0) == 0);
        assert(pow10(0) == 1);
        assert(terminating_coefficient(a.0, a.2) == 0);
    }
}

/// What the binary search for `min(maximum, sv / dv)` between `low` and `high`
/// charges: each probe `dv × midpoint`, along the path the comparisons take.
pub open spec fn search_cost(low: int, high: int, sv: int, dv: int) -> int
    decreases high - low,
{
    if low >= high {
        0
    } else {
        let gap = high - low;
        let mid = low + gap / 2 + gap % 2;
        (if mid == 0 || dv == 0 {
            0
        } else {
            limb_len((dv * mid) as nat) as int
        }) + if dv * mid <= sv {
            search_cost(mid, high, sv, dv)
        } else {
            search_cost(low, mid - 1, sv, dv)
        }
    }
}

proof fn lemma_search_cost_nonneg(low: int, high: int, sv: int, dv: int)
    ensures
        search_cost(low, high, sv, dv) >= 0,
    decreases high - low,
{
    if low < high {
        let gap = high - low;
        let mid = low + gap / 2 + gap % 2;
        if dv * mid <= sv {
            lemma_search_cost_nonneg(mid, high, sv, dv);
        } else {
            lemma_search_cost_nonneg(low, mid - 1, sv, dv);
        }
    }
}

/// The two values of a ratio brought to a common exponent: `a`'s coefficient times
/// `b`'s denominator, and `b`'s coefficient times `a`'s, the one with the larger
/// exponent scaled by the difference.
pub open spec fn aligned_ratio(a: RationalParts, b: RationalParts) -> (nat, nat) {
    let n0 = a.0 * b.2;
    let d0 = b.0 * a.2;
    (
        if a.1 > b.1 {
            n0 * pow10((a.1 - b.1) as nat)
        } else {
            n0
        },
        if a.1 < b.1 {
            d0 * pow10((b.1 - a.1) as nat)
        } else {
            d0
        },
    )
}

/// What rounding the ratio `a / b` scaled by `maximum` charges: the cross products,
/// the alignment, the scaled numerator, the binary search, and, below the maximum, the
/// doubled values that decide the rounding.
pub open spec fn ratio_cost(a: RationalParts, b: RationalParts, maximum: nat) -> int {
    let (nv, dv) = aligned_ratio(a, b);
    let sv = nv * maximum;
    let low = if maximum * dv <= sv {
        maximum
    } else {
        sv / dv
    };
    small_product_cost(a.0, b.2) + small_product_cost(b.0, a.2) + (if a.1 > b.1 {
        mul_pow10_cost(a.0 * b.2, (a.1 - b.1) as nat)
    } else if a.1 < b.1 {
        mul_pow10_cost(b.0 * a.2, (b.1 - a.1) as nat)
    } else {
        0
    }) + small_product_cost(nv, maximum) + search_cost(0, maximum as int, sv as int, dv as int) + if low
        == maximum {
        0
    } else {
        small_product_cost(sv, 2) + small_product_cost(dv, 2 * low + 1)
    }
}

/// The machine integers of rounding a ratio hold their values.
pub open spec fn ratio_fits(a: RationalParts, b: RationalParts, unit_scale: nat, places: nat) -> bool {
    &&& !a.4 && !b.4
    &&& a.1 - b.1 <= usize::MAX && b.1 - a.1 <= usize::MAX
    &&& pow10(places) <= u64::MAX
    &&& 2 * (unit_scale * pow10(places)) + 1 <= u64::MAX
}

/// The decimal exponent of the terminating form of `c × 10^e / d` fits `i128`.
pub open spec fn terminating_fits(c: nat, d: nat, e: int) -> bool {
    let cr = reduced_coefficient(c, d);
    let (t, f) = terminating_powers(c, d);
    let top = if t >= f {
        t
    } else {
        f
    };
    let scaled = cr * pow5((top - f) as nat) * pow2((top - t) as nat);
    cr == 0 || (i128::MIN <= e - top && e - top + trailing_tens(scaled) <= i128::MAX)
}

proof fn lemma_times_five_grows(v: nat, k: nat, n: nat)
    requires
        k <= n,
    ensures
        times_five_cost(v, k) <= times_five_cost(v, n),
    decreases n,
{
    if k < n {
        lemma_times_five_grows(v, k, (n - 1) as nat);
    }
}

proof fn lemma_times_two_grows(v: nat, k: nat, n: nat)
    requires
        k <= n,
    ensures
        times_two_cost(v, k) <= times_two_cost(v, n),
    decreases n,
{
    if k < n {
        lemma_times_two_grows(v, k, (n - 1) as nat);
    }
}

/// Stripping `r` decimal zeros to a value that ends in a nonzero digit strips exactly
/// the trailing zeros.
proof fn lemma_trailing_tens_of(v: nat, w: nat, r: nat)
    requires
        v == w * pow10(r),
        w > 0,
        w % 10 != 0,
    ensures
        trailing_tens(v) == r,
    decreases r,
{
    lemma_pow10_positive(r);
    if r == 0 {
        assert(pow10(0) == 1);
        lemma_mul_basics(w as int);
        assert(v == w);
    } else {
        let v1 = w * pow10((r - 1) as nat);
        lemma_pow10_positive((r - 1) as nat);
        assert(pow10(r) == 10 * pow10((r - 1) as nat));
        assert(v == v1 * 10) by (nonlinear_arith)
            requires
                v == w * pow10(r),
                pow10(r) == 10 * pow10((r - 1) as nat),
                v1 == w * pow10((r - 1) as nat),
        ;
        assert(v1 > 0) by (nonlinear_arith)
            requires
                w > 0,
                pow10((r - 1) as nat) > 0,
                v1 == w * pow10((r - 1) as nat),
        ;
        lemma_fundamental_div_mod_converse(v as int, 10, v1 as int, 0);
        lemma_trailing_tens_of(v1, w, (r - 1) as nat);
    }
}

/// An exact value whose reduced denominator has only the factors two and five, whose
/// terminating exponent fits `i128`, with a byte limit an allocation can hold.
pub open spec fn exact_fits(a: RationalParts, byte_limit: nat) -> bool {
    &&& !a.4
    &&& strip_two_five(reduced_denominator(a.0, a.2)) == 1
    &&& terminating_fits(a.0, a.2, a.1)
    &&& byte_limit <= isize::MAX
}

/// `c × 10^e` is `|p| / q` with `c` not a multiple of ten: the shortest decimal form.
pub open spec fn is_decimal_form(c: nat, e: int, p: int, q: int) -> bool {
    &&& c > 0
    &&& c % 10 != 0
    &&& same_ratio(scaled_numerator(c as int, e), scaled_denominator(1, e), if p < 0 {
        -p
    } else {
        p
    }, q)
}

/// The shortest decimal form of a nonzero terminating fraction.
pub open spec fn decimal_form(p: int, q: int) -> (nat, int) {
    choose|c: nat, e: int| is_decimal_form(c, e, p, q)
}

/// The fixed-notation text of a fraction with a terminating decimal expansion.
pub open spec fn exact_text(p: int, q: int) -> Seq<u8> {
    if p == 0 {
        seq![48u8]
    } else {
        crate::serialization::fixed_notation(
            crate::bignum::decimal_digits(decimal_form(p, q).0),
            decimal_form(p, q).1,
            p < 0,
        )
    }
}

pub proof fn lemma_pow10_two_five(n: nat)
    ensures
        pow10(n) == pow2(n) * pow5(n),
    decreases n,
{
    if n > 0 {
        lemma_pow10_two_five((n - 1) as nat);
        let a = pow2((n - 1) as nat) as int;
        let b = pow5((n - 1) as nat) as int;
        assert(pow2(n) == 2 * a);
        assert(pow5(n) == 5 * b);
        assert(pow10(n) == 10 * pow10((n - 1) as nat));
        assert(10 * (a * b) == (2 * a) * (5 * b)) by (nonlinear_arith);
        assert(pow10((n - 1) as nat) == a * b);
        assert(pow10(n) == (2 * a) * (5 * b));
        assert(pow2(n) * pow5(n) == (2 * a) * (5 * b));
    } else {
        assert(pow10(0) == 1 && pow2(0) == 1 && pow5(0) == 1);
        lemma_mul_basics(1);
        assert(pow2(n) * pow5(n) == 1);
    }
}

pub proof fn lemma_pow2_add(a: nat, b: nat)
    ensures
        pow2(a + b) == pow2(a) * pow2(b),
    decreases a,
{
    if a > 0 {
        lemma_pow2_add((a - 1) as nat, b);
        lemma_mul_is_associative(2, pow2((a - 1) as nat) as int, pow2(b) as int);
    } else {
        lemma_mul_basics(pow2(b) as int);
    }
}

pub proof fn lemma_pow5_add(a: nat, b: nat)
    ensures
        pow5(a + b) == pow5(a) * pow5(b),
    decreases a,
{
    if a > 0 {
        lemma_pow5_add((a - 1) as nat, b);
        lemma_mul_is_associative(5, pow5((a - 1) as nat) as int, pow5(b) as int);
    } else {
        lemma_mul_basics(pow5(b) as int);
    }
}

/// A power of ten in the denominator moves into the exponent.
pub proof fn lemma_den_power_shift(n: int, e: int, m: nat)
    ensures
        same_ratio(
            scaled_numerator(n, e - m),
            scaled_denominator(1, e - m),
            scaled_numerator(n, e),
            scaled_denominator(pow10(m) as int, e),
        ),
{
    lemma_split(n, 1, e - m);
    lemma_split(n, pow10(m) as int, e);
    let a = pos_part(e - m);
    let b = neg_part(e - m);
    let c = pos_part(e);
    let d = neg_part(e);
    assert(a + m + d == c + b);
    lemma_pow10_add(a, m);
    lemma_pow10_add(a + m, d);
    lemma_pow10_add(c, b);
    let pa = pow10(a) as int;
    let pb = pow10(b) as int;
    let pc = pow10(c) as int;
    let pd = pow10(d) as int;
    let pm = pow10(m) as int;
    assert(n * pa * (pm * pd) == n * pc * (1 * pb)) by (nonlinear_arith)
        requires
            pa * pm * pd == pc * pb,
    ;
}

/// A multiple of a positive power of ten is a multiple of ten.
pub proof fn lemma_multiple_of_ten(x: nat, k: nat)
    requires
        k >= 1,
    ensures
        (x * pow10(k)) % 10 == 0,
{
    assert(pow10(k) == 10 * pow10((k - 1) as nat));
    lemma_mul_is_associative(x as int, 10, pow10((k - 1) as nat) as int);
    lemma_mul_is_commutative(x as int, 10);
    lemma_mul_is_associative(10, x as int, pow10((k - 1) as nat) as int);
    lemma_mod_multiples_basic((x * pow10((k - 1) as nat)) as int, 10);
    lemma_mul_is_commutative(10, (x * pow10((k - 1) as nat)) as int);
}

/// The shortest decimal form is unique.
pub proof fn lemma_decimal_form_unique(c1: nat, e1: int, c2: nat, e2: int, p: int, q: int)
    requires
        q > 0,
        is_decimal_form(c1, e1, p, q),
        is_decimal_form(c2, e2, p, q),
    ensures
        c1 == c2,
        e1 == e2,
{
    let ap = if p < 0 {
        -p
    } else {
        p
    };
    lemma_den_positive(1, e1);
    lemma_den_positive(1, e2);
    lemma_same_ratio_symmetric(
        scaled_numerator(c2 as int, e2),
        scaled_denominator(1, e2),
        ap,
        q,
    );
    lemma_same_ratio_trans(
        scaled_numerator(c1 as int, e1),
        scaled_denominator(1, e1),
        ap,
        q,
        scaled_numerator(c2 as int, e2),
        scaled_denominator(1, e2),
    );
    lemma_split(c1 as int, 1, e1);
    lemma_split(c2 as int, 1, e2);
    let a = pos_part(e1) + neg_part(e2);
    let b = pos_part(e2) + neg_part(e1);
    lemma_pow10_add(pos_part(e1), neg_part(e2));
    lemma_pow10_add(pos_part(e2), neg_part(e1));
    assert(c1 * pow10(a) == c2 * pow10(b)) by {
        lemma_mul_is_associative(c1 as int, pow10(pos_part(e1)) as int, pow10(neg_part(e2)) as int);
        lemma_mul_is_associative(c2 as int, pow10(pos_part(e2)) as int, pow10(neg_part(e1)) as int);
        lemma_mul_basics(pow10(neg_part(e2)) as int);
        lemma_mul_basics(pow10(neg_part(e1)) as int);
    }
    if a > b {
        lemma_pow10_add(b, (a - b) as nat);
        lemma_pow10_positive(b);
        let pb = pow10(b) as int;
        let pk = pow10((a - b) as nat) as int;
        let pa = pow10(a) as int;
        assert(pb * (c1 * pk) == pb * c2) by (nonlinear_arith)
            requires
                c1 * pa == c2 * pb,
                pa == pb * pk,
        ;
        lemma_mul_equality_converse(pow10(b) as int, (c1 * pow10((a - b) as nat)) as int, c2 as int);
        lemma_mul_is_commutative(pow10(b) as int, (c1 * pow10((a - b) as nat)) as int);
        lemma_mul_is_commutative(pow10(b) as int, c2 as int);
        lemma_multiple_of_ten(c1, (a - b) as nat);
    } else if b > a {
        lemma_pow10_add(a, (b - a) as nat);
        lemma_pow10_positive(a);
        let pa = pow10(a) as int;
        let pk = pow10((b - a) as nat) as int;
        let pb = pow10(b) as int;
        assert(pa * (c2 * pk) == pa * c1) by (nonlinear_arith)
            requires
                c1 * pa == c2 * pb,
                pb == pa * pk,
        ;
        lemma_mul_equality_converse(pow10(a) as int, (c2 * pow10((b - a) as nat)) as int, c1 as int);
        lemma_mul_is_commutative(pow10(a) as int, (c2 * pow10((b - a) as nat)) as int);
        lemma_mul_is_commutative(pow10(a) as int, c1 as int);
        lemma_multiple_of_ten(c2, (b - a) as nat);
    } else {
        lemma_pow10_positive(a);
        lemma_mul_is_commutative(c1 as int, pow10(a) as int);
        lemma_mul_is_commutative(c2 as int, pow10(a) as int);
        lemma_mul_equality_converse(pow10(a) as int, c1 as int, c2 as int);
    }
}


pub proof fn lemma_strip_even(n: nat)
    requires
        n > 0,
        n % 2 == 0,
    ensures
        strip_two_five(n) == strip_two_five(n / 2),
        n / 2 > 0,
{
}

pub proof fn lemma_strip_five(n: nat)
    requires
        n > 0,
        n % 2 != 0,
        n % 5 == 0,
    ensures
        strip_two_five(n) == strip_two_five(n / 5),
        (n / 5) % 2 != 0,
        n / 5 > 0,
{
    lemma_fundamental_div_mod(n as int, 5);
    let q = n / 5;
    if q % 2 == 0 {
        lemma_fundamental_div_mod(q as int, 2);
        assert(n == 2 * (5 * (q / 2))) by (nonlinear_arith)
            requires
                n == 5 * q,
                q == 2 * (q / 2),
        ;
        lemma_mod_multiples_basic((5 * (q / 2)) as int, 2);
        lemma_mul_is_commutative(2, (5 * (q / 2)) as int);
    }
}

impl ExactRational {
    /// The same value with denominator one: the reduced denominator's factors two and
    /// five become a smaller exponent, and trailing zeros of the coefficient move into
    /// the exponent. Fails when the value has no terminating decimal expansion.
    pub fn into_terminating(self, context: &mut SpecifiedSerializationContext) -> (r:
        SerializationResult<Self>)
        requires
            self.wf(),
            old(context).wf(),
        ensures
            final(context).wf(),
            budget_only(*old(context), *final(context)),
            self.unbounded_tiny ==> kind_error(r, CssSpecifiedValueSerializationErrorKind::ByteLimit),
            r matches Ok(v) ==> v.wf() && v.is_exact() && self.is_exact() && v.denominator == 1
                && v.equals(self.num(), self.den()) && (v.coefficient.value() == 0
                || v.coefficient.value() % 10 != 0) && v.negative == self.negative,
            self.is_exact() && strip_two_five(
                reduced_denominator(self.coefficient.value(), self.denominator as nat),
            ) != 1 ==> r is Err,
            r matches Err(e) ==> arithmetic_error(e.kind),
            self.is_exact() && strip_two_five(
                reduced_denominator(self.coefficient.value(), self.denominator as nat),
            ) == 1 && terminating_fits(
                self.coefficient.value(),
                self.denominator as nat,
                self.exponent as int,
            ) ==> budget_charged(
                r,
                *old(context),
                *final(context),
                terminating_cost(self.coefficient.value(), self.denominator as nat),
            ),
            r matches Ok(v) ==> v.coefficient.value() == terminating_coefficient(
                self.coefficient.value(),
                self.denominator as nat,
            ) && v.exponent == terminating_exponent(
                self.coefficient.value(),
                self.denominator as nat,
                self.exponent as int,
            ),
    {
        let ghost cs = *context;
        let ghost sc = self.coefficient.value();
        let ghost sd = self.denominator as nat;
        if self.unbounded_tiny {
            return failure(CssSpecifiedValueSerializationErrorKind::ByteLimit);
        }
        let ghost n0 = self.num();
        let ghost d0 = self.den();
        let ghost reduced = reduced_denominator(self.coefficient.value(), self.denominator as nat);
        let mut value = match self.reduce_fraction(context) {
            Ok(v) => v,
            Err(e) => {
                proof {
                    assert(terminating_cost(sc, sd) >= reduce_cost(sc, sd)) by {
                        let (t, f) = terminating_powers(sc, sd);
                        if t >= f {
                            lemma_times_five_grows(reduced_coefficient(sc, sd), 0, (t - f) as nat);
                        } else {
                            lemma_times_two_grows(reduced_coefficient(sc, sd), 0, (f - t) as nat);
                        }
                    }
                }
                return Err(e);
            },
        };
        let ghost cr = *context;
        if value.coefficient.is_zero() {
            proof {
                assert(strip_two_five(1) == 1);
            }
            return Ok(value);
        }
        let mut denominator = value.denominator;
        let mut twos: usize = 0;
        let mut fives: usize = 0;
        proof {
            assert(value.denominator as nat == reduced_denominator(sc, sd));
        }
        proof {
            assert(pow2(0) == 1);
            lemma_mul_basics(denominator as int);
        }
        while denominator % 2 == 0
            invariant
                denominator > 0,
                denominator * pow2(twos as nat) == value.denominator,
                strip_two_five(denominator as nat) == strip_two_five(value.denominator as nat),
                twos <= 64,
                pow2(twos as nat) <= value.denominator,
                value.denominator > 0,
                twos_in(value.denominator as nat) == twos + twos_in(denominator as nat),
            decreases denominator,
        {
            proof {
                lemma_strip_even(denominator as nat);
                lemma_fundamental_div_mod(denominator as int, 2);
                assert(pow2((twos + 1) as nat) == 2 * pow2(twos as nat));
                assert((denominator / 2) * pow2((twos + 1) as nat) == denominator * pow2(twos as nat))
                    by (nonlinear_arith)
                    requires
                        denominator == 2 * (denominator / 2),
                        pow2((twos + 1) as nat) == 2 * pow2(twos as nat),
                ;
                assert(pow2((twos + 1) as nat) <= value.denominator) by (nonlinear_arith)
                    requires
                        (denominator / 2) * pow2((twos + 1) as nat) == value.denominator,
                        denominator / 2 >= 1,
                ;
                if twos >= 64 {
                    lemma_pow2_large((twos + 1) as nat);
                }
            }
            denominator = denominator / 2;
            twos = twos + 1;
        }
        let ghost d2 = denominator;
        proof {
            lemma_pow2_positive(twos as nat);
            lemma_fundamental_div_mod_converse(
                value.denominator as int,
                pow2(twos as nat) as int,
                d2 as int,
                0,
            );
            assert(fives_in(d2 as nat) == 0 + fives_in(denominator as nat));
        }
        while denominator % 5 == 0
            invariant
                denominator > 0,
                denominator % 2 != 0,
                denominator * pow2(twos as nat) * pow5(fives as nat) == value.denominator,
                strip_two_five(denominator as nat) == strip_two_five(value.denominator as nat),
                twos <= 64,
                fives <= 64,
                pow5(fives as nat) <= value.denominator,
                value.denominator > 0,
                fives_in(d2 as nat) == fives + fives_in(denominator as nat),
            decreases denominator,
        {
            proof {
                lemma_strip_five(denominator as nat);
                lemma_fundamental_div_mod(denominator as int, 5);
                assert(pow5((fives + 1) as nat) == 5 * pow5(fives as nat));
                assert((denominator / 5) * pow2(twos as nat) * pow5((fives + 1) as nat)
                    == denominator * pow2(twos as nat) * pow5(fives as nat)) by (nonlinear_arith)
                    requires
                        denominator == 5 * (denominator / 5),
                        pow5((fives + 1) as nat) == 5 * pow5(fives as nat),
                ;
                lemma_pow2_positive(twos as nat);
                assert(pow5((fives + 1) as nat) <= value.denominator) by (nonlinear_arith)
                    requires
                        (denominator / 5) * pow2(twos as nat) * pow5((fives + 1) as nat)
                            == value.denominator,
                        denominator / 5 >= 1,
                        pow2(twos as nat) >= 1,
                ;
                if fives >= 64 {
                    lemma_pow5_large((fives + 1) as nat);
                }
            }
            denominator = denominator / 5;
            fives = fives + 1;
        }
        proof {
            if denominator % 2 == 0 {
                assert(false);
            }
            assert(strip_two_five(denominator as nat) == denominator);
            assert(pow5(0) == 1);
        }
        if denominator != 1 {
            return failure(CssSpecifiedValueSerializationErrorKind::CapacityOverflow);
        }
        let top = if twos >= fives {
            twos
        } else {
            fives
        };
        let ghost c0 = value.coefficient.value();
        let ghost total = terminating_cost(sc, sd);
        proof {
            assert(terminating_powers(sc, sd) == (twos as nat, fives as nat));
            assert(c0 == reduced_coefficient(sc, sd));
            assert(c0 > 0);
            assert(terminating_cost(sc, sd) == reduce_cost(sc, sd) + (if twos >= fives {
                times_five_cost(c0, (twos - fives) as nat)
            } else {
                times_two_cost(c0, (fives - twos) as nat)
            }));
        }
        let mut coefficient = value.coefficient;
        let mut i = fives;
        proof {
            assert(pow5(0) == 1);
            lemma_mul_basics(c0 as int);
        }
        while i < twos
            invariant
                !self.unbounded_tiny,
                fives <= i <= twos || (twos < fives && i == fives),
                coefficient.wf(),
                coefficient.value() == c0 * pow5((i - fives) as nat),
                context.wf(),
                budget_only(*old(context), *context),
                context.limits == cr.limits && context.input_nodes == cr.input_nodes
                    && context.bytes == cr.bytes,
                twos > fives ==> context.projection_nodes == cr.projection_nodes
                    + times_five_cost(c0, (i - fives) as nat),
                twos <= fives ==> *context == cr,
                cs == *old(context),
                sc == self.coefficient.value() && sd == self.denominator as nat,
                cr.projection_nodes == cs.projection_nodes + reduce_cost(sc, sd),
                cr.limits == cs.limits && cr.input_nodes == cs.input_nodes && cr.bytes == cs.bytes,
                c0 > 0,
                terminating_cost(sc, sd) == reduce_cost(sc, sd) + (if twos >= fives {
                    times_five_cost(c0, (twos - fives) as nat)
                } else {
                    times_two_cost(c0, (fives - twos) as nat)
                }),
            decreases twos - i,
        {
            let ghost cb = *context;
            proof {
                lemma_limbs_normal_len(coefficient.limbs@);
                lemma_pow5_positive((i - fives) as nat);
                lemma_mul_strictly_positive(c0 as int, pow5((i - fives) as nat) as int);
                assert(pow5((i + 1 - fives) as nat) == 5 * pow5((i - fives) as nat));
                lemma_mul_is_associative(c0 as int, pow5((i - fives) as nat) as int, 5);
                lemma_mul_is_commutative(pow5((i - fives) as nat) as int, 5);
                assert(coefficient.value() * 5 == c0 * pow5((i + 1 - fives) as nat));
                lemma_times_five_grows(c0, (i + 1 - fives) as nat, (twos - fives) as nat);
            }
            let step = coefficient.mul_small(5, context);
            proof {
                lemma_charge_when(
                    step,
                    cb,
                    *context,
                    limb_len(coefficient.value() * 5) as int,
                    coefficient.value() == 0,
                );
            }
            coefficient = match step {
                Ok(v) => v,
                Err(e) => {
                    proof {
                        let k = (i - fives) as nat;
                        assert(twos > fives);
                        assert(times_five_cost(c0, k + 1) == times_five_cost(c0, k) + limb_len(
                            c0 * pow5(k + 1),
                        ));
                        assert(cb.projection_nodes + limb_len(c0 * pow5(k + 1))
                            > cb.limits.spec_max_projection_nodes());
                        assert(cs.projection_nodes + terminating_cost(sc, sd)
                            > cs.limits.spec_max_projection_nodes());
                    }
                    return Err(e);
                },
            };
            proof {
                assert(pow5((i + 1 - fives) as nat) == 5 * pow5((i - fives) as nat));
                lemma_mul_is_associative(c0 as int, pow5((i - fives) as nat) as int, 5);
                lemma_mul_is_commutative(pow5((i - fives) as nat) as int, 5);
            }
            i = i + 1;
        }
        let ghost c1 = coefficient.value();
        proof {
            lemma_pow5_positive((i - fives) as nat);
            lemma_mul_strictly_positive(c0 as int, pow5((i - fives) as nat) as int);
        }
        let mut j = twos;
        proof {
            assert(pow2(0) == 1);
            lemma_mul_basics(c1 as int);
        }
        while j < fives
            invariant
                !self.unbounded_tiny,
                twos <= j <= fives || (fives < twos && j == twos),
                coefficient.wf(),
                coefficient.value() == c1 * pow2((j - twos) as nat),
                context.wf(),
                budget_only(*old(context), *context),
                context.limits == cr.limits && context.input_nodes == cr.input_nodes
                    && context.bytes == cr.bytes,
                c1 > 0,
                twos < fives ==> c1 == c0 && context.projection_nodes == cr.projection_nodes
                    + times_two_cost(c0, (j - twos) as nat),
                twos >= fives ==> context.projection_nodes == cr.projection_nodes
                    + times_five_cost(c0, (twos - fives) as nat),
                cs == *old(context),
                sc == self.coefficient.value() && sd == self.denominator as nat,
                cr.projection_nodes == cs.projection_nodes + reduce_cost(sc, sd),
                cr.limits == cs.limits && cr.input_nodes == cs.input_nodes && cr.bytes == cs.bytes,
                c0 > 0,
                terminating_cost(sc, sd) == reduce_cost(sc, sd) + (if twos >= fives {
                    times_five_cost(c0, (twos - fives) as nat)
                } else {
                    times_two_cost(c0, (fives - twos) as nat)
                }),
            decreases fives - j,
        {
            let ghost cb = *context;
            proof {
                lemma_limbs_normal_len(coefficient.limbs@);
                lemma_pow2_positive((j - twos) as nat);
                lemma_mul_strictly_positive(c1 as int, pow2((j - twos) as nat) as int);
                assert(pow2((j + 1 - twos) as nat) == 2 * pow2((j - twos) as nat));
                lemma_mul_is_associative(c1 as int, pow2((j - twos) as nat) as int, 2);
                lemma_mul_is_commutative(pow2((j - twos) as nat) as int, 2);
                assert(coefficient.value() * 2 == c1 * pow2((j + 1 - twos) as nat));
                lemma_times_two_grows(c0, (j + 1 - twos) as nat, (fives - twos) as nat);
            }
            let step = coefficient.mul_small(2, context);
            proof {
                lemma_charge_when(
                    step,
                    cb,
                    *context,
                    limb_len(coefficient.value() * 2) as int,
                    coefficient.value() == 0,
                );
            }
            coefficient = match step {
                Ok(v) => v,
                Err(e) => {
                    return Err(e);
                },
            };
            proof {
                assert(pow2((j + 1 - twos) as nat) == 2 * pow2((j - twos) as nat));
                lemma_mul_is_associative(c1 as int, pow2((j - twos) as nat) as int, 2);
                lemma_mul_is_commutative(pow2((j - twos) as nat) as int, 2);
            }
            j = j + 1;
        }
        let ghost c2 = coefficient.value();
        proof {
            let t = twos as nat;
            let f = fives as nat;
            let m = top as nat;
            if twos >= fives {
                assert(pow2(0) == 1);
                lemma_mul_basics(c1 as int);
                lemma_mul_basics((c0 * pow5((m - f) as nat)) as int);
                assert(c2 == c0 * pow5((m - f) as nat) * pow2((m - t) as nat));
            } else {
                assert(pow5(0) == 1);
                lemma_mul_basics(c0 as int);
                assert(c2 == c0 * pow5((m - f) as nat) * pow2((m - t) as nat));
            }
            lemma_pow5_positive((m - f) as nat);
            lemma_pow2_positive((m - t) as nat);
            lemma_mul_strictly_positive(c0 as int, pow5((m - f) as nat) as int);
            lemma_mul_strictly_positive((c0 * pow5((m - f) as nat)) as int, pow2((m - t) as nat) as int);
        }
        let removed = coefficient.strip_decimal_zeros();
        proof {
            if coefficient.value() == 0 {
                lemma_mul_basics(pow10(removed as nat) as int);
            }
            lemma_trailing_tens_of(c2, coefficient.value(), removed as nat);
        }
        let shifted = match value.exponent.checked_sub(top as i128) {
            Some(e) => e,
            None => {
                return failure(CssSpecifiedValueSerializationErrorKind::ByteLimit);
            },
        };
        let exponent = match shifted.checked_add(removed) {
            Some(e) => e,
            None => {
                return failure(CssSpecifiedValueSerializationErrorKind::ByteLimit);
            },
        };
        let ghost before = value;
        value.coefficient = coefficient;
        value.exponent = exponent;
        value.denominator = 1;
        proof {
            let t = twos as nat;
            let f = fives as nat;
            let m = top as nat;
            let k = pow5((m - f) as nat) * pow2((m - t) as nat);
            assert(c2 == c0 * k) by {
                if twos >= fives {
                    assert(pow2((m - t) as nat) == 1) by {
                        assert(pow2(0) == 1);
                    }
                    lemma_mul_basics(pow5((m - f) as nat) as int);
                } else {
                    assert(pow5((m - f) as nat) == 1) by {
                        assert(pow5(0) == 1);
                    }
                    assert(c1 == c0);
                    lemma_mul_basics(pow2((m - t) as nat) as int);
                }
                lemma_mul_is_associative(c0 as int, pow5((m - f) as nat) as int, pow2((m - t) as nat) as int);
            }
            let dr = before.denominator as int;
            assert(dr == pow2(t) * pow5(f)) by {
                lemma_mul_basics((pow2(t) * pow5(f)) as int);
            }
            lemma_pow2_add(t, (m - t) as nat);
            lemma_pow5_add(f, (m - f) as nat);
            lemma_pow10_two_five(m);
            assert(dr * k == pow10(m)) by (nonlinear_arith)
                requires
                    dr == pow2(t) * pow5(f),
                    k == pow5((m - f) as nat) * pow2((m - t) as nat),
                    pow2(m) == pow2(t) * pow2((m - t) as nat),
                    pow5(m) == pow5(f) * pow5((m - f) as nat),
                    pow10(m) == pow2(m) * pow5(m),
            ;
            let sign = if before.negative {
                -1int
            } else {
                1int
            };
            let s0 = before.signed();
            let e = before.exponent as int;
            assert(s0 == sign * c0) by {
                if before.negative {
                    assert(sign * c0 == -c0) by (nonlinear_arith)
                        requires
                            sign == -1,
                    ;
                } else {
                    assert(sign * c0 == c0) by (nonlinear_arith)
                        requires
                            sign == 1,
                    ;
                }
            }
            // (s0 k, e, dr k) is the reduced value.
            lemma_scaled_numerator_mul(s0, k as int, e);
            lemma_scaled_numerator_mul(dr, k as int, e);
            lemma_same_ratio_scale(scaled_numerator(s0, e), scaled_denominator(dr, e), k as int);
            // 10^m in the denominator moves into the exponent.
            lemma_den_power_shift(s0 * k, e, m);
            // Trailing zeros move into the exponent.
            let c3 = coefficient.value();
            let z = removed as nat;
            lemma_exponent_shift(sign * c3, exponent as int, z, 1);
            assert(sign * c3 * pow10(z) == s0 * k) by (nonlinear_arith)
                requires
                    c2 == c3 * pow10(z),
                    c2 == c0 * k,
                    s0 == sign * c0,
            ;
            assert(exponent as int - z == e - m);
            assert(value.signed() == sign * c3) by {
                if before.negative {
                    assert(sign * c3 == -c3) by (nonlinear_arith)
                        requires
                            sign == -1,
                    ;
                } else {
                    assert(sign * c3 == c3) by (nonlinear_arith)
                        requires
                            sign == 1,
                    ;
                }
                if c3 == 0 {
                    lemma_mul_basics(pow10(z) as int);
                    assert(c2 == 0);
                    lemma_mul_basics(k as int);
                    lemma_pow10_positive(m);
                    lemma_mul_strictly_positive(c0 as int, k as int);
                }
            }
            lemma_den_positive(1, e - m);
            lemma_den_positive(1, exponent as int);
            lemma_den_positive(dr, e);
            lemma_pow10_positive(m);
            lemma_den_positive(pow10(m) as int, e);
            lemma_mul_strictly_positive(dr, k as int);
            lemma_same_ratio_trans(
                value.num(),
                value.den(),
                scaled_numerator(s0 * k, e - m),
                scaled_denominator(1, e - m),
                scaled_numerator(s0 * k, e),
                scaled_denominator(pow10(m) as int, e),
            );
            lemma_same_ratio_trans(
                value.num(),
                value.den(),
                scaled_numerator(s0 * k, e),
                scaled_denominator(dr * k, e),
                before.num(),
                before.den(),
            );
            lemma_same_ratio_trans(value.num(), value.den(), before.num(), before.den(), n0, d0);
            assert(c3 > 0) by {
                lemma_pow10_positive(m);
                lemma_mul_strictly_positive(c0 as int, k as int);
                if c3 == 0 {
                    lemma_mul_basics(pow10(z) as int);
                }
            }
        }
        proof {
            lemma_pow10_positive(removed as nat);
            lemma_fundamental_div_mod_converse(
                c2 as int,
                pow10(removed as nat) as int,
                value.coefficient.value() as int,
                0,
            );
            assert(terminating_scaled(sc, sd) == (c2, top as nat));
        }
        Ok(value)
    }
}

pub proof fn lemma_pow5_positive(n: nat)
    ensures
        pow5(n) >= 1,
    decreases n,
{
    if n > 0 {
        lemma_pow5_positive((n - 1) as nat);
    }
}

pub proof fn lemma_pow2_positive(n: nat)
    ensures
        pow2(n) >= 1,
    decreases n,
{
    if n > 0 {
        lemma_pow2_positive((n - 1) as nat);
    }
}

/// Powers of two beyond the 64th exceed every `u64`.
pub proof fn lemma_pow2_large(n: nat)
    requires
        n >= 65,
    ensures
        pow2(n) > u64::MAX,
    decreases n,
{
    if n == 65 {
        assert(pow2(65) == 36893488147419103232) by {
            reveal_with_fuel(pow2, 66);
        }
    } else {
        lemma_pow2_large((n - 1) as nat);
    }
}

pub proof fn lemma_pow5_large(n: nat)
    requires
        n >= 65,
    ensures
        pow5(n) > u64::MAX,
    decreases n,
{
    if n == 65 {
        lemma_pow5_ge_pow2(65);
        lemma_pow2_large(65);
    } else {
        lemma_pow5_large((n - 1) as nat);
    }
}

pub proof fn lemma_pow5_ge_pow2(n: nat)
    ensures
        pow5(n) >= pow2(n),
    decreases n,
{
    if n > 0 {
        lemma_pow5_ge_pow2((n - 1) as nat);
    }
}


impl ExactRational {
    /// The exact value in fixed notation, within `byte_limit` bytes. A value without
    /// a terminating decimal expansion is refused.
    pub fn format_exact(self, byte_limit: usize, context: &mut SpecifiedSerializationContext) -> (r:
        SerializationResult<String>)
        requires
            self.wf(),
            old(context).wf(),
        ensures
            final(context).wf(),
            budget_only(*old(context), *final(context)),
            self.unbounded_tiny ==> kind_error(r, CssSpecifiedValueSerializationErrorKind::ByteLimit),
            r matches Ok(s) ==> self.is_exact() && s@ == crate::serialization::ascii_chars(
                exact_text(self.num(), self.den()),
            ) && exact_text(self.num(), self.den()).len() <= byte_limit,
            self.is_exact() && strip_two_five(
                reduced_denominator(self.coefficient.value(), self.denominator as nat),
            ) != 1 ==> r is Err,
            r is Ok && self.num() != 0 ==> is_decimal_form(
                decimal_form(self.num(), self.den()).0,
                decimal_form(self.num(), self.den()).1,
                self.num(),
                self.den(),
            ),
            r matches Err(e) ==> arithmetic_error(e.kind),
            exact_fits(parts(self), byte_limit as nat) ==> budget_tied(
                r,
                *old(context),
                *final(context),
                terminating_cost(self.coefficient.value(), self.denominator as nat),
            ),
            exact_fits(parts(self), byte_limit as nat) ==> (r is Ok <==> (old(context).projection_nodes
                + terminating_cost(self.coefficient.value(), self.denominator as nat)
                <= old(context).limits.spec_max_projection_nodes() && exact_text(
                self.num(),
                self.den(),
            ).len() <= byte_limit)),
    {
        let ghost n0 = self.num();
        let ghost d0 = self.den();
        proof {
            lemma_den_positive(self.denominator as int, self.exponent as int);
        }
        let terminating = match self.into_terminating(context) {
            Ok(v) => v,
            Err(e) => {
                return Err(e);
            },
        };
        let ghost c = terminating.coefficient.value();
        let ghost e = terminating.exponent as int;
        proof {
            lemma_den_positive(1, e);
            lemma_split(terminating.signed(), 1, e);
            lemma_pow10_positive(pos_part(e));
            lemma_mul_basics(d0);
            if c == 0 {
                lemma_mul_basics(pow10(pos_part(e)) as int);
                assert(terminating.num() == 0);
                assert(n0 * terminating.den() == 0);
                if n0 != 0 {
                    lemma_mul_nonzero(n0, terminating.den());
                }
            } else {
                lemma_mul_strictly_positive(c as int, pow10(pos_part(e)) as int);
                let sn = scaled_numerator(c as int, e);
                let sd = scaled_denominator(1, e);
                if terminating.negative {
                    lemma_mul_unary_negation(c as int, pow10(pos_part(e)) as int);
                    assert(terminating.num() == -sn);
                    // n0 has the sign of the numerator.
                    assert(-sn * d0 == n0 * sd);
                    lemma_mul_strictly_positive(sn, d0);
                    lemma_mul_unary_negation(sn, d0);
                    if n0 >= 0 {
                        lemma_mul_nonnegative(n0, sd);
                    }
                    assert(n0 < 0);
                    lemma_mul_unary_negation(n0, sd);
                    assert(is_decimal_form(c, e, n0, d0));
                } else {
                    lemma_mul_strictly_positive(sn, d0);
                    if n0 <= 0 {
                        lemma_mul_nonpositive_left(n0, sd);
                    }
                    assert(n0 > 0);
                    assert(is_decimal_form(c, e, n0, d0));
                }
                let form = decimal_form(n0, d0);
                lemma_decimal_form_unique(c, e, form.0, form.1, n0, d0);
            }
        }
        if terminating.coefficient.is_zero() {
            let empty: Vec<u8> = Vec::new();
            let r = crate::serialization::format_digits(&empty, 0, false, byte_limit);
            proof {
                assert(empty@ =~= Seq::<u8>::empty());
            }
            return r;
        }
        let len = terminating.coefficient.decimal_len();
        if len > byte_limit as u128 {
            proof {
                crate::bignum::lemma_fixed_digits_len(c, decimal_len_of(c));
                crate::serialization::lemma_fixed_notation_len(
                    crate::bignum::decimal_digits(c),
                    e,
                    n0 < 0,
                );
            }
            return failure(CssSpecifiedValueSerializationErrorKind::ByteLimit);
        }
        let digits = terminating.coefficient.decimal_digit_values();
        crate::serialization::format_digits(&digits, terminating.exponent, terminating.negative, byte_limit)
    }
}

pub proof fn lemma_mul_nonpositive_left(x: int, y: int)
    requires
        x <= 0,
        y >= 0,
    ensures
        x * y <= 0,
{
    lemma_mul_nonnegative(-x, y);
    lemma_mul_unary_negation(x, y);
}


/// `p / q × 10^places` rounded to the nearest integer, ties toward positive infinity.
pub open spec fn rounded_half_up(p: int, q: int, places: nat) -> int {
    (2 * p * pow10(places) + q) / (2 * q)
}

/// The fixed-notation text of `p / q` rounded to `places` decimal places.
pub open spec fn rounded_text(p: int, q: int, places: nat) -> Seq<u8> {
    exact_text(rounded_half_up(p, q, places), pow10(places) as int)
}

/// Floors of equal fractions are equal.
pub proof fn lemma_floor_same_ratio(a: int, b: int, a2: int, b2: int)
    requires
        b > 0,
        b2 > 0,
        a * b2 == a2 * b,
    ensures
        a / b == a2 / b2,
{
    lemma_fundamental_div_mod(a, b);
    let f = a / b;
    let r = a % b;
    assert(f * b <= a < (f + 1) * b) by (nonlinear_arith)
        requires
            a == b * f + r,
            0 <= r < b,
    ;
    assert(f * b2 <= a2 < (f + 1) * b2) by (nonlinear_arith)
        requires
            f * b <= a < (f + 1) * b,
            a * b2 == a2 * b,
            b > 0,
            b2 > 0,
    ;
    assert((f + 1) * b2 == f * b2 + b2) by (nonlinear_arith);
    lemma_fundamental_div_mod_converse(a2, b2, f, a2 - f * b2);
}

/// Rounding half up a nonnegative fraction: its floor, plus one when twice the
/// remainder reaches the divisor.
pub proof fn lemma_round_positive(n: int, d: int)
    requires
        n >= 0,
        d > 0,
    ensures
        (2 * n + d) / (2 * d) == n / d + (if 2 * (n % d) >= d {
            1int
        } else {
            0int
        }),
        (2 * (-n) + d) / (2 * d) == -(n / d + (if 2 * (n % d) > d {
            1int
        } else {
            0int
        })),
{
    lemma_fundamental_div_mod(n, d);
    let q = n / d;
    let r = n % d;
    let up: int = if 2 * r >= d {
        1
    } else {
        0
    };
    let down: int = if 2 * r > d {
        1
    } else {
        0
    };
    let rest1 = 2 * r + d - 2 * d * up;
    assert(2 * n + d == (q + up) * (2 * d) + rest1) by (nonlinear_arith)
        requires
            n == d * q + r,
            rest1 == 2 * r + d - 2 * d * up,
    ;
    assert(0 <= rest1 < 2 * d);
    lemma_fundamental_div_mod_converse(2 * n + d, 2 * d, q + up, rest1);
    let rest2 = d - 2 * r + 2 * d * down;
    assert(2 * (-n) + d == (-(q + down)) * (2 * d) + rest2) by (nonlinear_arith)
        requires
            n == d * q + r,
            rest2 == d - 2 * r + 2 * d * down,
    ;
    assert(0 <= rest2 < 2 * d);
    lemma_fundamental_div_mod_converse(2 * (-n) + d, 2 * d, -(q + down), rest2);
}

/// Rounding depends only on the value of the fraction.
pub proof fn lemma_round_same_ratio(p: int, q: int, x: int, y: int, places: nat)
    requires
        q > 0,
        y > 0,
        p * pow10(places) * y == x * q,
    ensures
        rounded_half_up(p, q, places) == (2 * x + y) / (2 * y),
{
    let t = pow10(places) as int;
    assert((2 * p * t + q) * (2 * y) == (2 * x + y) * (2 * q)) by (nonlinear_arith)
        requires
            p * t * y == x * q,
    ;
    lemma_floor_same_ratio(2 * p * t + q, 2 * q, 2 * x + y, 2 * y);
}

/// Equal nonnegative fractions have equal floors and fractional parts on the same side of
/// one half.
pub proof fn lemma_remainder_same_ratio(n: int, d: int, n2: int, d2: int)
    requires
        d > 0,
        d2 > 0,
        n * d2 == n2 * d,
    ensures
        n / d == n2 / d2,
        sign_diff(2 * (n % d), d) == sign_diff(2 * (n2 % d2), d2),
{
    lemma_floor_same_ratio(n, d, n2, d2);
    let f = n / d;
    lemma_fundamental_div_mod(n, d);
    lemma_fundamental_div_mod(n2, d2);
    let r = n % d;
    let r2 = n2 % d2;
    assert(r * d2 == r2 * d) by (nonlinear_arith)
        requires
            n == d * f + r,
            n2 == d2 * f + r2,
            n * d2 == n2 * d,
    ;
    if 2 * r < d {
        assert(2 * r2 < d2) by (nonlinear_arith)
            requires
                r * d2 == r2 * d,
                2 * r < d,
                d > 0,
                d2 > 0,
        ;
    } else if 2 * r == d {
        assert(2 * r2 == d2) by (nonlinear_arith)
            requires
                r * d2 == r2 * d,
                2 * r == d,
                d > 0,
                d2 > 0,
        ;
    } else {
        assert(2 * r2 > d2) by (nonlinear_arith)
            requires
                r * d2 == r2 * d,
                2 * r > d,
                d > 0,
                d2 > 0,
        ;
    }
}

impl ExactRational {
    /// `|value| = magnitude_num() / magnitude_den()`.
    pub open spec fn magnitude_num(&self) -> int {
        (self.coefficient.value() * pow10(pos_part(self.exponent as int))) as int
    }

    pub open spec fn magnitude_den(&self) -> int {
        (self.denominator * pow10(neg_part(self.exponent as int))) as int
    }

    /// Floor and half comparison of `|value| × 10^places` when `exponent + places >= 0`.
    fn round_whole_shift(
        &self,
        places: usize,
        shift: i128,
        byte_limit: usize,
        context: &mut SpecifiedSerializationContext,
    ) -> (r: SerializationResult<(BigCoefficient, i8)>)
        requires
            self.wf(),
            self.is_exact(),
            shift == self.exponent + places,
            shift >= 0,
            old(context).wf(),
        ensures
            final(context).wf(),
            budget_only(*old(context), *final(context)),
            r matches Ok((q, s)) ==> q.wf() && q.value() == (self.magnitude_num() * pow10(
                places as nat,
            )) / self.magnitude_den() && s == sign_diff(
                2 * ((self.magnitude_num() * pow10(places as nat)) % self.magnitude_den()),
                self.magnitude_den(),
            ),
            r matches Err(e) ==> arithmetic_error(e.kind),
            shift <= byte_limit + decimal_len_of(self.denominator as nat) && shift <= usize::MAX
                ==> budget_charged(r, *old(context), *final(context), whole_cost(self.coefficient.value(), shift as nat)),
    {
        let ghost c0 = *context;
        let denominator_digits = u64_decimal_len(self.denominator);
        if shift as u128 > byte_limit as u128 + denominator_digits {
            return failure(CssSpecifiedValueSerializationErrorKind::ByteLimit);
        }
        if shift > usize::MAX as i128 {
            return failure(CssSpecifiedValueSerializationErrorKind::CapacityOverflow);
        }
        let power = shift as usize;
        let scaled = match self.coefficient.mul_pow10(power, context) {
            Ok(v) => v,
            Err(e) => {
                proof {
                    lemma_whole_cost_parts(self.coefficient.value(), power as nat);
                }
                return Err(e);
            },
        };
        let ghost c1 = *context;
        proof {
            lemma_limbs_normal_len(scaled.limbs@);
            lemma_pow10_positive(power as nat);
            if self.coefficient.value() != 0 {
                lemma_mul_strictly_positive(
                    self.coefficient.value() as int,
                    pow10(power as nat) as int,
                );
            } else {
                lemma_mul_basics(pow10(power as nat) as int);
            }
        }
        let step = scaled.div_rem_small(self.denominator, context);
        proof {
            lemma_charge_when(step, c1, *context, scaled.limbs.len() as int, scaled.value() == 0);
        }
        let (quotient, remainder) = match step {
            Ok(pair) => pair,
            Err(e) => {
                return Err(e);
            },
        };
        let twice = remainder as u128 * 2;
        let rounding: i8 = if twice < self.denominator as u128 {
            -1
        } else if twice == self.denominator as u128 {
            0
        } else {
            1
        };
        proof {
            let cv = self.coefficient.value() as int;
            let d = self.denominator as int;
            let e = self.exponent as int;
            let pl = places as nat;
            let big_n = scaled.value() as int;
            lemma_fundamental_div_mod_converse(big_n, d, quotient.value() as int, remainder as int);
            lemma_pow10_add(pos_part(e), pl);
            lemma_pow10_add((e + pl) as nat, neg_part(e));
            assert(pos_part(e) + pl == (e + pl) + neg_part(e));
            assert(cv * pow10(pos_part(e)) * pow10(pl) * d == big_n * (d * pow10(neg_part(e))))
                by (nonlinear_arith)
                requires
                    big_n == cv * pow10((e + pl) as nat),
                    pow10(pos_part(e) + pl) == pow10(pos_part(e)) * pow10(pl),
                    pow10(pos_part(e) + pl) == pow10((e + pl) as nat) * pow10(neg_part(e)),
            ;
            lemma_pow10_positive(neg_part(e));
            lemma_mul_strictly_positive(d, pow10(neg_part(e)) as int);
            lemma_remainder_same_ratio(
                self.magnitude_num() * pow10(pl),
                self.magnitude_den(),
                big_n,
                d,
            );
        }
        Ok((quotient, rounding))
    }

    /// Floor and half comparison of `|value| × 10^places` when `exponent + places < 0`.
    fn round_fraction_shift(
        &self,
        places: usize,
        shift: i128,
        context: &mut SpecifiedSerializationContext,
    ) -> (r: SerializationResult<(BigCoefficient, i8)>)
        requires
            self.wf(),
            self.is_exact(),
            self.coefficient.value() > 0,
            shift == self.exponent + places,
            shift < 0,
            old(context).wf(),
        ensures
            final(context).wf(),
            budget_only(*old(context), *final(context)),
            r matches Ok((q, s)) ==> q.wf() && q.value() == (self.magnitude_num() * pow10(
                places as nat,
            )) / self.magnitude_den() && s == sign_diff(
                2 * ((self.magnitude_num() * pow10(places as nat)) % self.magnitude_den()),
                self.magnitude_den(),
            ),
            r matches Err(e) ==> arithmetic_error(e.kind),
            shift > i128::MIN && fraction_fits(
                self.coefficient.value(),
                self.denominator as nat,
                (-shift) as nat,
            ) ==> budget_charged(
                r,
                *old(context),
                *final(context),
                fraction_cost(self.coefficient.value(), self.denominator as nat, (-shift) as nat),
            ),
    {
        let ghost c0 = *context;
        let ghost cv = self.coefficient.value() as int;
        let ghost d = self.denominator as int;
        let ghost e = self.exponent as int;
        let ghost pl = places as nat;
        if shift == i128::MIN {
            return failure(CssSpecifiedValueSerializationErrorKind::CapacityOverflow);
        }
        let power_i = -shift;
        let ghost p = power_i as nat;
        let ghost big_d = d * pow10(p);
        let rounded: BigCoefficient;
        let rounding: i8;
        if power_i as u128 > self.coefficient.decimal_len() {
            rounded = BigCoefficient::zero();
            rounding = -1;
            proof {
                lemma_decimal_len_bounds(cv as nat);
                lemma_pow10_monotonic(crate::bignum::decimal_len_of(cv as nat), (p - 1) as nat);
                lemma_pow10_positive((p - 1) as nat);
                assert(pow10(p) == 10 * pow10((p - 1) as nat));
                assert(2 * cv < big_d) by (nonlinear_arith)
                    requires
                        cv < pow10((p - 1) as nat),
                        pow10(p) == 10 * pow10((p - 1) as nat),
                        big_d == d * pow10(p),
                        d >= 1,
                ;
                lemma_fundamental_div_mod_converse(cv, big_d, 0, cv);
            }
        } else {
            if power_i > usize::MAX as i128 {
                return failure(CssSpecifiedValueSerializationErrorKind::CapacityOverflow);
            }
            let power = power_i as usize;
            let ghost total = fraction_cost(self.coefficient.value(), self.denominator as nat, p);
            proof {
                lemma_limbs_normal_len(self.coefficient.limbs@);
            }
            let step1 = self.coefficient.div_rem_small(self.denominator, context);
            proof {
                lemma_single_charge(step1, c0, *context, self.coefficient.limbs.len() as int);
            }
            let (whole, denominator_remainder) = match step1 {
                Ok(pair) => pair,
                Err(e) => {
                    proof {
                        lemma_fraction_cost_parts(self.coefficient.value(), self.denominator as nat, p);
                    }
                    return Err(e);
                },
            };
            let ghost c1 = *context;
            proof {
                lemma_fundamental_div_mod_converse(
                    cv,
                    d,
                    whole.value() as int,
                    denominator_remainder as int,
                );
            }
            let step2 = whole.div_rem_pow10(power, context);
            let (quotient, low) = match step2 {
                Ok(pair) => pair,
                Err(e) => {
                    proof {
                        lemma_fraction_cost_parts(self.coefficient.value(), self.denominator as nat, p);
                    }
                    return Err(e);
                },
            };
            let ghost c2 = *context;
            proof {
                lemma_pow10_positive(p);
                lemma_fundamental_div_mod_converse(
                    whole.value() as int,
                    pow10(p) as int,
                    quotient.value() as int,
                    low.value() as int,
                );
                lemma_limbs_normal_len(low.limbs@);
            }
            let step3 = low.mul_small(self.denominator, context);
            proof {
                lemma_charge_when(
                    step3,
                    c2,
                    *context,
                    limb_len(low.value() * (self.denominator as nat)) as int,
                    low.value() == 0,
                );
            }
            let low_scaled = match step3 {
                Ok(v) => v,
                Err(e) => {
                    proof {
                        lemma_fraction_cost_parts(self.coefficient.value(), self.denominator as nat, p);
                    }
                    return Err(e);
                },
            };
            let ghost c3 = *context;
            let step4 = low_scaled.mul_small(2, context);
            proof {
                lemma_charge_when(
                    step4,
                    c3,
                    *context,
                    limb_len(low_scaled.value() * 2) as int,
                    low_scaled.value() == 0,
                );
            }
            let mut residual = match step4 {
                Ok(v) => v,
                Err(e) => {
                    proof {
                        lemma_fraction_cost_parts(self.coefficient.value(), self.denominator as nat, p);
                    }
                    return Err(e);
                },
            };
            let ghost c4 = *context;
            let twice_remainder = match denominator_remainder.checked_mul(2) {
                Some(v) => v,
                None => {
                    return failure(CssSpecifiedValueSerializationErrorKind::CapacityOverflow);
                },
            };
            let step5 = residual.add_small(twice_remainder, context);
            match step5 {
                Ok(()) => {},
                Err(e) => {
                    proof {
                        lemma_fraction_cost_parts(self.coefficient.value(), self.denominator as nat, p);
                    }
                    return Err(e);
                },
            }
            let ghost c5 = *context;
            let residual_digits = residual.decimal_len();
            let denominator_digits = u64_decimal_len(self.denominator);
            let comparison_len = denominator_digits + power as u128;
            let ghost res = residual.value() as int;
            proof {
                lemma_pow10_positive(p);
                let w = whole.value() as int;
                let lo = low.value() as int;
                let qq = quotient.value() as int;
                let dr = denominator_remainder as int;
                assert(res == 2 * (lo * d + dr));
                assert(cv == qq * big_d + (lo * d + dr)) by (nonlinear_arith)
                    requires
                        cv == w * d + dr,
                        w == qq * pow10(p) + lo,
                        big_d == d * pow10(p),
                ;
                assert(lo * d + dr < big_d) by (nonlinear_arith)
                    requires
                        lo < pow10(p),
                        dr < d,
                        big_d == d * pow10(p),
                        lo >= 0,
                        d > 0,
                ;
                lemma_mul_nonnegative(lo, d);
                lemma_fundamental_div_mod_converse(cv, big_d, qq, lo * d + dr);
            }
            rounding = if residual_digits < comparison_len {
                proof {
                    if res > 0 {
                        lemma_digits_order(res as nat, 0, d as nat, p);
                        assert(pow10(0) == 1);
                    } else {
                        lemma_mul_strictly_positive(d, pow10(p) as int);
                    }
                }
                -1
            } else if residual_digits > comparison_len {
                proof {
                    lemma_decimal_len_bounds(d as nat);
                    if res == 0 {
                        assert(crate::bignum::decimal_len_of(0) == 1);
                    }
                    lemma_digits_order(d as nat, p, res as nat, 0);
                    assert(pow10(0) == 1);
                }
                1
            } else {
                let step6 = BigCoefficient::from_u64(self.denominator, context);
                proof {
                    lemma_single_charge(step6, c5, *context, from_u64_cost(self.denominator as nat));
                }
                let unit = match step6 {
                    Ok(v) => v,
                    Err(e) => {
                        return Err(e);
                    },
                };
                let right = match unit.mul_pow10(power, context) {
                    Ok(v) => v,
                    Err(e) => {
                        return Err(e);
                    },
                };
                residual.compare_sign(&right)
            };
            rounded = quotient;
        }
        proof {
            lemma_pow10_positive(p);
            lemma_mul_strictly_positive(d, pow10(p) as int);
            lemma_pow10_add(p, pos_part(e) + pl);
            lemma_pow10_add(pos_part(e), pl);
            assert(neg_part(e) == p + pos_part(e) + pl);
            assert(cv * pow10(pos_part(e)) * pow10(pl) * (d * pow10(p)) == cv * (d * pow10(
                neg_part(e),
            ))) by (nonlinear_arith)
                requires
                    pow10(pos_part(e) + pl) == pow10(pos_part(e)) * pow10(pl),
                    pow10(neg_part(e)) == pow10(p) * pow10(pos_part(e) + pl),
            ;
            lemma_pow10_positive(neg_part(e));
            lemma_mul_strictly_positive(d, pow10(neg_part(e)) as int);
            lemma_remainder_same_ratio(
                self.magnitude_num() * pow10(pl),
                self.magnitude_den(),
                cv,
                big_d,
            );
        }
        Ok((rounded, rounding))
    }

    /// The value rounded to `places` decimal places, ties toward positive infinity, in
    /// fixed notation within `byte_limit` bytes. An unboundedly tiny value rounds to zero.
    pub fn format_rounded(
        self,
        places: usize,
        byte_limit: usize,
        context: &mut SpecifiedSerializationContext,
    ) -> (r: SerializationResult<String>)
        requires
            self.wf(),
            old(context).wf(),
        ensures
            final(context).wf(),
            budget_only(*old(context), *final(context)),
            self.is_exact() ==> (r matches Ok(s) ==> s@ == crate::serialization::ascii_chars(
                rounded_text(self.num(), self.den(), places as nat),
            )),
            self.unbounded_tiny ==> (r matches Ok(s) ==> s@ == crate::serialization::ascii_chars(
                seq![48u8],
            )),
            r matches Err(e) ==> arithmetic_error(e.kind),
            rounding_fits(parts(self), places as nat, byte_limit as nat) ==> budget_tied(
                r,
                *old(context),
                *final(context),
                rounding_cost(parts(self), places as nat),
            ),
            self.is_exact() && rounding_fits(parts(self), places as nat, byte_limit as nat) ==> (r is Ok
                <==> (old(context).projection_nodes + rounding_cost(parts(self), places as nat)
                <= old(context).limits.spec_max_projection_nodes() && rounded_text(
                self.num(),
                self.den(),
                places as nat,
            ).len() <= byte_limit)),
    {
        let ghost c0 = *context;
        if self.unbounded_tiny || self.coefficient.is_zero() {
            let empty: Vec<u8> = Vec::new();
            proof {
                assert(empty@ =~= Seq::<u8>::empty());
                if !self.unbounded_tiny {
                    lemma_den_positive(self.denominator as int, self.exponent as int);
                    lemma_split(0, self.denominator as int, self.exponent as int);
                    lemma_mul_basics(pow10(pos_part(self.exponent as int)) as int);
                    assert(self.num() == 0);
                    assert(rounded_half_up(self.num(), self.den(), places as nat) == 0) by {
                        assert(2 * self.num() * pow10(places as nat) == 0) by (nonlinear_arith)
                            requires
                                self.num() == 0,
                        ;
                        lemma_fundamental_div_mod_converse(self.den(), 2 * self.den(), 0, self.den());
                    }
                }
            }
            return crate::serialization::format_digits(&empty, 0, false, byte_limit);
        }
        let places_i128 = places as i128;
        let shift = match self.exponent.checked_add(places_i128) {
            Some(s) => s,
            None => {
                return failure(CssSpecifiedValueSerializationErrorKind::ByteLimit);
            },
        };
        let rounded_result = if shift >= 0 {
            self.round_whole_shift(places, shift, byte_limit, context)
        } else {
            self.round_fraction_shift(places, shift, context)
        };
        let (mut rounded, rounding) = match rounded_result {
            Ok(pair) => pair,
            Err(e) => {
                return Err(e);
            },
        };
        let ghost c1 = *context;
        let ghost pl = places as nat;
        let ghost mn = self.magnitude_num() * pow10(pl);
        let ghost md = self.magnitude_den();
        let ghost magnitude = rounded.value() as int + (if rounding == 1 || (rounding == 0
            && !self.negative) {
            1int
        } else {
            0int
        });
        proof {
            let e = self.exponent as int;
            lemma_split(self.signed(), self.denominator as int, e);
            lemma_pow10_positive(neg_part(e));
            lemma_pow10_positive(pos_part(e));
            lemma_mul_strictly_positive(self.denominator as int, pow10(neg_part(e)) as int);
            lemma_mul_nonnegative(self.coefficient.value() as int, pow10(pos_part(e)) as int);
            lemma_mul_nonnegative(self.magnitude_num(), pow10(pl) as int);
            lemma_round_positive(mn, md);
            assert(self.den() == md);
            if self.negative {
                lemma_mul_unary_negation(self.coefficient.value() as int, pow10(pos_part(e)) as int);
                assert(self.num() == -self.magnitude_num());
                lemma_mul_unary_negation(self.magnitude_num(), pow10(pl) as int);
                lemma_round_same_ratio(self.num(), md, -mn, md, pl);
                assert(rounded_half_up(self.num(), self.den(), pl) == -magnitude);
            } else {
                lemma_round_same_ratio(self.num(), md, mn, md, pl);
                assert(rounded_half_up(self.num(), self.den(), pl) == magnitude);
            }
        }
        if rounding == 1 || (rounding == 0 && !self.negative) {
            match rounded.increment(context) {
                Ok(()) => {},
                Err(e) => {
                    return Err(e);
                },
            }
        }
        let ghost unstripped = rounded.value();
        let removed = rounded.strip_decimal_zeros();
        let exponent = match removed.checked_sub(places_i128) {
            Some(x) => x,
            None => {
                return failure(CssSpecifiedValueSerializationErrorKind::CapacityOverflow);
            },
        };
        let negative = self.negative && !rounded.is_zero();
        if rounded.is_zero() {
            let empty: Vec<u8> = Vec::new();
            proof {
                assert(empty@ =~= Seq::<u8>::empty());
                lemma_mul_basics(pow10(removed as nat) as int);
                assert(unstripped == 0);
            }
            return crate::serialization::format_digits(&empty, exponent, false, byte_limit);
        }
        proof {
            let rv = rounded_half_up(self.num(), self.den(), pl);
            let cz = rounded.value();
            let z = removed as nat;
            lemma_pow10_positive(pl);
            lemma_pow10_positive(z);
            lemma_exponent_shift(cz as int, exponent as int, z, 1);
            assert(exponent as int - z == -(pl as int));
            assert(pow10(0) == 1);
            lemma_mul_basics((cz * pow10(z)) as int);
            lemma_mul_basics(1);
            assert(scaled_numerator((cz * pow10(z)) as int, -(pl as int)) == unstripped);
            assert(scaled_denominator(1, -(pl as int)) == pow10(pl)) by {
                lemma_mul_basics(pow10(pl) as int);
            }
            lemma_mul_strictly_positive(cz as int, pow10(z) as int);
            assert(unstripped > 0);
            assert(is_decimal_form(cz, exponent as int, rv, pow10(pl) as int));
            let form = decimal_form(rv, pow10(pl) as int);
            lemma_decimal_form_unique(cz, exponent as int, form.0, form.1, rv, pow10(pl) as int);
        }
        let len = rounded.decimal_len();
        if len > byte_limit as u128 {
            proof {
                crate::bignum::lemma_fixed_digits_len(rounded.value(), decimal_len_of(rounded.value()));
                crate::serialization::lemma_fixed_notation_len(
                    crate::bignum::decimal_digits(rounded.value()),
                    exponent as int,
                    rounded_half_up(self.num(), self.den(), places as nat) < 0,
                );
            }
            return failure(CssSpecifiedValueSerializationErrorKind::ByteLimit);
        }
        let digits = rounded.decimal_digit_values();
        crate::serialization::format_digits(&digits, exponent, negative, byte_limit)
    }
}


/// `base^exponent mod modulus` by square-and-multiply.
#[verifier::spinoff_prover]
pub fn pow_mod(base: u64, exponent: u128, modulus: u64) -> (r: u64)
    requires
        modulus > 0,
    ensures
        r == pow(base as int, exponent as nat) % (modulus as int),
{
    let ghost m = modulus as int;
    let mut result: u64 = 1 % modulus;
    let mut b: u64 = base % modulus;
    let mut e: u128 = exponent;
    proof {
        lemma_pow_mod_noop(base as int, exponent as nat, m);
        lemma_mul_mod_noop_left(1, pow((base % modulus) as int, exponent as nat), m);
        lemma_mul_basics(pow((base % modulus) as int, exponent as nat));
    }
    while e != 0
        invariant
            m == modulus as int,
            m > 0,
            b < modulus,
            result < modulus,
            (result * pow(b as int, e as nat)) % m == pow(base as int, exponent as nat) % m,
        decreases e,
    {
        let ghost e0 = e as nat;
        let ghost b0 = b as int;
        let ghost r0 = result as int;
        let half = e / 2;
        let odd = e % 2 != 0;
        proof {
            let x = result as int;
            let y = b as int;
            assert(x * y <= u128::MAX) by (nonlinear_arith)
                requires
                    0 <= x <= u64::MAX,
                    0 <= y <= u64::MAX,
            ;
            assert(y * y <= u128::MAX) by (nonlinear_arith)
                requires
                    0 <= y <= u64::MAX,
            ;
        }
        if odd {
            result = ((result as u128 * b as u128) % modulus as u128) as u64;
        }
        b = ((b as u128 * b as u128) % modulus as u128) as u64;
        e = half;
        proof {
            let bit: nat = if odd {
                1
            } else {
                0
            };
            assert(e0 == 2 * half + bit);
            lemma_pow_adds(b0, 2 * half as nat, bit);
            lemma_pow_multiplies(b0, 2, half as nat);
            assert(pow(b0, 2) == b0 * b0) by {
                reveal_with_fuel(pow, 3);
                assert(pow(b0, 0) == 1);
                assert(pow(b0, 1) == b0 * pow(b0, 0));
                lemma_mul_basics(b0);
                assert(pow(b0, 2) == b0 * pow(b0, 1));
            }
            // pow(b, e0) == pow(b0 * b0, half) * pow(b0, bit)
            lemma_pow_mod_noop(b0 * b0, half as nat, m);
            assert(b as int == (b0 * b0) % m);
            let ph = pow(b as int, half as nat);
            let pf = pow(b0 * b0, half as nat);
            let pbit = pow(b0, bit);
            assert(ph % m == pf % m);
            assert(pow(b0, e0) == pf * pbit);
            if odd {
                assert(pbit == b0) by {
                    reveal_with_fuel(pow, 2);
                }
                assert(result as int == (r0 * b0) % m);
            } else {
                assert(pbit == 1) by {
                    reveal_with_fuel(pow, 1);
                }
                assert(result as int == r0 % m) by {
                    lemma_small_mod(r0 as nat, m as nat);
                }
                lemma_mul_basics(r0);
            }
            // (result * ph) % m == (r0 * pbit * pf) % m
            lemma_mul_mod_noop_general(result as int, ph, m);
            lemma_mul_mod_noop_general(r0 * pbit, pf, m);
            assert((result as int) % m == (r0 * pbit) % m) by {
                lemma_mod_twice(r0 * pbit, m);
                lemma_small_mod(result as nat, m as nat);
            }
            assert((result * ph) % m == (r0 * pbit * pf) % m);
            lemma_mul_is_associative(r0, pbit, pf);
            lemma_mul_is_commutative(pbit, pf);
            assert(r0 * pbit * pf == r0 * pow(b0, e0));
        }
    }
    proof {
        assert(pow(b as int, 0) == 1) by {
            reveal_with_fuel(pow, 1);
        }
        lemma_mul_basics(result as int);
        lemma_small_mod(result as nat, m as nat);
    }
    result
}


pub proof fn lemma_pow_is_pow10(n: nat)
    ensures
        pow(10, n) == pow10(n),
    decreases n,
{
    reveal_with_fuel(pow, 2);
    if n > 0 {
        lemma_pow_is_pow10((n - 1) as nat);
    }
}

/// The Euclidean residue of a negated nonnegative integer.
pub proof fn lemma_mod_neg(x: int, m: int)
    requires
        x >= 0,
        m > 0,
    ensures
        (-x) % m == (if x % m == 0 {
            0
        } else {
            m - x % m
        }),
{
    lemma_fundamental_div_mod(x, m);
    let q = x / m;
    let r = x % m;
    if r == 0 {
        assert(-x == (-q) * m + 0) by (nonlinear_arith)
            requires
                x == m * q + r,
                r == 0,
        ;
        lemma_fundamental_div_mod_converse(-x, m, -q, 0);
    } else {
        assert(-x == (-q - 1) * m + (m - r)) by (nonlinear_arith)
            requires
                x == m * q + r,
        ;
        lemma_fundamental_div_mod_converse(-x, m, -q - 1, m - r);
    }
}

/// The residue modulo `m × q` of `±(i × q + f)`, a value with `f / q` as its fraction.
pub proof fn lemma_fraction_mod(i: int, q: int, f: int, m: int)
    requires
        i >= 0,
        q > 0,
        0 <= f < q,
        m > 0,
    ensures
        (i * q + f) % (m * q) == (i % m) * q + f,
        (-(i * q + f)) % (m * q) == (if f == 0 {
            if i % m == 0 {
                0
            } else {
                (m - i % m) * q
            }
        } else {
            (m - i % m - 1) * q + (q - f)
        }),
{
    lemma_fundamental_div_mod(i, m);
    let a = i / m;
    let b = i % m;
    let c = i * q + f;
    assert(c == a * (m * q) + (b * q + f)) by (nonlinear_arith)
        requires
            i == m * a + b,
            c == i * q + f,
    ;
    assert(b * q + f < m * q) by (nonlinear_arith)
        requires
            b <= m - 1,
            f < q,
            q > 0,
    ;
    lemma_mul_nonnegative(b, q);
    lemma_fundamental_div_mod_converse(c, m * q, a, b * q + f);
    lemma_mod_neg(c, m * q);
    lemma_mul_strictly_positive(m, q);
    if f == 0 {
        if b == 0 {
            lemma_mul_basics(q);
        } else {
            lemma_mul_strictly_positive(b, q);
            assert(m * q - (b * q + f) == (m - b) * q) by (nonlinear_arith)
                requires
                    f == 0,
            ;
        }
    } else {
        assert(m * q - (b * q + f) == (m - b - 1) * q + (q - f)) by (nonlinear_arith);
        assert(b * q + f > 0);
    }
}

/// The residue of a fraction modulo `m`: `p / q - m × floor(p / (m × q))`.
pub open spec fn residue_num(p: int, q: int, m: int) -> int {
    p - m * q * (p / (m * q))
}

/// A value `s / t` equal to the residue of `p / q` modulo `m` lies in `[0, m)`, and
/// differs from `p / q` by `m` times the integer `floor(p / (m × q))`.
pub proof fn lemma_residue_range(p: int, q: int, m: int, s: int, t: int)
    requires
        q > 0,
        t > 0,
        m > 0,
        same_ratio(s, t, residue_num(p, q, m), q),
    ensures
        0 <= s < m * t,
        p * t - s * q == m * (p / (m * q)) * q * t,
{
    lemma_mul_strictly_positive(m, q);
    let k = p / (m * q);
    let r = residue_num(p, q, m);
    lemma_fundamental_div_mod(p, m * q);
    assert(r == p % (m * q));
    assert(0 <= r < m * q);
    assert(s * q == r * t);
    assert(0 <= s < m * t) by (nonlinear_arith)
        requires
            s * q == r * t,
            0 <= r < m * q,
            q > 0,
            t > 0,
    ;
    assert(p * t - s * q == m * k * q * t) by (nonlinear_arith)
        requires
            s * q == r * t,
            r == p - m * q * k,
    ;
}

/// Zero is zero whatever its sign: two values with zero coefficients are equal in
/// order.
pub proof fn lemma_signed_zero_order(x: ExactRational, y: ExactRational)
    requires
        x.wf(),
        y.wf(),
        x.coefficient.value() == 0,
        y.coefficient.value() == 0,
    ensures
        x.num() == 0,
        y.num() == 0,
        ratio_order(x.num(), x.den(), y.num(), y.den()) == 0,
{
    lemma_mul_basics(pow10(x.exponent as nat) as int);
    lemma_mul_basics(pow10(y.exponent as nat) as int);
    lemma_mul_basics(x.den());
    lemma_mul_basics(y.den());
}

/// A residue computed from an equal fraction `s / t` is the same residue.
#[verifier::spinoff_prover]
pub proof fn lemma_residue_same_ratio(p: int, q: int, s: int, t: int, m: int)
    requires
        q > 0,
        t > 0,
        m > 0,
        s * q == p * t,
    ensures
        same_ratio(s % (m * t), t, residue_num(p, q, m), q),
{
    lemma_mul_strictly_positive(m, q);
    lemma_mul_strictly_positive(m, t);
    assert(p * (m * t) == s * (m * q)) by (nonlinear_arith)
        requires
            s * q == p * t,
    ;
    lemma_floor_same_ratio(p, m * q, s, m * t);
    let f = p / (m * q);
    lemma_fundamental_div_mod(s, m * t);
    assert(s % (m * t) == s - (m * t) * f);
    assert((s - (m * t) * f) * q == s * q - ((m * t) * f) * q) by (nonlinear_arith);
    assert((p - m * q * f) * t == p * t - ((m * q) * f) * t) by (nonlinear_arith);
    assert(((m * t) * f) * q == ((m * q) * f) * t) by (nonlinear_arith);
}

impl ExactRational {
    /// The value modulo a positive integer, in `[0, modulus)`: `value - modulus ×
    /// floor(value / modulus)`. The value must have a terminating decimal expansion.
    #[verifier::spinoff_prover]
    #[verifier::rlimit(100)]
    pub fn modulo(self, modulus: u64, context: &mut SpecifiedSerializationContext) -> (r:
        SerializationResult<Self>)
        requires
            self.wf(),
            old(context).wf(),
        ensures
            final(context).wf(),
            budget_only(*old(context), *final(context)),
            modulus == 0 ==> kind_error(r, CssSpecifiedValueSerializationErrorKind::CapacityOverflow),
            modulus > 0 && self.unbounded_tiny ==> kind_error(
                r,
                CssSpecifiedValueSerializationErrorKind::ByteLimit,
            ),
            modulus > 0 && self.is_exact() && strip_two_five(
                reduced_denominator(self.coefficient.value(), self.denominator as nat),
            ) != 1 ==> r is Err,
            r matches Ok(v) ==> self.is_exact() && v.wf() && v.is_exact() && !v.negative
                && v.equals(residue_num(self.num(), self.den(), modulus as int), self.den()),
            r matches Err(e) ==> arithmetic_error(e.kind),
            modulo_fits(self, modulus as nat) ==> budget_charged(
                r,
                *old(context),
                *final(context),
                modulo_cost(self, modulus as nat),
            ),
    {
        if modulus == 0 {
            return failure(CssSpecifiedValueSerializationErrorKind::CapacityOverflow);
        }
        let ghost n0 = self.num();
        let ghost d0 = self.den();
        let ghost m = modulus as int;
        proof {
            lemma_den_positive(self.denominator as int, self.exponent as int);
        }
        let ghost c0 = *context;
        let ghost me = self;
        let mut value = match self.into_terminating(context) {
            Ok(v) => v,
            Err(e) => {
                proof {
                    lemma_modulo_tail_nonneg(me, modulus as nat);
                }
                return Err(e);
            },
        };
        let ghost c1 = *context;
        let ghost tc = value.coefficient.value();
        proof {
            lemma_limbs_normal_len(value.coefficient.limbs@);
        }
        let ghost s = value.num();
        let ghost t = value.den();
        proof {
            lemma_den_positive(1, value.exponent as int);
            lemma_residue_same_ratio(n0, d0, s, t, m);
        }
        if value.coefficient.is_zero() {
            proof {
                lemma_split(0, 1, value.exponent as int);
                lemma_mul_basics(pow10(pos_part(value.exponent as int)) as int);
                lemma_mul_strictly_positive(m, t);
                lemma_small_mod(0, (m * t) as nat);
            }
            return Ok(value);
        }
        let c = &value.coefficient;
        if value.exponent >= 0 {
            let ghost e = value.exponent as nat;
            let ghost cv = value.coefficient.value() as int;
            let exponent = value.exponent as u128;
            let residue_c = c.mod_small(modulus);
            let residue_p = pow_mod(10, exponent, modulus);
            proof {
                let x = residue_c as int;
                let y = residue_p as int;
                assert(x * y <= u128::MAX) by (nonlinear_arith)
                    requires
                        0 <= x <= u64::MAX,
                        0 <= y <= u64::MAX,
                ;
            }
            let residue = ((residue_c as u128 * residue_p as u128) % modulus as u128) as u64;
            let residue = if value.negative && residue != 0 {
                modulus - residue
            } else {
                residue
            };
            proof {
                lemma_pow_is_pow10(e);
                lemma_mul_mod_noop_general(cv, pow10(e) as int, m);
                let x = cv * pow10(e);
                lemma_split(value.signed(), 1, value.exponent as int);
                lemma_mul_basics(1);
                assert(t == 1);
                lemma_mul_basics(m);
                if value.negative {
                    lemma_mul_unary_negation(cv, pow10(e) as int);
                    lemma_mul_nonnegative(cv, pow10(e) as int);
                    lemma_mod_neg(x, m);
                    assert(s == -x);
                } else {
                    assert(s == x);
                }
                assert(residue == s % (m * t));
            }
            let integer = match Self::integer(residue, context) {
                Ok(v) => v,
                Err(e) => {
                    return Err(e);
                },
            };
            proof {
                lemma_same_ratio_trans(
                    integer.num(),
                    integer.den(),
                    s % (m * t),
                    t,
                    residue_num(n0, d0, m),
                    d0,
                );
            }
            return Ok(integer);
        }
        let ghost p = (-value.exponent) as nat;
        if value.exponent == i128::MIN || -value.exponent > usize::MAX as i128 {
            return failure(CssSpecifiedValueSerializationErrorKind::ByteLimit);
        }
        let power = (-value.exponent) as usize;
        let (integer, fraction) = match value.coefficient.div_rem_pow10(power, context) {
            Ok(pair) => pair,
            Err(e) => {
                proof {
                    lemma_modulo_tail_nonneg(me, modulus as nat);
                }
                return Err(e);
            },
        };
        let ghost c2 = *context;
        proof {
            lemma_pow10_positive(p);
            lemma_fundamental_div_mod_converse(
                tc as int,
                pow10(p) as int,
                integer.value() as int,
                fraction.value() as int,
            );
            lemma_limbs_normal_len(fraction.limbs@);
        }
        let integer_remainder = integer.mod_small(modulus);
        let stored_unit = BigCoefficient::from_u64(1, context);
        proof {
            lemma_single_charge(stored_unit, c2, *context, from_u64_cost(1));
        }
        let unit = match stored_unit {
            Ok(v) => v,
            Err(e) => {
                proof {
                    lemma_modulo_tail_nonneg(me, modulus as nat);
                }
                return Err(e);
            },
        };
        let scale = match unit.mul_pow10(power, context) {
            Ok(v) => v,
            Err(e) => {
                proof {
                    lemma_modulo_tail_nonneg(me, modulus as nat);
                }
                return Err(e);
            },
        };
        let ghost c3 = *context;
        proof {
            lemma_limbs_normal_len(scale.limbs@);
        }
        let ghost iv = integer.value() as int;
        let ghost fv = fraction.value() as int;
        let ghost q = pow10(p) as int;
        proof {
            lemma_split(value.signed(), 1, value.exponent as int);
            assert(pow10(0) == 1);
            lemma_mul_basics(value.signed());
            lemma_mul_basics(q);
            assert(t == q);
            lemma_pow10_positive(p);
            lemma_fraction_mod(iv, q, fv, m);
            lemma_mul_is_commutative(iv, q);
            assert(scale.value() == q) by {
                lemma_mul_basics(q);
            }
        }
        let coefficient = if !value.negative {
            let stored = BigCoefficient::from_u64(integer_remainder, context);
            proof {
                lemma_single_charge(stored, c3, *context, from_u64_cost(integer_remainder as nat));
            }
            let base = match stored {
                Ok(v) => v,
                Err(e) => {
                    return Err(e);
                },
            };
            let shifted = match base.mul_pow10(power, context) {
                Ok(v) => v,
                Err(e) => {
                    return Err(e);
                },
            };
            let ghost c4 = *context;
            proof {
                lemma_limbs_normal_len(shifted.limbs@);
            }
            let added = shifted.add(&fraction, context);
            proof {
                lemma_single_charge(
                    added,
                    c4,
                    *context,
                    (if shifted.limbs.len() >= fraction.limbs.len() {
                        shifted.limbs.len()
                    } else {
                        fraction.limbs.len()
                    }) + 1,
                );
            }
            let sum = match added {
                Ok(v) => v,
                Err(e) => {
                    return Err(e);
                },
            };
            proof {
                lemma_mul_is_commutative(integer_remainder as int, q);
                assert(s == iv * q + fv);
                assert(sum.value() == s % (m * t));
            }
            sum
        } else if fraction.is_zero() {
            let whole = if integer_remainder == 0 {
                0
            } else {
                modulus - integer_remainder
            };
            let exact = match Self::integer(whole, context) {
                Ok(v) => v,
                Err(e) => {
                    return Err(e);
                },
            };
            proof {
                lemma_mul_unary_negation(value.coefficient.value() as int, 1);
                assert(s == -(iv * q + fv));
                lemma_mul_basics(whole as int);
                assert(same_ratio(exact.num(), exact.den(), s % (m * t), t)) by {
                    if integer_remainder != 0 {
                        assert((m - iv % m) * q == whole * q);
                    }
                    lemma_mul_basics(q);
                }
                lemma_same_ratio_trans(
                    exact.num(),
                    exact.den(),
                    s % (m * t),
                    t,
                    residue_num(n0, d0, m),
                    d0,
                );
            }
            return Ok(exact);
        } else {
            let whole = modulus - integer_remainder - 1;
            let stored = BigCoefficient::from_u64(whole, context);
            proof {
                lemma_single_charge(stored, c3, *context, from_u64_cost(whole as nat));
            }
            let base = match stored {
                Ok(v) => v,
                Err(e) => {
                    return Err(e);
                },
            };
            let shifted = match base.mul_pow10(power, context) {
                Ok(v) => v,
                Err(e) => {
                    return Err(e);
                },
            };
            let ghost c4 = *context;
            let subtracted = scale.subtract(&fraction, context);
            proof {
                lemma_single_charge(subtracted, c4, *context, scale.limbs.len() as int);
            }
            let complement = match subtracted {
                Ok(v) => v,
                Err(e) => {
                    return Err(e);
                },
            };
            let ghost c5 = *context;
            proof {
                lemma_limbs_normal_len(shifted.limbs@);
                lemma_limbs_normal_len(complement.limbs@);
            }
            let added = shifted.add(&complement, context);
            proof {
                lemma_single_charge(
                    added,
                    c5,
                    *context,
                    (if shifted.limbs.len() >= complement.limbs.len() {
                        shifted.limbs.len()
                    } else {
                        complement.limbs.len()
                    }) + 1,
                );
            }
            let sum = match added {
                Ok(v) => v,
                Err(e) => {
                    return Err(e);
                },
            };
            proof {
                lemma_mul_unary_negation(value.coefficient.value() as int, 1);
                lemma_mul_basics(value.coefficient.value() as int);
                assert(s == -(iv * q + fv));
                lemma_mul_is_commutative(whole as int, q);
                assert(sum.value() == s % (m * t));
            }
            sum
        };
        value.coefficient = coefficient;
        value.negative = false;
        value.denominator = 1;
        proof {
            lemma_split(value.signed(), 1, value.exponent as int);
            lemma_mul_basics(value.coefficient.value() as int);
            assert(value.num() == s % (m * t));
            assert(value.den() == t);
            lemma_same_ratio_trans(value.num(), value.den(), s % (m * t), t, residue_num(n0, d0, m), d0);
        }
        Ok(value)
    }
}


/// `maximum × (np / dp) / (nq / dq)` rounded half up, at most `maximum`.
pub open spec fn rounded_ratio(np: int, dp: int, nq: int, dq: int, maximum: int) -> int {
    let n = np * dq;
    let d = dp * nq;
    let x = (2 * n * maximum + d) / (2 * d);
    if x > maximum {
        maximum
    } else {
        x
    }
}

/// `10^n` when it fits in `u64`.
fn checked_pow10(n: u32) -> (r: Option<u64>)
    ensures
        r matches Some(v) ==> v == pow10(n as nat),
        r is None ==> pow10(n as nat) > u64::MAX,
{
    let mut value: u64 = 1;
    let mut i: u32 = 0;
    while i < n
        invariant
            i <= n,
            value == pow10(i as nat),
        decreases n - i,
    {
        proof {
            assert(pow10((i + 1) as nat) == 10 * pow10(i as nat));
        }
        match value.checked_mul(10) {
            Some(v) => {
                value = v;
            },
            None => {
                proof {
                    lemma_pow10_monotonic((i + 1) as nat, n as nat);
                }
                return None;
            },
        }
        i = i + 1;
    }
    Some(value)
}

/// The floor quotient `low` of `s / d`, capped at `maximum`, rounds half up as decided
/// by comparing `2s` with `(2 low + 1) d`.
proof fn lemma_round_from_floor(s: int, d: int, maximum: int, low: int, up: bool)
    requires
        d > 0,
        s >= 0,
        0 <= low <= maximum,
        low * d <= s,
        low < maximum ==> (low + 1) * d > s,
        low < maximum ==> (up <==> 2 * s >= (2 * low + 1) * d),
    ensures
        ({
            let x = (2 * s + d) / (2 * d);
            let capped = if x > maximum {
                maximum
            } else {
                x
            };
            capped == if low == maximum {
                maximum
            } else if up {
                low + 1
            } else {
                low
            }
        }),
{
    let x = (2 * s + d) / (2 * d);
    lemma_fundamental_div_mod(2 * s + d, 2 * d);
    let r = (2 * s + d) % (2 * d);
    lemma_mod_bound(2 * s + d, 2 * d);
    if low == maximum {
        assert(x >= maximum) by (nonlinear_arith)
            requires
                2 * s + d == 2 * d * x + r,
                r < 2 * d,
                maximum * d <= s,
                d > 0,
        ;
    } else if up {
        assert(x == low + 1) by (nonlinear_arith)
            requires
                2 * s + d == 2 * d * x + r,
                0 <= r < 2 * d,
                2 * s >= (2 * low + 1) * d,
                (low + 1) * d > s,
                d > 0,
        ;
    } else {
        assert(x == low) by (nonlinear_arith)
            requires
                2 * s + d == 2 * d * x + r,
                0 <= r < 2 * d,
                2 * s < (2 * low + 1) * d,
                low * d <= s,
                d > 0,
        ;
    }
}


/// Aligning two nonnegative exact values' decimal exponents: `nv / dv` is their ratio.
proof fn lemma_ratio_of_aligned(a: &ExactRational, b: &ExactRational, nv0: int, dv0: int, nv: int, dv: int)
    requires
        a.wf(),
        b.wf(),
        !a.negative,
        !b.negative,
        b.coefficient.value() != 0,
        nv0 == a.coefficient.value() * b.denominator,
        dv0 == b.coefficient.value() * a.denominator,
        nv == nv0 * pow10(pos_part(a.exponent - b.exponent)),
        dv == dv0 * pow10(pos_part(b.exponent - a.exponent)),
    ensures
        dv > 0,
        nv >= 0,
        a.den() > 0,
        b.num() > 0,
        nv * (a.den() * b.num()) == (a.num() * b.den()) * dv,
{
    let ae = a.exponent as int;
    let be = b.exponent as int;
    let ac = a.coefficient.value() as int;
    let bc = b.coefficient.value() as int;
    let ad = a.denominator as int;
    let bd = b.denominator as int;
    let x1 = pow10(pos_part(ae - be)) as int;
    let x2 = pow10(pos_part(-ae)) as int;
    let x3 = pow10(pos_part(be)) as int;
    let y1 = pow10(pos_part(ae)) as int;
    let y2 = pow10(pos_part(-be)) as int;
    let y3 = pow10(pos_part(be - ae)) as int;
    lemma_pow10_positive(pos_part(ae - be));
    lemma_pow10_positive(pos_part(-ae));
    lemma_pow10_positive(pos_part(be));
    lemma_pow10_positive(pos_part(ae));
    lemma_pow10_positive(pos_part(-be));
    lemma_pow10_positive(pos_part(be - ae));
    let e = pos_part(ae - be) + pos_part(-ae) + pos_part(be);
    assert(e == pos_part(ae) + pos_part(-be) + pos_part(be - ae));
    lemma_pow10_add(pos_part(ae - be), pos_part(-ae));
    lemma_pow10_add(pos_part(ae - be) + pos_part(-ae), pos_part(be));
    lemma_pow10_add(pos_part(ae), pos_part(-be));
    lemma_pow10_add(pos_part(ae) + pos_part(-be), pos_part(be - ae));
    assert(x1 * x2 * x3 == y1 * y2 * y3);
    assert(pow10(0) == 1);
    assert(a.signed() == ac);
    assert(b.signed() == bc);
    if ae >= 0 {
        assert(a.num() == ac * y1);
        lemma_mul_basics(ad);
        assert(a.den() == ad * x2);
    } else {
        lemma_mul_basics(ac);
        assert(a.num() == ac * y1);
        assert(a.den() == ad * x2);
    }
    if be >= 0 {
        assert(b.num() == bc * x3);
        lemma_mul_basics(bd);
        assert(b.den() == bd * y2);
    } else {
        lemma_mul_basics(bc);
        assert(b.num() == bc * x3);
        assert(b.den() == bd * y2);
    }
    let u = ac * bd;
    let v = ad * bc;
    crate::exact::lemma_mul_swap_middle(ad, x2, bc, x3);
    crate::exact::lemma_mul_swap_middle(u, x1, v, x2 * x3);
    lemma_mul_is_associative(x1, x2, x3);
    assert(nv == u * x1);
    assert(nv * (a.den() * b.num()) == (u * v) * (x1 * x2 * x3));
    crate::exact::lemma_mul_swap_middle(ac, y1, bd, y2);
    lemma_mul_is_commutative(bc, ad);
    assert(dv == v * y3);
    crate::exact::lemma_mul_swap_middle(u, y1 * y2, v, y3);
    assert((a.num() * b.den()) * dv == (u * v) * (y1 * y2 * y3));
    assert(dv > 0 && nv >= 0 && a.den() > 0 && b.num() > 0) by (nonlinear_arith)
        requires
            dv == bc * ad * y3,
            nv == ac * bd * x1,
            a.den() == ad * x2,
            b.num() == bc * x3,
            bc >= 1,
            ad >= 1,
            ac >= 0,
            bd >= 1,
            x1 >= 1,
            x2 >= 1,
            x3 >= 1,
            y3 >= 1,
    ;
}

/// The capped rounded quotient of aligned values is the rounded ratio of the values.
proof fn lemma_rounded_ratio_of_aligned(
    a: &ExactRational,
    b: &ExactRational,
    nv: int,
    dv: int,
    maximum: int,
    sv: int,
)
    requires
        dv > 0,
        nv >= 0,
        a.den() > 0,
        b.num() > 0,
        maximum >= 0,
        sv == nv * maximum,
        nv * (a.den() * b.num()) == (a.num() * b.den()) * dv,
    ensures
        ({
            let x = (2 * sv + dv) / (2 * dv);
            rounded_ratio(a.num(), a.den(), b.num(), b.den(), maximum) == if x > maximum {
                maximum
            } else {
                x
            }
        }),
{
    let n = a.num() * b.den();
    let d = a.den() * b.num();
    assert(d > 0) by (nonlinear_arith)
        requires
            a.den() > 0,
            b.num() > 0,
            d == a.den() * b.num(),
    ;
    assert((2 * sv + dv) * (2 * d) == (2 * n * maximum + d) * (2 * dv)) by (nonlinear_arith)
        requires
            sv == nv * maximum,
            nv * d == n * dv,
    ;
    lemma_floor_same_ratio(2 * sv + dv, 2 * dv, 2 * n * maximum + d, 2 * d);
}

impl ExactRational {
    /// `maximum × self / denominator` rounded half up and capped at `maximum`, where
    /// `maximum = unit_scale × 10^places`, for nonnegative values and a nonzero
    /// denominator; every intermediate product is charged to the projection budget.
    #[verifier::spinoff_prover]
    #[verifier::rlimit(100)]
    pub fn rounded_positive_ratio(
        &self,
        denominator: &Self,
        unit_scale: u64,
        places: u32,
        context: &mut SpecifiedSerializationContext,
    ) -> (r: SerializationResult<u64>)
        requires
            self.wf(),
            denominator.wf(),
            old(context).wf(),
            !self.negative,
            !denominator.negative,
            denominator.coefficient.value() != 0,
        ensures
            final(context).wf(),
            budget_only(*old(context), *final(context)),
            self.unbounded_tiny || denominator.unbounded_tiny ==> kind_error(
                r,
                CssSpecifiedValueSerializationErrorKind::ByteLimit,
            ) && *final(context) == *old(context),
            r matches Ok(x) ==> unit_scale * pow10(places as nat) <= u64::MAX && x == rounded_ratio(
                self.num(),
                self.den(),
                denominator.num(),
                denominator.den(),
                unit_scale * pow10(places as nat),
            ),
            r matches Err(e) ==> arithmetic_error(e.kind),
            ratio_fits(parts(*self), parts(*denominator), unit_scale as nat, places as nat)
                ==> budget_charged(
                r,
                *old(context),
                *final(context),
                ratio_cost(
                    parts(*self),
                    parts(*denominator),
                    (unit_scale * pow10(places as nat)) as nat,
                ),
            ),
    {
        if self.unbounded_tiny || denominator.unbounded_tiny {
            return failure(CssSpecifiedValueSerializationErrorKind::ByteLimit);
        }
        let ghost start = *context;
        let ghost total = ratio_cost(
            parts(*self),
            parts(*denominator),
            (unit_scale * pow10(places as nat)) as nat,
        );
        proof {
            let (nv1, dv1) = aligned_ratio(parts(*self), parts(*denominator));
            let mx = unit_scale * pow10(places as nat);
            lemma_search_cost_nonneg(0, mx as int, (nv1 * mx) as int, dv1 as int);
        }
        let step1 = self.coefficient.mul_small(denominator.denominator, context);
        proof {
            lemma_charge_when(
                step1,
                start,
                *context,
                limb_len(self.coefficient.value() * (denominator.denominator as nat)) as int,
                self.coefficient.value() == 0 || denominator.denominator == 0,
            );
        }
        let mut numerator = match step1 {
            Ok(v) => v,
            Err(e) => {
                return Err(e);
            },
        };
        let ghost c1 = *context;
        let step2 = denominator.coefficient.mul_small(self.denominator, context);
        proof {
            lemma_charge_when(
                step2,
                c1,
                *context,
                limb_len(denominator.coefficient.value() * (self.denominator as nat)) as int,
                denominator.coefficient.value() == 0 || self.denominator == 0,
            );
        }
        let mut divisor = match step2 {
            Ok(v) => v,
            Err(e) => {
                return Err(e);
            },
        };
        let ghost nv0 = numerator.value();
        let ghost dv0 = divisor.value();
        if self.exponent > denominator.exponent {
            let difference = match self.exponent.checked_sub(denominator.exponent) {
                Some(v) => v,
                None => {
                    return failure(CssSpecifiedValueSerializationErrorKind::CapacityOverflow);
                },
            };
            if difference > usize::MAX as i128 {
                return failure(CssSpecifiedValueSerializationErrorKind::CapacityOverflow);
            }
            numerator = match numerator.mul_pow10(difference as usize, context) {
                Ok(v) => v,
                Err(e) => {
                    return Err(e);
                },
            };
        } else if self.exponent < denominator.exponent {
            let difference = match denominator.exponent.checked_sub(self.exponent) {
                Some(v) => v,
                None => {
                    return failure(CssSpecifiedValueSerializationErrorKind::CapacityOverflow);
                },
            };
            if difference > usize::MAX as i128 {
                return failure(CssSpecifiedValueSerializationErrorKind::CapacityOverflow);
            }
            divisor = match divisor.mul_pow10(difference as usize, context) {
                Ok(v) => v,
                Err(e) => {
                    return Err(e);
                },
            };
        }
        let ghost nv = numerator.value() as int;
        let ghost dv = divisor.value() as int;
        proof {
            assert(pow10(0) == 1);
            lemma_mul_basics(nv0 as int);
            lemma_mul_basics(dv0 as int);
            assert(nv == nv0 * pow10(pos_part(self.exponent - denominator.exponent)));
            assert(dv == dv0 * pow10(pos_part(denominator.exponent - self.exponent)));
            lemma_ratio_of_aligned(self, denominator, nv0 as int, dv0 as int, nv, dv);
        }
        let decimal_scale = match checked_pow10(places) {
            Some(v) => v,
            None => {
                return failure(CssSpecifiedValueSerializationErrorKind::CapacityOverflow);
            },
        };
        let maximum = match unit_scale.checked_mul(decimal_scale) {
            Some(v) => v,
            None => {
                return failure(CssSpecifiedValueSerializationErrorKind::CapacityOverflow);
            },
        };
        let ghost c3 = *context;
        proof {
            lemma_limbs_normal_len(numerator.limbs@);
        }
        let step3 = numerator.mul_small(maximum, context);
        proof {
            lemma_charge_when(
                step3,
                c3,
                *context,
                limb_len(numerator.value() * (maximum as nat)) as int,
                numerator.value() == 0 || maximum == 0,
            );
        }
        let scaled = match step3 {
            Ok(v) => v,
            Err(e) => {
                return Err(e);
            },
        };
        let ghost sv = scaled.value() as int;
        let ghost cl = *context;
        let ghost mx = maximum as int;
        let ghost lowv: int = if mx * dv <= sv {
            mx
        } else {
            sv / dv
        };
        let ghost tail: int = if lowv == mx {
            0
        } else {
            small_product_cost(sv as nat, 2) + small_product_cost(dv as nat, (2 * lowv + 1) as nat)
        };
        let ghost pre: int = cl.projection_nodes - start.projection_nodes;
        proof {
            let (nv1, dv1) = aligned_ratio(parts(*self), parts(*denominator));
            assert(nv1 == nv && dv1 == dv);
            assert(sv == nv1 * (maximum as nat));
            assert(total == pre + search_cost(0, mx, sv, dv) + tail);
        }
        let mut low: u64 = 0;
        let mut high: u64 = maximum;
        proof {
            lemma_mul_basics(dv);
            lemma_mul_nonnegative(nv, maximum as int);
        }
        while low < high
            invariant
                low <= high <= maximum,
                divisor.wf(),
                scaled.wf(),
                divisor.value() == dv,
                scaled.value() == sv,
                dv > 0,
                sv >= 0,
                low * dv <= sv,
                high < maximum ==> (high + 1) * dv > sv,
                context.wf(),
                budget_only(start, *context),
                start == *old(context),
                !self.unbounded_tiny,
                !denominator.unbounded_tiny,
                cl.limits == context.limits && cl.input_nodes == context.input_nodes && cl.bytes
                    == context.bytes,
                search_cost(0, maximum as int, sv, dv) == (context.projection_nodes
                    - cl.projection_nodes) + search_cost(low as int, high as int, sv, dv),
                cl.projection_nodes <= context.projection_nodes,
                total == pre + search_cost(0, mx, sv, dv) + tail,
                pre == cl.projection_nodes - start.projection_nodes,
                total == ratio_cost(
                    parts(*self),
                    parts(*denominator),
                    (unit_scale * pow10(places as nat)) as nat,
                ),
                tail >= 0,
                mx == maximum,
            decreases high - low,
        {
            let gap = high - low;
            let midpoint = low + gap / 2 + gap % 2;
            let ghost cb = *context;
            proof {
                lemma_limbs_normal_len(divisor.limbs@);
                let mid = midpoint as int;
                if dv * mid <= sv {
                    lemma_search_cost_nonneg(mid, high as int, sv, dv);
                } else {
                    lemma_search_cost_nonneg(low as int, mid - 1, sv, dv);
                }
                lemma_mul_is_commutative(dv, midpoint as int);
            }
            let step = divisor.mul_small(midpoint, context);
            proof {
                lemma_charge_when(
                    step,
                    cb,
                    *context,
                    limb_len(divisor.value() * (midpoint as nat)) as int,
                    divisor.value() == 0 || midpoint == 0,
                );
            }
            let probe = match step {
                Ok(v) => v,
                Err(e) => {
                    proof {
                        let mid = midpoint as int;
                        let probe_cost = limb_len((dv * mid) as nat) as int;
                        assert(divisor.value() * (midpoint as nat) == dv * mid);
                        assert(search_cost(low as int, high as int, sv, dv) >= probe_cost);
                        assert(cb.projection_nodes + probe_cost > cb.limits.spec_max_projection_nodes());
                        assert(start.projection_nodes + total > start.limits.spec_max_projection_nodes());
                    }
                    return Err(e);
                },
            };
            proof {
                lemma_mul_is_commutative(dv, midpoint as int);
            }
            if probe.compare_sign(&scaled) <= 0 {
                low = midpoint;
            } else {
                high = midpoint - 1;
            }
        }
        proof {
            assert(search_cost(low as int, high as int, sv, dv) == 0);
            if low < maximum {
                assert((low + 1) * dv > sv);
                assert(sv - low * dv < dv) by (nonlinear_arith)
                    requires
                        (low + 1) * dv > sv,
                ;
                lemma_fundamental_div_mod_converse(sv, dv, low as int, sv - low * dv);
                assert(mx * dv > sv) by (nonlinear_arith)
                    requires
                        (low + 1) * dv > sv,
                        mx >= low + 1,
                        dv > 0,
                ;
            }
            assert(low == lowv);
            assert(context.projection_nodes == start.projection_nodes + pre + search_cost(0, mx, sv, dv));
        }
        if low == maximum {
            proof {
                lemma_round_from_floor(sv, dv, maximum as int, low as int, false);
                lemma_rounded_ratio_of_aligned(self, denominator, nv, dv, maximum as int, sv);
            }
            return Ok(low);
        }
        let ghost c4 = *context;
        let step4 = scaled.mul_small(2, context);
        proof {
            lemma_charge_when(
                step4,
                c4,
                *context,
                limb_len(scaled.value() * 2) as int,
                scaled.value() == 0,
            );
        }
        let doubled = match step4 {
            Ok(v) => v,
            Err(e) => {
                return Err(e);
            },
        };
        let ghost c5 = *context;
        let twice = match low.checked_mul(2) {
            Some(v) => v,
            None => {
                return failure(CssSpecifiedValueSerializationErrorKind::CapacityOverflow);
            },
        };
        let odd = match twice.checked_add(1) {
            Some(v) => v,
            None => {
                return failure(CssSpecifiedValueSerializationErrorKind::CapacityOverflow);
            },
        };
        let step5 = divisor.mul_small(odd, context);
        proof {
            lemma_charge_when(
                step5,
                c5,
                *context,
                limb_len(divisor.value() * (odd as nat)) as int,
                divisor.value() == 0 || odd == 0,
            );
        }
        let threshold = match step5 {
            Ok(v) => v,
            Err(e) => {
                return Err(e);
            },
        };
        let up = doubled.compare_sign(&threshold) >= 0;
        proof {
            lemma_mul_is_commutative(dv, odd as int);
            assert(threshold.value() == (2 * low + 1) * dv);
            assert(doubled.value() == 2 * sv);
            lemma_round_from_floor(sv, dv, maximum as int, low as int, up);
            lemma_rounded_ratio_of_aligned(self, denominator, nv, dv, maximum as int, sv);
        }
        Ok(
            if up {
                low + 1
            } else {
                low
            },
        )
    }
}


/// Equal fractions with a terminating decimal form have the same exact text.
pub proof fn lemma_exact_text_same_ratio(p: int, q: int, p2: int, q2: int)
    requires
        q > 0,
        q2 > 0,
        same_ratio(p, q, p2, q2),
        p != 0 ==> is_decimal_form(decimal_form(p, q).0, decimal_form(p, q).1, p, q),
    ensures
        exact_text(p, q) == exact_text(p2, q2),
{
    if p == 0 {
        lemma_mul_basics(q2);
        assert(p2 * q == 0);
        lemma_mul_nonzero(p2, q);
        assert(p2 == 0);
    } else {
        let f = decimal_form(p, q);
        let ap = if p < 0 {
            -p
        } else {
            p
        };
        let ap2 = if p2 < 0 {
            -p2
        } else {
            p2
        };
        assert(p2 != 0) by {
            if p2 == 0 {
                lemma_mul_basics(q);
                lemma_mul_nonzero(p, q2);
            }
        }
        assert((p < 0) == (p2 < 0)) by {
            if p < 0 && p2 > 0 {
                lemma_mul_strictly_positive(p2, q);
                lemma_mul_strictly_positive(-p, q2);
                lemma_mul_unary_negation(p, q2);
            }
            if p > 0 && p2 < 0 {
                lemma_mul_strictly_positive(p, q2);
                lemma_mul_strictly_positive(-p2, q);
                lemma_mul_unary_negation(p2, q);
            }
        }
        assert(same_ratio(ap, q, ap2, q2)) by {
            if p < 0 {
                lemma_mul_unary_negation(p, q2);
                lemma_mul_unary_negation(p2, q);
            }
        }
        lemma_den_positive(1, f.1);
        lemma_same_ratio_trans(
            scaled_numerator(f.0 as int, f.1),
            scaled_denominator(1, f.1),
            ap,
            q,
            ap2,
            q2,
        );
        assert(is_decimal_form(f.0, f.1, p2, q2));
        let g = decimal_form(p2, q2);
        assert(is_decimal_form(g.0, g.1, p2, q2));
        lemma_decimal_form_unique(f.0, f.1, g.0, g.1, p2, q2);
    }
}

impl ExactRational {
    /// The exact text when the reduced denominator has only factors two and five, and
    /// otherwise the text rounded to `places` decimal places.
    pub fn format_exact_or_rounded(
        self,
        places: usize,
        byte_limit: usize,
        context: &mut SpecifiedSerializationContext,
    ) -> (r: SerializationResult<String>)
        requires
            self.wf(),
            old(context).wf(),
        ensures
            final(context).wf(),
            budget_only(*old(context), *final(context)),
            self.is_exact() ==> (r matches Ok(s) ==> s@ == crate::serialization::ascii_chars(
                if strip_two_five(
                    reduced_denominator(self.coefficient.value(), self.denominator as nat),
                ) == 1 {
                    exact_text(self.num(), self.den())
                } else {
                    rounded_text(self.num(), self.den(), places as nat)
                },
            )),
            self.unbounded_tiny ==> (r matches Ok(s) ==> s@ == crate::serialization::ascii_chars(
                seq![48u8],
            )),
            r matches Err(e) ==> arithmetic_error(e.kind),
            exact_or_rounded_fits(self, places as nat, byte_limit as nat) ==> budget_tied(
                r,
                *old(context),
                *final(context),
                exact_or_rounded_cost(self, places as nat),
            ),
            exact_or_rounded_fits(self, places as nat, byte_limit as nat) ==> (r is Ok <==> (old(
                context,
            ).projection_nodes + exact_or_rounded_cost(self, places as nat)
                <= old(context).limits.spec_max_projection_nodes() && exact_or_rounded_text(
                self,
                places as nat,
            ).len() <= byte_limit)),
    {
        let ghost sn = self.num();
        let ghost sd = self.den();
        let ghost c = self.coefficient.value();
        let ghost d0 = self.denominator as nat;
        let ghost me = self;
        proof {
            let vp = reduced_parts(me);
            lemma_terminating_cost_nonneg(vp.0, vp.2);
            if me.coefficient.value() != 0 {
                lemma_gcd_divides(me.coefficient.value() % (me.denominator as nat), me.denominator as nat);
                assert(vp.2 > 0) by {
                    let g = gcd(me.coefficient.value() % (me.denominator as nat), me.denominator as nat);
                    lemma_fundamental_div_mod(me.denominator as int, g as int);
                    if (me.denominator as nat) / g == 0 {
                        lemma_mul_basics(g as int);
                    }
                }
            }
            lemma_rounding_cost_nonneg(vp, places as nat);
        }
        let value = match self.reduce_fraction(context) {
            Ok(v) => v,
            Err(e) => {
                return Err(e);
            },
        };
        proof {
            assert(parts(value) == reduced_parts(me));
        }
        let ghost reduced = value.denominator as nat;
        assert(reduced == reduced_denominator(c, d0));
        let mut denominator = value.denominator;
        while denominator % 2 == 0
            invariant
                denominator > 0,
                strip_two_five(denominator as nat) == strip_two_five(reduced),
            decreases denominator,
        {
            denominator = denominator / 2;
        }
        while denominator % 5 == 0
            invariant
                denominator > 0,
                denominator % 2 != 0,
                strip_two_five(denominator as nat) == strip_two_five(reduced),
            decreases denominator,
        {
            proof {
                lemma_fundamental_div_mod(denominator as int, 5);
                assert((denominator / 5) % 2 != 0) by (nonlinear_arith)
                    requires
                        denominator == 5 * (denominator / 5),
                        denominator % 2 != 0,
                ;
            }
            denominator = denominator / 5;
        }
        assert(strip_two_five(denominator as nat) == denominator);
        proof {
            lemma_den_positive(self.denominator as int, self.exponent as int);
            lemma_den_positive(value.denominator as int, value.exponent as int);
        }
        if denominator == 1 {
            let r = value.format_exact(byte_limit, context);
            proof {
                if r is Ok {
                    lemma_exact_text_same_ratio(value.num(), value.den(), sn, sd);
                }
            }
            r
        } else {
            let r = value.format_rounded(places, byte_limit, context);
            proof {
                if self.is_exact() {
                    let t = pow10(places as nat) as int;
                    let vn = value.num();
                    let vd = value.den();
                    assert(vn * t * sd == (sn * t) * vd) by (nonlinear_arith)
                        requires
                            vn * sd == sn * vd,
                    ;
                    lemma_round_same_ratio(vn, vd, sn * t, sd, places as nat);
                    lemma_mul_is_associative(2, sn, t);
                    assert(rounded_half_up(vn, vd, places as nat) == rounded_half_up(
                        sn,
                        sd,
                        places as nat,
                    ));
                }
            }
            r
        }
    }
}

} // verus!
