//! Unbounded nonnegative decimal coefficients stored as little-endian base-10^9 limbs.

use crate::serialization::{
    CssSpecifiedValueSerializationError, CssSpecifiedValueSerializationErrorKind,
    SerializationResult, SpecifiedSerializationContext, charge_outcome,
};
use vstd::arithmetic::div_mod::*;
use vstd::arithmetic::mul::*;
use vstd::prelude::*;

verus! {

/// The limb radix.
pub const LIMB_BASE: u64 = 1_000_000_000;

/// Decimal digits held by one limb.
pub const LIMB_DIGITS: usize = 9;

pub open spec fn base() -> nat {
    1_000_000_000
}

/// `10^n`.
pub open spec fn pow10(n: nat) -> nat
    decreases n,
{
    if n == 0 {
        1
    } else {
        10 * pow10((n - 1) as nat)
    }
}

/// `base()^n`.
pub open spec fn pow_base(n: nat) -> nat
    decreases n,
{
    if n == 0 {
        1
    } else {
        base() * pow_base((n - 1) as nat)
    }
}

/// The number held by little-endian limbs.
pub open spec fn limbs_value(s: Seq<u32>) -> nat
    decreases s.len(),
{
    if s.len() == 0 {
        0
    } else {
        s[0] as nat + base() * limbs_value(s.drop_first())
    }
}

pub open spec fn limbs_bounded(s: Seq<u32>) -> bool {
    forall|i: int| 0 <= i < s.len() ==> #[trigger] s[i] < base()
}

/// Bounded limbs without a zero most significant limb; zero has no limbs.
pub open spec fn limbs_normal(s: Seq<u32>) -> bool {
    limbs_bounded(s) && (s.len() == 0 || s.last() != 0)
}

/// The number of limbs of the normal form of `v`.
pub open spec fn limb_len(v: nat) -> nat
    decreases v,
{
    if v == 0 {
        0
    } else {
        1 + limb_len(v / base())
    }
}

pub proof fn lemma_pow10_positive(n: nat)
    ensures
        pow10(n) >= 1,
    decreases n,
{
    if n > 0 {
        lemma_pow10_positive((n - 1) as nat);
    }
}

pub proof fn lemma_pow_base_positive(n: nat)
    ensures
        pow_base(n) >= 1,
    decreases n,
{
    if n > 0 {
        lemma_pow_base_positive((n - 1) as nat);
    }
}

pub proof fn lemma_pow10_add(a: nat, b: nat)
    ensures
        pow10(a + b) == pow10(a) * pow10(b),
    decreases a,
{
    if a > 0 {
        lemma_pow10_add((a - 1) as nat, b);
        assert((a + b - 1) as nat == ((a - 1) as nat + b) as nat);
        assert(pow10(a + b) == 10 * pow10((a - 1 + b) as nat));
        lemma_mul_is_associative(10, pow10((a - 1) as nat) as int, pow10(b) as int);
    } else {
        assert(pow10(0) == 1);
        assert(a + b == b);
    }
}

pub proof fn lemma_pow_base_is_pow10(n: nat)
    ensures
        pow_base(n) == pow10(9 * n),
    decreases n,
{
    if n > 0 {
        lemma_pow_base_is_pow10((n - 1) as nat);
        lemma_pow10_add(9, 9 * (n - 1) as nat);
        assert(pow10(9) == base()) by {
            reveal_with_fuel(pow10, 10);
        }
        assert(9 * n == 9 + 9 * (n - 1) as nat) by (nonlinear_arith)
            requires
                n > 0,
        ;
    }
}

pub proof fn lemma_pow_base_add(a: nat, b: nat)
    ensures
        pow_base(a + b) == pow_base(a) * pow_base(b),
{
    lemma_pow_base_is_pow10(a);
    lemma_pow_base_is_pow10(b);
    lemma_pow_base_is_pow10(a + b);
    assert(9 * (a + b) == 9 * a + 9 * b) by (nonlinear_arith);
    lemma_pow10_add(9 * a, 9 * b);
}

pub proof fn lemma_pow10_monotonic(a: nat, b: nat)
    requires
        a <= b,
    ensures
        pow10(a) <= pow10(b),
    decreases b,
{
    if a < b {
        lemma_pow10_monotonic(a, (b - 1) as nat);
        lemma_pow10_positive((b - 1) as nat);
    }
}

pub proof fn lemma_limbs_push(s: Seq<u32>, x: u32)
    ensures
        limbs_value(s.push(x)) == limbs_value(s) + x * pow_base(s.len()),
    decreases s.len(),
{
    if s.len() == 0 {
        assert(s.push(x).drop_first() =~= Seq::<u32>::empty());
        assert(s.push(x)[0] == x);
        assert(limbs_value(Seq::<u32>::empty()) == 0);
        assert(limbs_value(s.push(x)) == x as nat + base() * 0);
        assert(pow_base(0) == 1);
        assert(limbs_value(s) == 0);
    } else {
        let rest = s.drop_first();
        assert(s.push(x).drop_first() =~= rest.push(x));
        lemma_limbs_push(rest, x);
        assert(s.push(x)[0] == s[0]);
        assert(limbs_value(s.push(x)) == s[0] as nat + base() * limbs_value(rest.push(x)));
        assert(pow_base(s.len()) == base() * pow_base(rest.len()));
        lemma_mul_is_distributive_add(
            base() as int,
            limbs_value(rest) as int,
            x * pow_base(rest.len()) as int,
        );
        lemma_mul_is_associative(base() as int, x as int, pow_base(rest.len()) as int);
        lemma_mul_is_associative(x as int, base() as int, pow_base(rest.len()) as int);
        lemma_mul_is_commutative(x as int, base() as int);
    }
}

/// The value of a prefix grows by the next limb at its place.
pub proof fn lemma_limbs_take_next(s: Seq<u32>, i: int)
    requires
        0 <= i < s.len(),
    ensures
        limbs_value(s.take(i + 1)) == limbs_value(s.take(i)) + s[i] * pow_base(i as nat),
{
    assert(s.take(i + 1) =~= s.take(i).push(s[i]));
    lemma_limbs_push(s.take(i), s[i]);
}

pub proof fn lemma_limbs_bound(s: Seq<u32>)
    requires
        limbs_bounded(s),
    ensures
        limbs_value(s) < pow_base(s.len()),
    decreases s.len(),
{
    if s.len() > 0 {
        let rest = s.drop_first();
        assert(limbs_bounded(rest)) by {
            assert forall|i: int| 0 <= i < rest.len() implies #[trigger] rest[i] < base() by {
                assert(rest[i] == s[i + 1]);
            }
        }
        lemma_limbs_bound(rest);
        assert(s[0] < base());
        assert(limbs_value(s) == s[0] as nat + base() * limbs_value(rest));
        assert(limbs_value(rest) + 1 <= pow_base(rest.len()));
        lemma_mul_inequality(
            limbs_value(rest) + 1 as int,
            pow_base(rest.len()) as int,
            base() as int,
        );
        lemma_mul_is_distributive_add(base() as int, limbs_value(rest) as int, 1);
        lemma_mul_is_commutative(base() as int, pow_base(rest.len()) as int);
        lemma_mul_is_commutative(base() as int, limbs_value(rest) + 1 as int);
    }
}

proof fn lemma_limbs_bounded_drop_first(s: Seq<u32>)
    requires
        limbs_bounded(s),
        s.len() > 0,
    ensures
        limbs_bounded(s.drop_first()),
{
    assert forall|i: int| 0 <= i < s.drop_first().len() implies #[trigger] s.drop_first()[i]
        < base() by {
        assert(s.drop_first()[i] == s[i + 1]);
    }
}

/// A normal nonempty sequence holds at least the place of its top limb.
pub proof fn lemma_limbs_normal_lower(s: Seq<u32>)
    requires
        limbs_normal(s),
        s.len() > 0,
    ensures
        limbs_value(s) >= pow_base((s.len() - 1) as nat),
    decreases s.len(),
{
    if s.len() == 1 {
        assert(s.drop_first() =~= Seq::<u32>::empty());
        assert(s.last() == s[0]);
    } else {
        let rest = s.drop_first();
        lemma_limbs_bounded_drop_first(s);
        assert(rest.last() == s.last());
        lemma_limbs_normal_lower(rest);
        assert(pow_base((s.len() - 1) as nat) == base() * pow_base((rest.len() - 1) as nat));
        lemma_mul_inequality(
            pow_base((rest.len() - 1) as nat) as int,
            limbs_value(rest) as int,
            base() as int,
        );
        lemma_mul_is_commutative(base() as int, pow_base((rest.len() - 1) as nat) as int);
        lemma_mul_is_commutative(base() as int, limbs_value(rest) as int);
    }
}

/// A normal sequence is empty exactly when it holds zero.
pub proof fn lemma_limbs_normal_zero(s: Seq<u32>)
    requires
        limbs_normal(s),
    ensures
        (limbs_value(s) == 0) == (s.len() == 0),
{
    if s.len() > 0 {
        lemma_limbs_normal_lower(s);
        lemma_pow_base_positive((s.len() - 1) as nat);
    }
}

/// The number of limbs of a normal sequence is fixed by its value.
pub proof fn lemma_limbs_normal_len(s: Seq<u32>)
    requires
        limbs_normal(s),
    ensures
        s.len() == limb_len(limbs_value(s)),
    decreases s.len(),
{
    lemma_limbs_normal_zero(s);
    if s.len() > 0 {
        let rest = s.drop_first();
        lemma_limbs_bounded_drop_first(s);
        if s.len() > 1 {
            assert(rest.last() == s.last());
        } else {
            assert(rest =~= Seq::<u32>::empty());
        }
        lemma_limbs_normal_len(rest);
        let v = limbs_value(s);
        assert(v == s[0] as nat + base() * limbs_value(rest));
        lemma_fundamental_div_mod_converse(
            v as int,
            base() as int,
            limbs_value(rest) as int,
            s[0] as int,
        );
    }
}

/// Two normal sequences are equal exactly when their values are.
pub proof fn lemma_limbs_normal_unique(a: Seq<u32>, b: Seq<u32>)
    requires
        limbs_normal(a),
        limbs_normal(b),
        limbs_value(a) == limbs_value(b),
    ensures
        a == b,
    decreases a.len(),
{
    lemma_limbs_normal_len(a);
    lemma_limbs_normal_len(b);
    if a.len() > 0 {
        let va = limbs_value(a);
        lemma_fundamental_div_mod_converse(
            va as int,
            base() as int,
            limbs_value(a.drop_first()) as int,
            a[0] as int,
        );
        lemma_fundamental_div_mod_converse(
            va as int,
            base() as int,
            limbs_value(b.drop_first()) as int,
            b[0] as int,
        );
        lemma_limbs_bounded_drop_first(a);
        lemma_limbs_bounded_drop_first(b);
        if a.len() > 1 {
            assert(a.drop_first().last() == a.last());
            assert(b.drop_first().last() == b.last());
        } else {
            assert(a.drop_first() =~= Seq::<u32>::empty());
            assert(b.drop_first() =~= Seq::<u32>::empty());
        }
        lemma_limbs_normal_unique(a.drop_first(), b.drop_first());
        assert(a =~= seq![a[0]] + a.drop_first());
        assert(b =~= seq![b[0]] + b.drop_first());
    }
}

/// A successful projection charge of `amount`: the counter advanced, nothing else changed.
pub open spec fn charged(
    before: SpecifiedSerializationContext,
    after: SpecifiedSerializationContext,
    amount: int,
) -> bool {
    &&& charge_outcome(
        before.projection_nodes as int,
        amount,
        before.limits.spec_max_projection_nodes() as int,
        CssSpecifiedValueSerializationErrorKind::ProjectionNodeLimit,
    ) == Ok::<int, CssSpecifiedValueSerializationErrorKind>(after.projection_nodes as int)
    &&& after.limits == before.limits
    &&& after.input_nodes == before.input_nodes
    &&& after.bytes == before.bytes
}

/// A refused projection charge of `amount`: the context is unchanged.
pub open spec fn refused(
    before: SpecifiedSerializationContext,
    after: SpecifiedSerializationContext,
    amount: int,
    kind: CssSpecifiedValueSerializationErrorKind,
) -> bool {
    &&& charge_outcome(
        before.projection_nodes as int,
        amount,
        before.limits.spec_max_projection_nodes() as int,
        CssSpecifiedValueSerializationErrorKind::ProjectionNodeLimit,
    ) == Err::<int, CssSpecifiedValueSerializationErrorKind>(kind)
    &&& after == before
}

/// Outcome of an operation whose only failure is one projection charge of `amount`.
pub open spec fn charge_only<T>(
    r: SerializationResult<T>,
    before: SpecifiedSerializationContext,
    after: SpecifiedSerializationContext,
    amount: int,
) -> bool {
    match r {
        Ok(_) => charged(before, after, amount),
        Err(e) => refused(before, after, amount, e.kind),
    }
}

/// A run of charges totalling `cost` against the projection budget: when the budget
/// holds the total, the run succeeds and the counter advances by exactly the total;
/// otherwise a budget error is reported. Nothing else in the context changes.
pub open spec fn budget_charged<T>(
    r: SerializationResult<T>,
    before: SpecifiedSerializationContext,
    after: SpecifiedSerializationContext,
    cost: int,
) -> bool {
    &&& after.limits == before.limits
    &&& after.input_nodes == before.input_nodes
    &&& after.bytes == before.bytes
    &&& before.projection_nodes <= after.projection_nodes
    &&& (before.projection_nodes + cost <= before.limits.spec_max_projection_nodes() <==> r is Ok)
    &&& r is Ok ==> after.projection_nodes == before.projection_nodes + cost
    &&& r matches Err(e) ==> budget_error(e.kind)
}

/// What multiplying `v` by `10^p` charges: the limbs of `v × 10^(p mod 9)`, then
/// those limbs again with `p div 9` zero limbs below them.
pub open spec fn mul_pow10_cost(v: nat, p: nat) -> int {
    if v == 0 {
        0
    } else {
        let m = limb_len(v * pow10(p % 9)) as int;
        m + ((p / 9) as int + m)
    }
}

/// What adding one to `v` charges: one new limb when every limb is full.
pub open spec fn increment_cost(v: nat) -> int {
    if v + 1 == pow_base(limb_len(v)) {
        1
    } else {
        0
    }
}

/// What adding `x` to `v` charges: one for each new limb.
pub open spec fn add_cost(v: nat, x: nat) -> int {
    limb_len(v + x) - limb_len(v)
}

/// What dividing `v` by `10^p` charges: a copy when nothing is split off; otherwise
/// the upper limbs, their division by `10^(p mod 9)` when that is not one, and the
/// lower limbs with one more for a nonzero partial limb.
pub open spec fn div_rem_pow10_cost(v: nat, p: nat) -> int {
    let n = limb_len(v) as int;
    let w = (p / 9) as int;
    let rd = p % 9;
    if v == 0 || p == 0 || w >= n {
        n
    } else {
        let u = v / pow_base(w as nat);
        (n - w) + (if rd != 0 {
            n - w
        } else {
            0
        }) + w + (if rd != 0 && u % pow10(rd) != 0 {
            1int
        } else {
            0
        })
    }
}

/// What multiplying `v` by a small factor `f` charges: the product's limbs, nothing
/// when it is zero.
pub open spec fn small_product_cost(v: nat, f: nat) -> int {
    if v == 0 || f == 0 {
        0
    } else {
        limb_len(v * f) as int
    }
}

/// What storing a `u64` charges: its limbs.
pub open spec fn from_u64_cost(v: nat) -> int {
    if v == 0 {
        0
    } else if v < 1_000_000_000 {
        1
    } else {
        2
    }
}

/// A step that is either free (the context unchanged) or one charge.
pub proof fn lemma_charge_when<T>(
    r: SerializationResult<T>,
    before: SpecifiedSerializationContext,
    after: SpecifiedSerializationContext,
    amount: int,
    free: bool,
)
    requires
        before.wf(),
        amount >= 0,
        free ==> r is Ok && after == before,
        !free ==> charge_only(r, before, after, amount),
    ensures
        budget_charged(r, before, after, if free {
            0
        } else {
            amount
        }),
{
}

/// A run of charges totalling `cost`, among other steps that may fail for reasons of
/// their own: a budget error is reported exactly when the budget cannot hold the
/// total, and success advances the counter by exactly the total.
pub open spec fn budget_tied<T>(
    r: SerializationResult<T>,
    before: SpecifiedSerializationContext,
    after: SpecifiedSerializationContext,
    cost: int,
) -> bool {
    &&& after.limits == before.limits
    &&& after.input_nodes == before.input_nodes
    &&& after.bytes == before.bytes
    &&& before.projection_nodes <= after.projection_nodes
    &&& (before.projection_nodes + cost > before.limits.spec_max_projection_nodes() <==> (r matches Err(
        e,
    ) && budget_error(e.kind)))
    &&& r is Ok ==> after.projection_nodes == before.projection_nodes + cost
}

/// One charge is a run of one.
pub proof fn lemma_single_charge<T>(
    r: SerializationResult<T>,
    before: SpecifiedSerializationContext,
    after: SpecifiedSerializationContext,
    amount: int,
)
    requires
        before.wf(),
        amount >= 0,
        charge_only(r, before, after, amount),
    ensures
        budget_charged(r, before, after, amount),
{
}

/// A run followed, on success, by a second run is a run of both totals.
pub proof fn lemma_charges_chain<T, U, V>(
    first: SerializationResult<T>,
    second: SerializationResult<U>,
    r: SerializationResult<V>,
    c0: SpecifiedSerializationContext,
    c1: SpecifiedSerializationContext,
    c2: SpecifiedSerializationContext,
    a: int,
    b: int,
)
    requires
        c0.wf(),
        a >= 0,
        b >= 0,
        budget_charged(first, c0, c1, a),
        first is Ok ==> budget_charged(second, c1, c2, b),
        first is Err ==> c2 == c1 && r is Err && (r matches Err(e) ==> first matches Err(f) && e.kind == f.kind),
        first is Ok ==> (r is Ok <==> second is Ok) && (r matches Err(e) ==> second matches Err(f) && e.kind == f.kind),
    ensures
        budget_charged(r, c0, c2, a + b),
{
}

/// A charge keeps the context well formed and only moves its budget.
pub broadcast proof fn lemma_charge_only_budget<T>(
    r: SerializationResult<T>,
    before: SpecifiedSerializationContext,
    after: SpecifiedSerializationContext,
    amount: int,
)
    requires
        before.wf(),
        amount >= 0,
        #[trigger] charge_only(r, before, after, amount),
    ensures
        after.wf(),
        budget_only(before, after),
        r matches Err(e) ==> budget_error(e.kind),
{
}

/// Only budget accounting changed, by a nonnegative amount.
pub open spec fn budget_only(before: SpecifiedSerializationContext, after: SpecifiedSerializationContext) -> bool {
    &&& after.limits == before.limits
    &&& after.input_nodes == before.input_nodes
    &&& after.bytes == before.bytes
    &&& after.projection_nodes >= before.projection_nodes
}

/// The error kinds a budgeted arithmetic step can report.
pub open spec fn budget_error(kind: CssSpecifiedValueSerializationErrorKind) -> bool {
    kind == CssSpecifiedValueSerializationErrorKind::ProjectionNodeLimit
        || kind == CssSpecifiedValueSerializationErrorKind::CapacityOverflow
}

pub proof fn lemma_limbs_pop_zero(s: Seq<u32>)
    requires
        s.len() > 0,
        s.last() == 0,
    ensures
        limbs_value(s.drop_last()) == limbs_value(s),
{
    assert(s =~= s.drop_last().push(0));
    lemma_limbs_push(s.drop_last(), 0);
}

pub proof fn lemma_limbs_skip_next(s: Seq<u32>, i: int)
    requires
        0 <= i < s.len(),
    ensures
        limbs_value(s.skip(i)) == s[i] as nat + base() * limbs_value(s.skip(i + 1)),
{
    assert(s.skip(i).drop_first() =~= s.skip(i + 1));
    assert(s.skip(i)[0] == s[i]);
}

pub proof fn lemma_limbs_split(s: Seq<u32>, i: int)
    requires
        0 <= i <= s.len(),
    ensures
        limbs_value(s) == limbs_value(s.take(i)) + pow_base(i as nat) * limbs_value(s.skip(i)),
    decreases i,
{
    if i == 0 {
        assert(s.take(0) =~= Seq::<u32>::empty());
        assert(s.skip(0) =~= s);
        assert(pow_base(0) == 1);
        assert(limbs_value(s.take(0)) == 0);
        assert(1 * limbs_value(s) == limbs_value(s)) by (nonlinear_arith);
    } else {
        lemma_limbs_split(s, i - 1);
        lemma_limbs_take_next(s, i - 1);
        lemma_limbs_skip_next(s, i - 1);
        let p = pow_base((i - 1) as nat);
        assert(pow_base(i as nat) == base() * p);
        let t = limbs_value(s.skip(i));
        let x = s[i - 1] as int;
        assert(limbs_value(s) == limbs_value(s.take(i - 1)) + p * limbs_value(s.skip(i - 1)));
        assert(limbs_value(s.skip(i - 1)) == x + base() * t);
        assert(p * (x + base() * t) == p * x + (base() * p) * t) by (nonlinear_arith);
        assert(limbs_value(s.take(i)) == limbs_value(s.take(i - 1)) + x * p);
        assert(x * p == p * x) by (nonlinear_arith);
        assert(pow_base(i as nat) * t == (base() * p) * t);
        assert(limbs_value(s) == limbs_value(s.take(i)) + pow_base(i as nat) * t);
    }
}

pub proof fn lemma_pow_base_monotonic(a: nat, b: nat)
    requires
        a <= b,
    ensures
        pow_base(a) <= pow_base(b),
    decreases b,
{
    if a < b {
        lemma_pow_base_monotonic(a, (b - 1) as nat);
        lemma_pow_base_positive((b - 1) as nat);
    }
}

/// The three-way comparison of two integers.
pub open spec fn order_of(a: nat, b: nat) -> core::cmp::Ordering {
    if a < b {
        core::cmp::Ordering::Less
    } else if a == b {
        core::cmp::Ordering::Equal
    } else {
        core::cmp::Ordering::Greater
    }
}

/// The carry after multiplying the first `i` limbs by `factor`.
pub open spec fn mul_carry(s: Seq<u32>, factor: nat, i: nat) -> nat
    decreases i,
{
    if i == 0 {
        0
    } else {
        ((mul_carry(s, factor, (i - 1) as nat) + s[i - 1] * factor) / (base() as int)) as nat
    }
}

/// A value below `d * k` has quotient below `k`.
pub proof fn lemma_div_strictly_bounded(x: int, d: int, k: int)
    requires
        0 <= x < d * k,
        d > 0,
    ensures
        x / d < k,
{
    lemma_fundamental_div_mod(x, d);
    lemma_mod_bound(x, d);
    if x / d >= k {
        assert(d * (x / d) >= d * k) by (nonlinear_arith)
            requires
                x / d >= k,
                d > 0,
        ;
    }
}

/// The limb at `i`, or zero past the end.
pub open spec fn limb_at(s: Seq<u32>, i: int) -> nat {
    if 0 <= i < s.len() {
        s[i] as nat
    } else {
        0
    }
}

/// The value of the first `i` limbs, reading limbs past the end as zero.
pub open spec fn prefix_value(s: Seq<u32>, i: int) -> nat {
    if i <= s.len() {
        limbs_value(s.take(i))
    } else {
        limbs_value(s)
    }
}

pub proof fn lemma_prefix_value_next(s: Seq<u32>, i: int)
    requires
        0 <= i,
    ensures
        prefix_value(s, i + 1) == prefix_value(s, i) + limb_at(s, i) * pow_base(i as nat),
{
    if i < s.len() {
        lemma_limbs_take_next(s, i);
    } else if i == s.len() {
        assert(s.take(i) =~= s);
    }
}

pub proof fn lemma_prefix_value_full(s: Seq<u32>, i: int)
    requires
        i >= s.len(),
    ensures
        prefix_value(s, i) == limbs_value(s),
{
    if i == s.len() {
        assert(s.take(i) =~= s);
    }
}

pub proof fn lemma_prefix_value_le(s: Seq<u32>, i: int)
    requires
        0 <= i,
    ensures
        prefix_value(s, i) <= limbs_value(s),
{
    if i <= s.len() {
        lemma_limbs_split(s, i);
        assert(pow_base(i as nat) * limbs_value(s.skip(i)) >= 0) by (nonlinear_arith);
    }
}

pub proof fn lemma_prefix_value_zero(s: Seq<u32>)
    ensures
        prefix_value(s, 0) == 0,
{
    assert(s.take(0) =~= Seq::<u32>::empty());
}

/// A value below `base()^k` needs at most `k` limbs.
pub proof fn lemma_limb_len_monotonic(v: nat, w: nat)
    requires
        v <= w,
    ensures
        limb_len(v) <= limb_len(w),
    decreases w,
{
    if v > 0 {
        lemma_div_is_ordered(v as int, w as int, base() as int);
        lemma_div_decreases(w as int, base() as int);
        lemma_limb_len_monotonic(v / base(), w / base());
    }
}

pub proof fn lemma_limb_len_lower(v: nat, k: nat)
    requires
        v >= pow_base(k),
    ensures
        limb_len(v) >= k + 1,
    decreases k,
{
    if k == 0 {
        assert(pow_base(0) == 1);
        assert(limb_len(v) == 1 + limb_len(v / base()));
    } else {
        let p = pow_base((k - 1) as nat);
        assert(pow_base(k) == base() * p);
        lemma_fundamental_div_mod(v as int, base() as int);
        lemma_mod_bound(v as int, base() as int);
        assert(v / base() >= p) by (nonlinear_arith)
            requires
                v >= base() * p,
                v == base() * (v / base()) + v % base(),
                v % base() < base(),
                base() > 0,
        ;
        lemma_limb_len_lower(v / base(), (k - 1) as nat);
        assert(limb_len(v) == 1 + limb_len(v / base()));
    }
}

pub proof fn lemma_limb_len_bound(v: nat, k: nat)
    requires
        v < pow_base(k),
    ensures
        limb_len(v) <= k,
    decreases k,
{
    if v > 0 {
        if k == 0 {
            assert(pow_base(0) == 1);
        } else {
            assert(pow_base(k) == base() * pow_base((k - 1) as nat));
            lemma_limb_len_bound(v / base(), (k - 1) as nat);
            assert(v / base() < pow_base((k - 1) as nat)) by {
                lemma_div_strictly_bounded(v as int, base() as int, pow_base((k - 1) as nat) as int);
                lemma_mul_is_commutative(base() as int, pow_base((k - 1) as nat) as int);
            }
        }
    }
}

/// `10^n` for a small exponent.
pub fn pow10_u64(n: u32) -> (r: u64)
    requires
        n <= 19,
    ensures
        r == pow10(n as nat),
{
    let mut r: u64 = 1;
    let mut i: u32 = 0;
    while i < n
        invariant
            i <= n,
            n <= 19,
            r == pow10(i as nat),
        decreases n - i,
    {
        proof {
            lemma_pow10_monotonic(i as nat + 1, 19);
            assert(pow10(19) == 10_000_000_000_000_000_000) by {
                reveal_with_fuel(pow10, 20);
            }
        }
        r = r * 10;
        i = i + 1;
    }
    r
}

pub proof fn lemma_limbs_zeros(n: nat)
    ensures
        limbs_value(Seq::new(n, |i: int| 0u32)) == 0,
    decreases n,
{
    if n > 0 {
        let z = Seq::new(n, |i: int| 0u32);
        assert(z.drop_first() =~= Seq::new((n - 1) as nat, |i: int| 0u32));
        assert(z[0] == 0);
        lemma_limbs_zeros((n - 1) as nat);
        assert(limbs_value(z) == z[0] as nat + base() * limbs_value(z.drop_first()));
        assert(base() * 0 == 0);
    } else {
        assert(Seq::new(n, |i: int| 0u32).len() == 0);
    }
}

/// Prepending `n` zero limbs multiplies by `base()^n`.
pub proof fn lemma_limbs_shift(s: Seq<u32>, n: nat)
    ensures
        limbs_value(Seq::new(n, |i: int| 0u32) + s) == limbs_value(s) * pow_base(n),
{
    let z = Seq::new(n, |i: int| 0u32);
    let t = z + s;
    lemma_limbs_split(t, n as int);
    assert(t.take(n as int) =~= z);
    assert(t.skip(n as int) =~= s);
    lemma_limbs_zeros(n);
    lemma_mul_is_commutative(limbs_value(s) as int, pow_base(n) as int);
}

/// A prefix of maximal limbs holds one less than its place value.
pub proof fn lemma_all_max_limbs(s: Seq<u32>, i: nat)
    requires
        i <= s.len(),
        forall|j: int| 0 <= j < i ==> #[trigger] s[j] == base() - 1,
    ensures
        limbs_value(s.take(i as int)) == pow_base(i) - 1,
    decreases i,
{
    if i == 0 {
        assert(s.take(0) =~= Seq::<u32>::empty());
    } else {
        lemma_all_max_limbs(s, (i - 1) as nat);
        lemma_limbs_take_next(s, i - 1);
        assert(pow_base(i) == base() * pow_base((i - 1) as nat));
        assert(pow_base((i - 1) as nat) - 1 + (base() - 1) * pow_base((i - 1) as nat) == base()
            * pow_base((i - 1) as nat) - 1) by (nonlinear_arith);
        assert((base() - 1) * pow_base((i - 1) as nat) == s[i - 1] * pow_base((i - 1) as nat));
    }
}

/// The number written by decimal digit values, most significant first.
pub open spec fn digits_value(ds: Seq<u8>) -> nat
    decreases ds.len(),
{
    if ds.len() == 0 {
        0
    } else {
        digits_value(ds.drop_last()) * 10 + ds.last() as nat
    }
}

/// The last `n` decimal digits of `v`, most significant first.
pub open spec fn fixed_digits(v: nat, n: nat) -> Seq<u8>
    decreases n,
{
    if n == 0 {
        Seq::empty()
    } else {
        fixed_digits(v / 10, (n - 1) as nat).push((v % 10) as u8)
    }
}

/// How many decimal digits `v` has (zero has one).
pub open spec fn decimal_len_of(v: nat) -> nat
    decreases v,
{
    if v < 10 {
        1
    } else {
        1 + decimal_len_of(v / 10)
    }
}

/// The decimal digits of `v` without leading zeros (zero is a single zero digit).
pub open spec fn decimal_digits(v: nat) -> Seq<u8> {
    fixed_digits(v, decimal_len_of(v))
}

pub proof fn lemma_fixed_digits_len(v: nat, n: nat)
    ensures
        fixed_digits(v, n).len() == n,
        crate::serialization::is_digit_values(fixed_digits(v, n)),
    decreases n,
{
    if n > 0 {
        lemma_fixed_digits_len(v / 10, (n - 1) as nat);
        let d = fixed_digits(v, n);
        assert forall|i: int| 0 <= i < d.len() implies #[trigger] d[i] < 10 by {
            if i < n - 1 {
                assert(d[i] == fixed_digits(v / 10, (n - 1) as nat)[i]);
            } else {
                lemma_mod_bound(v as int, 10);
            }
        }
    }
}

/// The digit at position `j` is the corresponding decimal place of `v`.
pub proof fn lemma_fixed_digits_index(v: nat, n: nat, j: int)
    requires
        0 <= j < n,
    ensures
        fixed_digits(v, n)[j] == (v / pow10((n - 1 - j) as nat)) % 10,
    decreases n,
{
    lemma_fixed_digits_len(v / 10, (n - 1) as nat);
    if j == n - 1 {
        assert(pow10(0) == 1);
        assert(v / 1 == v);
    } else {
        lemma_fixed_digits_index(v / 10, (n - 1) as nat, j);
        lemma_pow10_positive((n - 2 - j) as nat);
        lemma_div_denominator(v as int, 10, pow10((n - 2 - j) as nat) as int);
        assert(pow10((n - 1 - j) as nat) == 10 * pow10((n - 2 - j) as nat));
    }
}

/// Splitting a number at a decimal place splits its fixed digits.
pub proof fn lemma_fixed_digits_split(a: nat, l: nat, n: nat, k: nat)
    requires
        l < pow10(k),
    ensures
        fixed_digits(a * pow10(k) + l, n + k) == fixed_digits(a, n) + fixed_digits(l, k),
    decreases k,
{
    if k == 0 {
        assert(pow10(0) == 1);
        assert(l == 0);
        assert(fixed_digits(l, 0) =~= Seq::<u8>::empty());
        assert(fixed_digits(a, n) + fixed_digits(l, k) =~= fixed_digits(a, n));
    } else {
        let x = a * pow10(k) + l;
        let p = pow10((k - 1) as nat);
        assert(pow10(k) == 10 * p);
        lemma_fundamental_div_mod(l as int, 10);
        lemma_mod_bound(l as int, 10);
        assert(x == (a * p + l / 10) * 10 + l % 10) by (nonlinear_arith)
            requires
                x == a * pow10(k) + l,
                pow10(k) == 10 * p,
                l == 10 * (l / 10) + l % 10,
        ;
        lemma_fundamental_div_mod_converse(x as int, 10, (a * p + l / 10) as int, (l % 10) as int);
        assert(l / 10 < p) by {
            lemma_div_strictly_bounded(l as int, 10, p as int);
        }
        lemma_fixed_digits_split(a, l / 10, n, (k - 1) as nat);
        assert((n + k - 1) as nat == n + (k - 1) as nat);
        assert(fixed_digits(x, n + k) =~= fixed_digits(a, n) + fixed_digits(l, k));
    }
}

/// Appending `k` decimal places to a positive number adds `k` digits.
pub proof fn lemma_decimal_len_split(a: nat, l: nat, k: nat)
    requires
        a >= 1,
        l < pow10(k),
    ensures
        decimal_len_of(a * pow10(k) + l) == decimal_len_of(a) + k,
    decreases k,
{
    if k == 0 {
        assert(pow10(0) == 1);
    } else {
        let x = a * pow10(k) + l;
        let p = pow10((k - 1) as nat);
        assert(pow10(k) == 10 * p);
        lemma_pow10_positive((k - 1) as nat);
        lemma_fundamental_div_mod(l as int, 10);
        lemma_mod_bound(l as int, 10);
        assert(x == (a * p + l / 10) * 10 + l % 10) by (nonlinear_arith)
            requires
                x == a * pow10(k) + l,
                pow10(k) == 10 * p,
                l == 10 * (l / 10) + l % 10,
        ;
        lemma_fundamental_div_mod_converse(x as int, 10, (a * p + l / 10) as int, (l % 10) as int);
        assert(l / 10 < p) by {
            lemma_div_strictly_bounded(l as int, 10, p as int);
        }
        assert(x >= 10) by (nonlinear_arith)
            requires
                x == a * pow10(k) + l,
                pow10(k) == 10 * p,
                p >= 1,
                a >= 1,
        ;
        lemma_decimal_len_split(a, l / 10, (k - 1) as nat);
    }
}

/// The decimal digits of `v` are exactly its `decimal_len_of(v)` low digits.
pub proof fn lemma_decimal_digits_limb_split(a: nat, l: nat, k: nat)
    requires
        a >= 1,
        l < pow10(k),
    ensures
        decimal_digits(a * pow10(k) + l) == decimal_digits(a) + fixed_digits(l, k),
{
    lemma_decimal_len_split(a, l, k);
    lemma_fixed_digits_split(a, l, decimal_len_of(a), k);
}

/// The decimal length of one limb.
pub fn decimal_len_of_limb(limb: u32) -> (r: usize)
    requires
        limb < base(),
    ensures
        r == decimal_len_of(limb as nat),
        1 <= r <= 9,
        (limb as nat) < pow10(r as nat),
{
    let mut q = limb;
    let mut count: usize = 1;
    proof {
        assert(pow10(9) == base()) by {
            reveal_with_fuel(pow10, 10);
        }
        assert(pow10(10) == 10 * pow10(9));
        assert(pow10(1) == 10) by {
            reveal_with_fuel(pow10, 2);
        }
        assert(pow10(0) == 1);
        assert((limb as nat) < 1 * (limb as nat + 1));
    }
    while q >= 10
        invariant
            1 <= count <= 9,
            q <= limb,
            q < pow10((10 - count) as nat),
            (limb as nat) < pow10((count - 1) as nat) * (q as nat + 1),
            decimal_len_of(limb as nat) == count - 1 + decimal_len_of(q as nat),
        decreases q,
    {
        proof {
            if count >= 9 {
                assert(pow10(1) == 10) by {
                    reveal_with_fuel(pow10, 2);
                }
            }
            assert(pow10((10 - count) as nat) == 10 * pow10((9 - count) as nat));
            lemma_div_strictly_bounded(q as int, 10, pow10((9 - count) as nat) as int);
            lemma_fundamental_div_mod(q as int, 10);
            lemma_mod_bound(q as int, 10);
            assert(pow10(count as nat) == 10 * pow10((count - 1) as nat));
            assert(pow10((count - 1) as nat) * (q as nat + 1) <= pow10(count as nat) * (q as nat
                / 10 + 1)) by (nonlinear_arith)
                requires
                    q == 10 * (q / 10) + q % 10,
                    q % 10 < 10,
                    pow10(count as nat) == 10 * pow10((count - 1) as nat),
            ;
        }
        q = q / 10;
        count = count + 1;
    }
    proof {
        if count == 10 {
            assert(pow10(0) == 1);
        }
        assert(pow10((count - 1) as nat) * (q as nat + 1) <= pow10((count - 1) as nat) * 10)
            by (nonlinear_arith)
            requires
                q < 10,
        ;
        assert(pow10(count as nat) == 10 * pow10((count - 1) as nat));
    }
    count
}

/// Appends the `k` low decimal digits of a limb, most significant first.
pub fn push_fixed_digits(out: &mut Vec<u8>, limb: u32, k: usize)
    requires
        1 <= k <= 9,
        (limb as nat) <= u32::MAX,
    ensures
        final(out)@ == old(out)@ + fixed_digits(limb as nat, k as nat),
{
    let ghost start = old(out)@;
    let mut divisor: u32 = 1;
    let mut e: usize = 1;
    while e < k
        invariant
            1 <= e <= k,
            k <= 9,
            divisor == pow10((e - 1) as nat),
        decreases k - e,
    {
        proof {
            lemma_pow10_monotonic(e as nat, 8);
            assert(pow10(8) == 100_000_000) by {
                reveal_with_fuel(pow10, 9);
            }
        }
        divisor = divisor * 10;
        e = e + 1;
    }
    let mut j: usize = 0;
    proof {
        lemma_fixed_digits_len(limb as nat, k as nat);
    }
    while j < k
        invariant
            j <= k,
            k <= 9,
            divisor == pow10((k - 1 - j) as nat) || j == k,
            j < k ==> divisor == pow10((k - 1 - j) as nat),
            out@ == start + fixed_digits(limb as nat, k as nat).take(j as int),
            fixed_digits(limb as nat, k as nat).len() == k,
        decreases k - j,
    {
        proof {
            lemma_pow10_positive((k - 1 - j) as nat);
            lemma_fixed_digits_index(limb as nat, k as nat, j as int);
            lemma_mod_bound((limb / divisor) as int, 10);
        }
        let digit = ((limb / divisor) % 10) as u8;
        proof {
            assert(fixed_digits(limb as nat, k as nat).take(j + 1) =~= fixed_digits(
                limb as nat,
                k as nat,
            ).take(j as int).push(digit));
        }
        out.push(digit);
        if divisor >= 10 {
            proof {
                assert(pow10((k - 1 - j) as nat) == 10 * pow10((k - 2 - j) as nat));
            }
            divisor = divisor / 10;
        } else {
            proof {
                if j + 1 < k {
                    lemma_pow10_positive((k - 2 - j) as nat);
                    assert(pow10((k - 1 - j) as nat) == 10 * pow10((k - 2 - j) as nat));
                }
            }
        }
        j = j + 1;
    }
    proof {
        assert(fixed_digits(limb as nat, k as nat).take(k as int) =~= fixed_digits(
            limb as nat,
            k as nat,
        ));
    }
}

/// A value below `10^k` has at most `k` digits.
pub proof fn lemma_decimal_len_below(v: nat, k: nat)
    requires
        k >= 1,
        v < pow10(k),
    ensures
        decimal_len_of(v) <= k,
    decreases k,
{
    if v >= 10 {
        if k == 1 {
            assert(pow10(1) == 10 * pow10(0));
        } else {
            assert(pow10(k) == 10 * pow10((k - 1) as nat));
            lemma_div_strictly_bounded(v as int, 10, pow10((k - 1) as nat) as int);
            lemma_decimal_len_below(v / 10, (k - 1) as nat);
        }
    }
}

/// The decimal length of a normal suffix counted by limbs.
pub proof fn lemma_decimal_len_suffix(s: Seq<u32>, i: int)
    requires
        limbs_normal(s),
        0 <= i < s.len(),
    ensures
        limbs_value(s.skip(i)) >= 1,
        decimal_len_of(limbs_value(s.skip(i))) == 9 * (s.len() - 1 - i) + decimal_len_of(
            s.last() as nat,
        ),
    decreases s.len() - i,
{
    assert(pow10(9) == base()) by {
        reveal_with_fuel(pow10, 10);
    }
    lemma_limbs_skip_next(s, i);
    if i == s.len() - 1 {
        assert(s.skip(i + 1) =~= Seq::<u32>::empty());
    } else {
        lemma_decimal_len_suffix(s, i + 1);
        let a = limbs_value(s.skip(i + 1));
        assert(s[i] < base());
        assert(limbs_value(s.skip(i)) == a * pow10(9) + s[i]) by {
            lemma_mul_is_commutative(base() as int, a as int);
        }
        lemma_decimal_len_split(a, s[i] as nat, 9);
        assert(limbs_value(s.skip(i)) >= 1) by (nonlinear_arith)
            requires
                limbs_value(s.skip(i)) == a * pow10(9) + s[i],
                a >= 1,
                pow10(9) == base(),
        ;
    }
}

/// The low limb fixes the value's last decimal digit.
pub proof fn lemma_limbs_mod10(s: Seq<u32>)
    requires
        s.len() > 0,
    ensures
        limbs_value(s) % 10 == s[0] % 10,
{
    let rest = limbs_value(s.drop_first());
    assert(limbs_value(s) == s[0] + base() * rest);
    assert(base() * rest == 10 * (100_000_000 * rest)) by (nonlinear_arith);
    lemma_mod_multiples_vanish((100_000_000 * rest) as int, s[0] as int, 10);
    lemma_mul_is_commutative(10, (100_000_000 * rest) as int);
}

/// Reassembles a split at a decimal place that falls inside a limb.
pub proof fn lemma_div_rem_pow10_combine(
    sv: Seq<u32>,
    whole: nat,
    rd: nat,
    q: nat,
    ur: nat,
    upper_value: nat,
)
    requires
        whole <= sv.len(),
        limbs_bounded(sv),
        upper_value == limbs_value(sv.skip(whole as int)),
        upper_value == q * pow10(rd) + ur,
        ur < pow10(rd),
    ensures
        limbs_value(sv) == q * pow10(9 * whole + rd) + (limbs_value(sv.take(whole as int)) + ur
            * pow_base(whole)),
        limbs_value(sv.take(whole as int)) + ur * pow_base(whole) < pow10(9 * whole + rd),
{
    lemma_limbs_split(sv, whole as int);
    lemma_limbs_bound(sv.take(whole as int));
    lemma_pow_base_is_pow10(whole);
    lemma_pow10_add(9 * whole, rd);
    let low = limbs_value(sv.take(whole as int));
    let pw = pow_base(whole);
    let pr = pow10(rd);
    assert(pw * (q * pr + ur) == q * (pw * pr) + ur * pw) by (nonlinear_arith);
    assert(low + ur * pw < pw * pr) by (nonlinear_arith)
        requires
            low < pw,
            ur < pr,
    ;
}

/// The number of limbs for a count of decimal digits, rounding up.
pub fn limb_count_for_digits(digits: usize) -> (r: Option<usize>)
    ensures
        digits + 8 <= usize::MAX ==> r == Some(((digits + 8) / 9) as usize),
        digits + 8 > usize::MAX ==> r is None,
{
    match digits.checked_add(LIMB_DIGITS - 1) {
        Some(n) => Some(n / LIMB_DIGITS),
        None => None,
    }
}

/// An unbounded nonnegative integer. Zero has no limbs.
#[derive(Debug)]
pub struct BigCoefficient {
    pub limbs: Vec<u32>,
}

impl BigCoefficient {
    pub open spec fn value(&self) -> nat {
        limbs_value(self.limbs@)
    }

    pub open spec fn wf(&self) -> bool {
        limbs_normal(self.limbs@)
    }

    pub fn zero() -> (r: Self)
        ensures
            r.wf(),
            r.value() == 0,
    {
        Self { limbs: Vec::new() }
    }

    pub fn is_zero(&self) -> (r: bool)
        requires
            self.wf(),
        ensures
            r == (self.value() == 0),
    {
        proof {
            lemma_limbs_normal_zero(self.limbs@);
        }
        self.limbs.len() == 0
    }

    /// Drops zero high limbs.
    pub fn normalize(&mut self)
        requires
            limbs_bounded(old(self).limbs@),
        ensures
            final(self).wf(),
            final(self).value() == old(self).value(),
    {
        while self.limbs.len() > 0 && self.limbs[self.limbs.len() - 1] == 0
            invariant
                limbs_bounded(self.limbs@),
                self.value() == old(self).value(),
            decreases self.limbs.len(),
        {
            proof {
                lemma_limbs_pop_zero(self.limbs@);
            }
            self.limbs.pop();
        }
    }

    /// A small value; the charge is one limb below the limb radix and two limbs otherwise.
    pub fn from_u64(value: u64, context: &mut SpecifiedSerializationContext) -> (r:
        SerializationResult<Self>)
        requires
            old(context).wf(),
        ensures
            charge_only(
                r,
                *old(context),
                *final(context),
                if value == 0 {
                    0
                } else if value < LIMB_BASE {
                    1
                } else {
                    2
                },
            ),
            r matches Ok(b) ==> b.wf() && b.value() == value,
    {
        if value == 0 {
            return Ok(Self::zero());
        }
        let limb_count: usize = if value < LIMB_BASE {
            1
        } else {
            2
        };
        context.charge_projection(limb_count)?;
        let mut limbs: Vec<u32> = Vec::new();
        let mut rest = value;
        proof {
            assert(limbs_value(limbs@) == 0);
            assert(pow_base(0) == 1);
        }
        while rest != 0
            invariant
                limbs_bounded(limbs@),
                limbs@.len() == 0 || rest != 0 || limbs@.last() != 0,
                value as nat == limbs_value(limbs@) + rest * pow_base(limbs@.len()),
            decreases rest,
        {
            let limb = (rest % LIMB_BASE) as u32;
            proof {
                lemma_limbs_push(limbs@, limb);
                lemma_fundamental_div_mod(rest as int, base() as int);
                let p = pow_base(limbs@.len());
                assert(pow_base(limbs@.len() + 1) == base() * p);
                lemma_mul_is_distributive_add(
                    p as int,
                    (base() * (rest / LIMB_BASE)) as int,
                    limb as int,
                );
                lemma_mul_is_associative(p as int, base() as int, (rest / LIMB_BASE) as int);
                lemma_mul_is_commutative(p as int, base() as int);
                lemma_mul_is_commutative(p as int, limb as int);
                lemma_mul_is_commutative(p as int, rest as int);
                lemma_mul_is_commutative((base() * p) as int, (rest / LIMB_BASE) as int);
            }
            limbs.push(limb);
            rest = rest / LIMB_BASE;
        }
        proof {
            assert(limbs@.len() > 0);
        }
        Ok(Self { limbs })
    }

    pub fn clone_with_budget(&self, context: &mut SpecifiedSerializationContext) -> (r:
        SerializationResult<Self>)
        requires
            self.wf(),
            old(context).wf(),
        ensures
            charge_only(r, *old(context), *final(context), self.limbs.len() as int),
            r matches Ok(b) ==> b.wf() && b.value() == self.value() && b.limbs@ == self.limbs@,
    {
        context.charge_projection(self.limbs.len())?;
        let mut limbs: Vec<u32> = Vec::new();
        let mut i: usize = 0;
        while i < self.limbs.len()
            invariant
                i <= self.limbs.len(),
                limbs@ =~= self.limbs@.take(i as int),
            decreases self.limbs.len() - i,
        {
            limbs.push(self.limbs[i]);
            i = i + 1;
        }
        proof {
            assert(self.limbs@.take(i as int) =~= self.limbs@);
        }
        Ok(Self { limbs })
    }

    /// Three-way comparison of the values.
    pub fn compare(&self, other: &Self) -> (r: core::cmp::Ordering)
        requires
            self.wf(),
            other.wf(),
        ensures
            r == order_of(self.value(), other.value()),
    {
        let sign = self.compare_sign(other);
        if sign < 0 {
            core::cmp::Ordering::Less
        } else if sign == 0 {
            core::cmp::Ordering::Equal
        } else {
            core::cmp::Ordering::Greater
        }
    }

    /// The sign of the difference of the values.
    pub fn compare_sign(&self, other: &Self) -> (r: i8)
        requires
            self.wf(),
            other.wf(),
        ensures
            r == -1 <==> self.value() < other.value(),
            r == 0 <==> self.value() == other.value(),
            r == 1 <==> self.value() > other.value(),
    {
        let n = self.limbs.len();
        let m = other.limbs.len();
        if n < m {
            proof {
                lemma_limbs_bound(self.limbs@);
                lemma_limbs_normal_lower(other.limbs@);
                lemma_pow_base_monotonic(n as nat, (m - 1) as nat);
            }
            return -1;
        }
        if n > m {
            proof {
                lemma_limbs_bound(other.limbs@);
                lemma_limbs_normal_lower(self.limbs@);
                lemma_pow_base_monotonic(m as nat, (n - 1) as nat);
            }
            return 1;
        }
        let mut i: usize = n;
        proof {
            assert(self.limbs@.skip(n as int) =~= other.limbs@.skip(n as int));
        }
        while i > 0
            invariant
                i <= n,
                n == self.limbs@.len(),
                n == other.limbs@.len(),
                self.limbs@.skip(i as int) =~= other.limbs@.skip(i as int),
                self.wf(),
                other.wf(),
            decreases i,
        {
            i = i - 1;
            let a = self.limbs[i];
            let b = other.limbs[i];
            if a != b {
                proof {
                    let sa = self.limbs@;
                    let sb = other.limbs@;
                    lemma_limbs_split(sa, i as int);
                    lemma_limbs_split(sb, i as int);
                    lemma_limbs_skip_next(sa, i as int);
                    lemma_limbs_skip_next(sb, i as int);
                    assert(sa.skip(i + 1) =~= sb.skip(i + 1)) by {
                        assert(sa.skip(i + 1) =~= sa.skip(i as int).skip(1));
                        assert(sb.skip(i + 1) =~= sb.skip(i as int).skip(1));
                    }
                    lemma_limbs_bound(sa.take(i as int));
                    lemma_limbs_bound(sb.take(i as int));
                    let p = pow_base(i as nat);
                    let ta = limbs_value(sa.skip(i as int));
                    let tb = limbs_value(sb.skip(i as int));
                    if a < b {
                        assert(ta + 1 <= tb);
                        lemma_mul_inequality(ta + 1 as int, tb as int, p as int);
                        lemma_mul_is_distributive_add(p as int, ta as int, 1);
                        lemma_mul_is_commutative(p as int, ta + 1 as int);
                        lemma_mul_is_commutative(p as int, tb as int);
                    } else {
                        assert(tb + 1 <= ta);
                        lemma_mul_inequality(tb + 1 as int, ta as int, p as int);
                        lemma_mul_is_distributive_add(p as int, tb as int, 1);
                        lemma_mul_is_commutative(p as int, tb + 1 as int);
                        lemma_mul_is_commutative(p as int, ta as int);
                    }
                }
                if a < b {
                    return -1;
                } else {
                    return 1;
                }
            }
            proof {
                let sa = self.limbs@;
                let sb = other.limbs@;
                assert(sa.skip(i as int) =~= seq![sa[i as int]] + sa.skip(i + 1));
                assert(sb.skip(i as int) =~= seq![sb[i as int]] + sb.skip(i + 1));
            }
        }
        proof {
            assert(self.limbs@ =~= self.limbs@.skip(0));
            assert(other.limbs@ =~= other.limbs@.skip(0));
        }
        0
    }

    /// Multiplies by a small factor. The charge is the result's limb count.
    pub fn mul_small(&self, factor: u64, context: &mut SpecifiedSerializationContext) -> (r:
        SerializationResult<Self>)
        requires
            self.wf(),
            old(context).wf(),
        ensures
            (self.value() == 0 || factor == 0) ==> r is Ok && *final(context) == *old(context),
            (self.value() != 0 && factor != 0) ==> charge_only(
                r,
                *old(context),
                *final(context),
                limb_len(self.value() * (factor as nat)) as int,
            ),
            r matches Ok(b) ==> b.wf() && b.value() == self.value() * factor,
    {
        if self.is_zero() || factor == 0 {
            proof {
                assert(self.value() * factor == 0) by (nonlinear_arith)
                    requires
                        self.value() == 0 || factor == 0,
                ;
            }
            return Ok(Self::zero());
        }
        let ghost sv = self.limbs@;
        let ghost f = factor as nat;
        let n = self.limbs.len();
        let big_factor = factor as u128;
        let b = LIMB_BASE as u128;
        let mut limbs: Vec<u32> = Vec::new();
        let mut carry: u128 = 0;
        let mut i: usize = 0;
        proof {
            assert(limbs_value(limbs@) == 0);
            assert(pow_base(0) == 1);
            lemma_prefix_value_zero(sv);
        }
        while i < n
            invariant
                i <= n,
                n == sv.len(),
                sv == self.limbs@,
                limbs_normal(sv),
                f == factor,
                f > 0,
                big_factor == factor,
                b == base(),
                limbs@.len() == i,
                limbs_bounded(limbs@),
                carry < f,
                limbs_value(limbs@) + carry * pow_base(i as nat) == prefix_value(sv, i as int)
                    * f,
                i == n && n > 0 ==> (limbs@.last() != 0 || carry != 0),
            decreases n - i,
        {
            let limb = self.limbs[i];
            proof {
                assert(limb < base());
                assert((limb as nat) * f + carry < 0x1_0000_0000_0000_0000_0000_0000_0000_0000)
                    by (nonlinear_arith)
                    requires
                        limb < base(),
                        f < 0x1_0000_0000_0000_0000,
                        carry < f,
                ;
            }
            let product: u128 = (limb as u128) * big_factor + carry;
            let low = (product % b) as u32;
            let high = product / b;
            proof {
                let p = pow_base(i as nat);
                let l = limb as nat;
                assert(l < base());
                assert(product == l * f + carry);
                assert(l * f + carry < base() * f) by (nonlinear_arith)
                    requires
                        l < base(),
                        carry < f,
                ;
                lemma_fundamental_div_mod(product as int, base() as int);
                assert(high < f) by {
                    lemma_div_strictly_bounded(product as int, base() as int, f as int);
                    lemma_mul_is_commutative(base() as int, f as int);
                }
                lemma_limbs_push(limbs@, low);
                lemma_prefix_value_next(sv, i as int);
                assert(limb_at(sv, i as int) == l);
                assert(pow_base(i as nat + 1) == base() * p);
                assert(low as nat * p + high * (base() * p) == product * p) by (nonlinear_arith)
                    requires
                        product == base() * high + low,
                ;
                assert(product * p == l * f * p + carry * p) by (nonlinear_arith)
                    requires
                        product == l * f + carry,
                ;
                assert((prefix_value(sv, i as int) + l * p) * f == prefix_value(sv, i as int) * f
                    + l * f * p) by (nonlinear_arith);
                if i + 1 == n {
                    assert(sv.last() == limb);
                    assert(l > 0);
                    if low == 0 {
                        assert(product >= 1) by (nonlinear_arith)
                            requires
                                l >= 1,
                                f >= 1,
                                product == l * f + carry,
                        ;
                        assert(high != 0);
                    }
                }
            }
            limbs.push(low);
            carry = high;
            i = i + 1;
        }
        proof {
            lemma_prefix_value_full(sv, n as int);
        }
        while carry != 0
            invariant
                limbs_bounded(limbs@),
                limbs@.len() > 0,
                limbs@.last() != 0 || carry != 0,
                b == base(),
                limbs_value(limbs@) + carry * pow_base(limbs@.len()) == limbs_value(sv) * f,
            decreases carry,
        {
            let low = (carry % b) as u32;
            let high = carry / b;
            proof {
                let p = pow_base(limbs@.len());
                lemma_fundamental_div_mod(carry as int, base() as int);
                lemma_limbs_push(limbs@, low);
                assert(pow_base(limbs@.len() + 1) == base() * p);
                assert(low as nat * p + high * (base() * p) == carry * p) by (nonlinear_arith)
                    requires
                        carry == base() * high + low,
                ;
                if high == 0 {
                    assert(low == carry);
                }
            }
            limbs.push(low);
            carry = high;
        }
        proof {
            assert(carry * pow_base(limbs@.len()) == 0);
            lemma_limbs_normal_len(limbs@);
        }
        let result = Self { limbs };
        context.charge_projection(result.limbs.len())?;
        Ok(result)
    }

    /// Quotient and remainder by a nonzero small divisor. The charge is the dividend's limb
    /// count when it is nonzero.
    pub fn div_rem_small(&self, denominator: u64, context: &mut SpecifiedSerializationContext) -> (r:
        SerializationResult<(Self, u64)>)
        requires
            self.wf(),
            denominator > 0,
            old(context).wf(),
        ensures
            self.value() == 0 ==> r is Ok && *final(context) == *old(context),
            self.value() != 0 ==> charge_only(
                r,
                *old(context),
                *final(context),
                self.limbs.len() as int,
            ),
            r matches Ok((q, rem)) ==> q.wf() && rem < denominator && self.value() == q.value()
                * denominator + rem,
    {
        if self.is_zero() {
            return Ok((Self::zero(), 0));
        }
        context.charge_projection(self.limbs.len())?;
        let n = self.limbs.len();
        let ghost sv = self.limbs@;
        let ghost d = denominator as nat;
        let b = LIMB_BASE as u128;
        let big_d = denominator as u128;
        let mut quotient: Vec<u32> = Vec::new();
        let mut k: usize = 0;
        while k < n
            invariant
                k <= n,
                quotient@.len() == k,
                forall|j: int| 0 <= j < k ==> #[trigger] quotient@[j] == 0,
            decreases n - k,
        {
            quotient.push(0);
            k = k + 1;
        }
        let mut remainder: u128 = 0;
        let mut i: usize = n;
        proof {
            assert(sv.skip(n as int) =~= Seq::<u32>::empty());
            assert(quotient@.skip(n as int) =~= Seq::<u32>::empty());
            assert(limbs_value(Seq::<u32>::empty()) == 0);
        }
        while i > 0
            invariant
                i <= n,
                n == sv.len(),
                sv == self.limbs@,
                limbs_normal(sv),
                quotient@.len() == n,
                limbs_bounded(quotient@),
                d == denominator,
                d > 0,
                big_d == denominator,
                b == base(),
                remainder < d,
                limbs_value(sv.skip(i as int)) == limbs_value(quotient@.skip(i as int)) * d
                    + remainder,
            decreases i,
        {
            i = i - 1;
            let limb = self.limbs[i];
            proof {
                assert(remainder * base() + limb < 0x1_0000_0000_0000_0000_0000_0000_0000_0000)
                    by (nonlinear_arith)
                    requires
                        remainder < d,
                        d < 0x1_0000_0000_0000_0000,
                        limb < base(),
                ;
                assert(remainder * base() + limb < d * base()) by (nonlinear_arith)
                    requires
                        remainder < d,
                        limb < base(),
                ;
                lemma_div_strictly_bounded((remainder * base() + limb) as int, d as int, base() as int);
            }
            let current: u128 = remainder * b + (limb as u128);
            let digit = (current / big_d) as u32;
            let next = current % big_d;
            proof {
                let l = limb as nat;
                assert(l < base());
                assert(remainder * base() + l < d * base()) by (nonlinear_arith)
                    requires
                        remainder < d,
                        l < base(),
                ;
                lemma_fundamental_div_mod(current as int, d as int);
                lemma_div_strictly_bounded(current as int, d as int, base() as int);
                lemma_mod_bound(current as int, d as int);
                lemma_limbs_skip_next(sv, i as int);
                let q2 = quotient@.update(i as int, digit);
                assert(q2.skip(i + 1) =~= quotient@.skip(i + 1));
                lemma_limbs_skip_next(q2, i as int);
                let t = limbs_value(quotient@.skip(i + 1));
                assert(base() * (t * d + remainder) + l == (digit + base() * t) * d + next)
                    by (nonlinear_arith)
                    requires
                        current == remainder * base() + l,
                        current == d * digit + next,
                ;
            }
            quotient.set(i, digit);
            remainder = next;
        }
        proof {
            assert(sv.skip(0) =~= sv);
            assert(quotient@.skip(0) =~= quotient@);
        }
        let mut result = Self { limbs: quotient };
        result.normalize();
        Ok((result, remainder as u64))
    }

    /// The sum. The charge is one more than the longer operand's limb count.
    pub fn add(&self, other: &Self, context: &mut SpecifiedSerializationContext) -> (r:
        SerializationResult<Self>)
        requires
            self.wf(),
            other.wf(),
            old(context).wf(),
        ensures
            charge_only(
                r,
                *old(context),
                *final(context),
                (if self.limbs.len() >= other.limbs.len() {
                    self.limbs.len()
                } else {
                    other.limbs.len()
                }) + 1,
            ),
            r matches Ok(b) ==> b.wf() && b.value() == self.value() + other.value(),
    {
        let longer = if self.limbs.len() >= other.limbs.len() {
            self.limbs.len()
        } else {
            other.limbs.len()
        };
        let capacity = match longer.checked_add(1) {
            Some(c) => c,
            None => {
                return Err(CssSpecifiedValueSerializationError::new(
                    CssSpecifiedValueSerializationErrorKind::CapacityOverflow,
                ));
            },
        };
        context.charge_projection(capacity)?;
        let ghost a = self.limbs@;
        let ghost c = other.limbs@;
        let mut limbs: Vec<u32> = Vec::new();
        let mut carry: u64 = 0;
        let mut i: usize = 0;
        proof {
            lemma_prefix_value_zero(a);
            lemma_prefix_value_zero(c);
            assert(limbs_value(limbs@) == 0);
            assert(pow_base(0) == 1);
        }
        while i < longer
            invariant
                i <= longer,
                longer >= a.len(),
                longer >= c.len(),
                a == self.limbs@,
                c == other.limbs@,
                limbs_bounded(a),
                limbs_bounded(c),
                limbs@.len() == i,
                limbs_bounded(limbs@),
                carry <= 1,
                limbs_value(limbs@) + carry * pow_base(i as nat) == prefix_value(a, i as int)
                    + prefix_value(c, i as int),
            decreases longer - i,
        {
            let x: u64 = if i < self.limbs.len() {
                self.limbs[i] as u64
            } else {
                0
            };
            let y: u64 = if i < other.limbs.len() {
                other.limbs[i] as u64
            } else {
                0
            };
            let sum = x + y + carry;
            let low = (sum % LIMB_BASE) as u32;
            let high = sum / LIMB_BASE;
            proof {
                let p = pow_base(i as nat);
                assert(x == limb_at(a, i as int));
                assert(y == limb_at(c, i as int));
                lemma_prefix_value_next(a, i as int);
                lemma_prefix_value_next(c, i as int);
                lemma_fundamental_div_mod(sum as int, base() as int);
                assert(high <= 1);
                lemma_limbs_push(limbs@, low);
                assert(pow_base(i as nat + 1) == base() * p);
                assert(low as nat * p + high * (base() * p) == sum * p) by (nonlinear_arith)
                    requires
                        sum == base() * high + low,
                ;
                assert(sum * p == x * p + y * p + carry * p) by (nonlinear_arith)
                    requires
                        sum == x + y + carry,
                ;
            }
            limbs.push(low);
            carry = high;
            i = i + 1;
        }
        proof {
            lemma_prefix_value_full(a, longer as int);
            lemma_prefix_value_full(c, longer as int);
            lemma_limbs_push(limbs@, carry as u32);
        }
        limbs.push(carry as u32);
        let mut result = Self { limbs };
        result.normalize();
        Ok(result)
    }

    /// The difference of a larger or equal value and a smaller one. The charge is the
    /// minuend's limb count.
    pub fn subtract(&self, other: &Self, context: &mut SpecifiedSerializationContext) -> (r:
        SerializationResult<Self>)
        requires
            self.wf(),
            other.wf(),
            self.value() >= other.value(),
            old(context).wf(),
        ensures
            charge_only(r, *old(context), *final(context), self.limbs.len() as int),
            r matches Ok(b) ==> b.wf() && b.value() == self.value() - other.value(),
    {
        context.charge_projection(self.limbs.len())?;
        let ghost a = self.limbs@;
        let ghost c = other.limbs@;
        proof {
            if c.len() > a.len() {
                lemma_limbs_bound(a);
                lemma_limbs_normal_lower(c);
                lemma_pow_base_monotonic(a.len() as nat, (c.len() - 1) as nat);
            }
        }
        let n = self.limbs.len();
        let mut limbs: Vec<u32> = Vec::new();
        let mut borrow: i64 = 0;
        let mut i: usize = 0;
        proof {
            lemma_prefix_value_zero(a);
            lemma_prefix_value_zero(c);
            assert(limbs_value(limbs@) == 0);
            assert(pow_base(0) == 1);
        }
        while i < n
            invariant
                i <= n,
                n == a.len(),
                n >= c.len(),
                a == self.limbs@,
                c == other.limbs@,
                limbs_bounded(a),
                limbs_bounded(c),
                limbs@.len() == i,
                limbs_bounded(limbs@),
                0 <= borrow <= 1,
                limbs_value(limbs@) - borrow * pow_base(i as nat) == prefix_value(a, i as int)
                    - prefix_value(c, i as int),
            decreases n - i,
        {
            let x = self.limbs[i] as i64;
            let y: i64 = if i < other.limbs.len() {
                other.limbs[i] as i64
            } else {
                0
            };
            let mut value = x - y - borrow;
            let next_borrow: i64;
            if value < 0 {
                value = value + (LIMB_BASE as i64);
                next_borrow = 1;
            } else {
                next_borrow = 0;
            }
            proof {
                let p = pow_base(i as nat);
                assert(x == limb_at(a, i as int));
                assert(y == limb_at(c, i as int));
                lemma_prefix_value_next(a, i as int);
                lemma_prefix_value_next(c, i as int);
                lemma_limbs_push(limbs@, value as u32);
                assert(pow_base(i as nat + 1) == base() * p);
                assert(value - next_borrow * base() == x - y - borrow);
                assert(value * p - next_borrow * (base() * p) == x * p - y * p - borrow * p)
                    by (nonlinear_arith)
                    requires
                        value - next_borrow * base() == x - y - borrow,
                ;
            }
            limbs.push(value as u32);
            borrow = next_borrow;
            i = i + 1;
        }
        proof {
            lemma_prefix_value_full(a, n as int);
            lemma_prefix_value_full(c, n as int);
            lemma_limbs_bound(limbs@);
            if borrow == 1 {
                assert(limbs_value(limbs@) - pow_base(n as nat) < 0);
            }
        }
        let mut result = Self { limbs };
        result.normalize();
        Ok(result)
    }

    /// The product. The charge is the sum of both limb counts when neither factor is zero.
    pub fn multiply(&self, other: &Self, context: &mut SpecifiedSerializationContext) -> (r:
        SerializationResult<Self>)
        requires
            self.wf(),
            other.wf(),
            old(context).wf(),
        ensures
            (self.value() == 0 || other.value() == 0) ==> r is Ok && *final(context) == *old(
                context,
            ),
            (self.value() != 0 && other.value() != 0) ==> charge_only(
                r,
                *old(context),
                *final(context),
                self.limbs.len() + other.limbs.len(),
            ),
            r matches Ok(b) ==> b.wf() && b.value() == self.value() * other.value(),
    {
        if self.is_zero() || other.is_zero() {
            proof {
                assert(self.value() * other.value() == 0) by (nonlinear_arith)
                    requires
                        self.value() == 0 || other.value() == 0,
                ;
            }
            return Ok(Self::zero());
        }
        let n = self.limbs.len();
        let m = other.limbs.len();
        let capacity = match n.checked_add(m) {
            Some(c) => c,
            None => {
                return Err(CssSpecifiedValueSerializationError::new(
                    CssSpecifiedValueSerializationErrorKind::CapacityOverflow,
                ));
            },
        };
        context.charge_projection(capacity)?;
        let ghost a = self.limbs@;
        let ghost c = other.limbs@;
        let ghost vc = limbs_value(c);
        let b = LIMB_BASE as u128;
        let mut limbs: Vec<u32> = Vec::new();
        let mut k: usize = 0;
        while k < capacity
            invariant
                k <= capacity,
                limbs@.len() == k,
                forall|j: int| 0 <= j < k ==> #[trigger] limbs@[j] == 0,
            decreases capacity - k,
        {
            limbs.push(0);
            k = k + 1;
        }
        proof {
            assert(limbs@ =~= Seq::new(capacity as nat, |i: int| 0u32));
            lemma_limbs_zeros(capacity as nat);
            lemma_prefix_value_zero(a);
            lemma_limbs_bound(a);
            lemma_limbs_bound(c);
            lemma_pow_base_add(n as nat, m as nat);
        }
        let mut left_index: usize = 0;
        while left_index < n
            invariant
                left_index <= n,
                n == a.len(),
                m == c.len(),
                capacity == n + m,
                a == self.limbs@,
                c == other.limbs@,
                vc == limbs_value(c),
                limbs_normal(a),
                limbs_normal(c),
                b == base(),
                limbs@.len() == capacity,
                limbs_bounded(limbs@),
                limbs_value(limbs@) == prefix_value(a, left_index as int) * vc,
                limbs_value(a) < pow_base(n as nat),
                vc < pow_base(m as nat),
                pow_base((n + m) as nat) == pow_base(n as nat) * pow_base(m as nat),
            decreases n - left_index,
        {
            let left = self.limbs[left_index] as u128;
            let ghost before = limbs@;
            let ghost pl = pow_base(left_index as nat);
            let mut carry: u128 = 0;
            let mut right_index: usize = 0;
            proof {
                lemma_prefix_value_zero(c);
                assert(left < base());
            }
            while right_index < m
                invariant
                    right_index <= m,
                    left_index < n,
                    n == a.len(),
                    m == c.len(),
                    capacity == n + m,
                    a == self.limbs@,
                    c == other.limbs@,
                    limbs_normal(c),
                    b == base(),
                    left < base(),
                    left == a[left_index as int],
                    pl == pow_base(left_index as nat),
                    limbs@.len() == capacity,
                    limbs_bounded(limbs@),
                    carry < base(),
                    forall|j: int| left_index + right_index <= j < capacity ==> #[trigger] limbs@[j]
                        == before[j],
                    limbs_value(limbs@) + carry * pow_base((left_index + right_index) as nat)
                        == limbs_value(before) + left * prefix_value(c, right_index as int) * pl,
                decreases m - right_index,
            {
                let index = left_index + right_index;
                let right = other.limbs[right_index] as u128;
                let current = limbs[index] as u128;
                proof {
                    assert(right < base());
                    assert(current < base());
                    assert(current + left * right + carry < base() * base()) by (nonlinear_arith)
                        requires
                            current < base(),
                            left < base(),
                            right < base(),
                            carry < base(),
                    ;
                }
                let value = current + left * right + carry;
                let low = (value % b) as u32;
                let high = value / b;
                proof {
                    lemma_fundamental_div_mod(value as int, base() as int);
                    lemma_div_strictly_bounded(value as int, base() as int, base() as int);
                    let old_limbs = limbs@;
                    let new_limbs = old_limbs.update(index as int, low);
                    lemma_limbs_split(old_limbs, index as int);
                    lemma_limbs_split(new_limbs, index as int);
                    lemma_limbs_skip_next(old_limbs, index as int);
                    lemma_limbs_skip_next(new_limbs, index as int);
                    assert(new_limbs.take(index as int) =~= old_limbs.take(index as int));
                    assert(new_limbs.skip(index + 1) =~= old_limbs.skip(index + 1));
                    lemma_prefix_value_next(c, right_index as int);
                    assert(limb_at(c, right_index as int) == right);
                    let p = pow_base(index as nat);
                    lemma_pow_base_add(left_index as nat, right_index as nat);
                    assert(pow_base(index as nat + 1) == base() * p);
                    assert((low as int - current) * p + high * (base() * p) == (left * right
                        + carry) * p) by (nonlinear_arith)
                        requires
                            value == base() * high + low,
                            value == current + left * right + carry,
                    ;
                    let pv = prefix_value(c, right_index as int);
                    let pr = pow_base(right_index as nat);
                    assert(left * (pv + right * pr) * pl == left * pv * pl + left * right * (pl
                        * pr)) by (nonlinear_arith);
                    let tail = limbs_value(old_limbs.skip(index + 1));
                    let head = limbs_value(old_limbs.take(index as int));
                    assert(limbs_value(old_limbs) == head + p * (current + base() * tail));
                    assert(limbs_value(new_limbs) == head + p * (low + base() * tail));
                    assert(p * (low + base() * tail) - p * (current + base() * tail) == (low as int
                        - current) * p) by (nonlinear_arith);
                    assert(pl * pr == p);
                    assert(pow_base((index + 1) as nat) == base() * p);
                    assert(high * pow_base((index + 1) as nat) == high * (base() * p));
                    assert(pow_base((left_index + right_index) as nat) == p);
                    assert((left * right + carry) * p == left * right * p + carry * p)
                        by (nonlinear_arith);
                    assert(left * right * (pl * pr) == left * right * p);
                    assert(limbs_value(new_limbs) + high * pow_base((index + 1) as nat)
                        == limbs_value(before) + left * (pv + right * pr) * pl);
                    assert(prefix_value(c, right_index + 1) == pv + right * pr);
                }
                limbs.set(index, low);
                carry = high;
                right_index = right_index + 1;
            }
            let mut index = left_index + m;
            proof {
                lemma_prefix_value_full(c, m as int);
                lemma_prefix_value_next(a, left_index as int);
                assert(limb_at(a, left_index as int) == left);
                let pa = prefix_value(a, left_index as int);
                assert(pa * vc + left * vc * pl == (pa + left * pl) * vc) by (nonlinear_arith);
                lemma_prefix_value_le(a, left_index + 1);
            }
            while carry != 0
                invariant
                    left_index + m <= index <= capacity,
                    left_index < n,
                    n == a.len(),
                    m == c.len(),
                    capacity == n + m,
                    a == self.limbs@,
                    c == other.limbs@,
                    vc == limbs_value(c),
                    b == base(),
                    limbs@.len() == capacity,
                    limbs_bounded(limbs@),
                    carry < base(),
                    limbs_value(limbs@) + carry * pow_base(index as nat) == prefix_value(
                        a,
                        left_index + 1,
                    ) * vc,
                    prefix_value(a, left_index + 1) <= limbs_value(a),
                    limbs_value(a) < pow_base(n as nat),
                    vc < pow_base(m as nat),
                    pow_base((n + m) as nat) == pow_base(n as nat) * pow_base(m as nat),
                decreases capacity - index,
            {
                proof {
                    if index == capacity {
                        lemma_pow_base_positive(0);
                        assert(prefix_value(a, left_index + 1) * vc < pow_base(n as nat)
                            * pow_base(m as nat)) by (nonlinear_arith)
                            requires
                                prefix_value(a, left_index + 1) <= limbs_value(a),
                                limbs_value(a) < pow_base(n as nat),
                                vc < pow_base(m as nat),
                        ;
                        assert(carry * pow_base(index as nat) >= pow_base(index as nat))
                            by (nonlinear_arith)
                            requires
                                carry >= 1,
                        ;
                    }
                }
                let current = limbs[index] as u128;
                let value = current + carry;
                let low = (value % b) as u32;
                let high = value / b;
                proof {
                    assert(current < base());
                    lemma_fundamental_div_mod(value as int, base() as int);
                    let old_limbs = limbs@;
                    let new_limbs = old_limbs.update(index as int, low);
                    lemma_limbs_split(old_limbs, index as int);
                    lemma_limbs_split(new_limbs, index as int);
                    lemma_limbs_skip_next(old_limbs, index as int);
                    lemma_limbs_skip_next(new_limbs, index as int);
                    assert(new_limbs.take(index as int) =~= old_limbs.take(index as int));
                    assert(new_limbs.skip(index + 1) =~= old_limbs.skip(index + 1));
                    let p = pow_base(index as nat);
                    assert(pow_base(index as nat + 1) == base() * p);
                    assert((low as int - current) * p + high * (base() * p) == carry * p)
                        by (nonlinear_arith)
                        requires
                            value == base() * high + low,
                            value == current + carry,
                    ;
                    let tail = limbs_value(old_limbs.skip(index + 1));
                    let head = limbs_value(old_limbs.take(index as int));
                    assert(limbs_value(old_limbs) == head + p * (current + base() * tail));
                    assert(limbs_value(new_limbs) == head + p * (low + base() * tail));
                    assert(p * (low + base() * tail) - p * (current + base() * tail) == (low as int
                        - current) * p) by (nonlinear_arith);
                    assert(pow_base((index + 1) as nat) == base() * p);
                    assert(high * pow_base((index + 1) as nat) == high * (base() * p));
                }
                limbs.set(index, low);
                carry = high;
                index = index + 1;
            }
            proof {
                assert(carry * pow_base(index as nat) == 0);
            }
            left_index = left_index + 1;
        }
        proof {
            lemma_prefix_value_full(a, n as int);
        }
        let mut result = Self { limbs };
        result.normalize();
        Ok(result)
    }

    /// Multiplies by `10^power`. The charge is that of the limb-internal factor (or a
    /// clone) followed by the shifted result's limb count.
    pub fn mul_pow10(&self, power: usize, context: &mut SpecifiedSerializationContext) -> (r:
        SerializationResult<Self>)
        requires
            self.wf(),
            old(context).wf(),
        ensures
            self.value() == 0 ==> r is Ok && *final(context) == *old(context),
            final(context).wf(),
            budget_only(*old(context), *final(context)),
            r matches Ok(b) ==> b.wf() && b.value() == self.value() * pow10(power as nat),
            r matches Err(e) ==> budget_error(e.kind),
            budget_charged(r, *old(context), *final(context), mul_pow10_cost(self.value(), power as nat)),
    {
        if self.is_zero() {
            proof {
                assert(self.value() * pow10(power as nat) == 0) by (nonlinear_arith)
                    requires
                        self.value() == 0,
                ;
            }
            return Ok(Self::zero());
        }
        let whole = power / LIMB_DIGITS;
        let remainder = power % LIMB_DIGITS;
        let factor = pow10_u64(remainder as u32);
        let ghost c0 = *context;
        let ghost m = limb_len(self.value() * pow10(remainder as nat)) as int;
        proof {
            lemma_limbs_normal_len(self.limbs@);
            lemma_pow10_positive(remainder as nat);
            assert(self.value() * factor > 0) by (nonlinear_arith)
                requires
                    self.value() != 0,
                    factor >= 1,
            ;
            if factor == 1 {
                lemma_mul_basics(self.value() as int);
                assert(self.value() * pow10(remainder as nat) == self.value());
            }
            assert(mul_pow10_cost(self.value(), power as nat) == m + (whole as int + m));
        }
        let multiplied_result = if factor == 1 {
            self.clone_with_budget(context)
        } else {
            self.mul_small(factor, context)
        };
        proof {
            lemma_single_charge(multiplied_result, c0, *context, m);
        }
        let multiplied = match multiplied_result {
            Ok(v) => v,
            Err(e) => {
                return Err(e);
            },
        };
        let ghost c1 = *context;
        proof {
            lemma_limbs_normal_len(multiplied.limbs@);
        }
        let length = match multiplied.limbs.len().checked_add(whole) {
            Some(l) => l,
            None => {
                return Err(CssSpecifiedValueSerializationError::new(
                    CssSpecifiedValueSerializationErrorKind::CapacityOverflow,
                ));
            },
        };
        let charge = context.charge_projection(length);
        proof {
            lemma_single_charge(charge, c1, *context, length as int);
        }
        match charge {
            Ok(()) => {},
            Err(e) => {
                return Err(e);
            },
        }
        let mut limbs: Vec<u32> = Vec::new();
        let mut k: usize = 0;
        while k < whole
            invariant
                k <= whole,
                limbs@ =~= Seq::new(k as nat, |i: int| 0u32),
            decreases whole - k,
        {
            limbs.push(0);
            k = k + 1;
        }
        let ghost zeros = limbs@;
        let mut j: usize = 0;
        while j < multiplied.limbs.len()
            invariant
                j <= multiplied.limbs@.len(),
                limbs@ =~= zeros + multiplied.limbs@.take(j as int),
            decreases multiplied.limbs@.len() - j,
        {
            limbs.push(multiplied.limbs[j]);
            j = j + 1;
        }
        proof {
            assert(multiplied.limbs@.take(j as int) =~= multiplied.limbs@);
            lemma_limbs_shift(multiplied.limbs@, whole as nat);
            lemma_pow_base_is_pow10(whole as nat);
            lemma_fundamental_div_mod(power as int, 9);
            lemma_pow10_add(remainder as nat, 9 * whole as nat);
            assert(power == 9 * whole + remainder);
            if factor == 1 {
                assert(pow10(remainder as nat) == 1);
            }
            assert(self.value() * factor * pow10(9 * whole as nat) == self.value() * (factor
                * pow10(9 * whole as nat))) by (nonlinear_arith);
            lemma_pow10_positive(remainder as nat);
            assert(self.value() * factor != 0) by (nonlinear_arith)
                requires
                    self.value() != 0,
                    factor >= 1,
            ;
            lemma_limbs_normal_zero(multiplied.limbs@);
            assert(limbs@.len() > 0);
            assert(limbs@.last() == multiplied.limbs@.last());
            assert forall|i: int| 0 <= i < limbs@.len() implies #[trigger] limbs@[i] < base() by {
                if i >= whole {
                    assert(limbs@[i] == multiplied.limbs@[i - whole]);
                }
            }
        }
        Ok(Self { limbs })
    }

    /// Adds one. When a new limb is needed it is charged first, and a refused charge
    /// leaves the value unchanged.
    pub fn increment(&mut self, context: &mut SpecifiedSerializationContext) -> (r:
        SerializationResult<()>)
        requires
            old(self).wf(),
            old(context).wf(),
        ensures
            final(context).wf(),
            budget_only(*old(context), *final(context)),
            r is Ok ==> final(self).wf() && final(self).value() == old(self).value() + 1,
            r matches Err(e) ==> budget_error(e.kind) && *final(self) == *old(self),
            budget_charged(r, *old(context), *final(context), increment_cost(old(self).value())),
    {
        let ghost c0 = *context;
        proof {
            lemma_limbs_normal_len(self.limbs@);
        }
        let n = self.limbs.len();
        let mut i: usize = 0;
        while i < n && self.limbs[i] == (LIMB_BASE - 1) as u32
            invariant
                i <= n,
                n == self.limbs@.len(),
                forall|j: int| 0 <= j < i ==> #[trigger] self.limbs@[j] == base() - 1,
            decreases n - i,
        {
            i = i + 1;
        }
        proof {
            if i == n {
                lemma_all_max_limbs(self.limbs@, n as nat);
                assert(self.limbs@.take(n as int) =~= self.limbs@);
            } else {
                lemma_limbs_bound(self.limbs@.take(n as int));
            }
        }
        if i == n {
            let charge = context.charge_projection(1);
            proof {
                lemma_single_charge(charge, c0, *context, 1);
            }
            match charge {
                Ok(()) => {},
                Err(e) => {
                    return Err(e);
                },
            }
        }
        let ghost initial = self.limbs@;
        proof {
            lemma_limbs_split(initial, i as int);
            lemma_limbs_bound(initial.take(i as int));
            assert(limbs_value(initial.take(i as int)) == pow_base(i as nat) - 1) by {
                lemma_all_max_limbs(initial, i as nat);
            }
        }
        let mut k: usize = 0;
        while k < i
            invariant
                k <= i <= n,
                n == self.limbs@.len(),
                self.limbs@.len() == initial.len(),
                forall|j: int| 0 <= j < k ==> #[trigger] self.limbs@[j] == 0,
                forall|j: int| k <= j < n ==> #[trigger] self.limbs@[j] == initial[j],
            decreases i - k,
        {
            self.limbs.set(k, 0);
            k = k + 1;
        }
        proof {
            assert(self.limbs@.take(i as int) =~= Seq::new(i as nat, |j: int| 0u32));
            lemma_limbs_zeros(i as nat);
            assert(self.limbs@.skip(i as int) =~= initial.skip(i as int));
        }
        if i == n {
            proof {
                lemma_limbs_push(self.limbs@, 1);
                lemma_limbs_split(self.limbs@, i as int);
                assert(initial.skip(i as int) =~= Seq::<u32>::empty());
            }
            self.limbs.push(1);
        } else {
            let top = self.limbs[i];
            proof {
                assert(top < base() - 1);
                let updated = self.limbs@.update(i as int, (top + 1) as u32);
                lemma_limbs_split(self.limbs@, i as int);
                lemma_limbs_split(updated, i as int);
                lemma_limbs_skip_next(self.limbs@, i as int);
                lemma_limbs_skip_next(updated, i as int);
                assert(updated.take(i as int) =~= self.limbs@.take(i as int));
                assert(updated.skip(i + 1) =~= self.limbs@.skip(i + 1));
                assert(pow_base(i as nat) * (top + 1 + base() * limbs_value(self.limbs@.skip(i
                    + 1))) == pow_base(i as nat) * (top + base() * limbs_value(self.limbs@.skip(i
                    + 1))) + pow_base(i as nat)) by (nonlinear_arith);
                if i + 1 == n {
                    assert(updated.last() == (top + 1) as u32);
                } else {
                    assert(updated.last() == initial.last());
                }
            }
            self.limbs.set(i, top + 1);
        }
        proof {
            if i < n {
                lemma_limbs_bound(self.limbs@);
                assert(self.limbs@.len() == n);
            }
        }
        Ok(())
    }

    /// The number of decimal digits of the value (zero has one).
    pub fn decimal_len(&self) -> (r: u128)
        requires
            self.wf(),
        ensures
            r == decimal_len_of(self.value()),
    {
        if self.limbs.len() == 0 {
            return 1;
        }
        let n = self.limbs.len();
        let high = self.limbs[n - 1];
        let count = decimal_len_of_limb(high);
        proof {
            self.lemma_decimal_len_limbs();
        }
        let whole = (n - 1) as u128;
        whole * 9 + count as u128
    }

    /// The value's decimal length counted by limbs.
    proof fn lemma_decimal_len_limbs(&self)
        requires
            self.wf(),
            self.limbs@.len() > 0,
        ensures
            decimal_len_of(self.value()) == 9 * (self.limbs@.len() - 1) + decimal_len_of(
                self.limbs@.last() as nat,
            ),
            decimal_len_of(self.value()) <= 9 * self.limbs@.len(),
    {
        let s = self.limbs@;
        lemma_decimal_len_suffix(s, 0);
        assert(s.skip(0) =~= s);
        assert(pow10(9) == base()) by {
            reveal_with_fuel(pow10, 10);
        }
        lemma_decimal_len_below(s.last() as nat, 9);
    }

    /// The decimal digit values of the value, most significant first.
    pub fn decimal_digit_values(&self) -> (r: Vec<u8>)
        requires
            self.wf(),
        ensures
            r@ == decimal_digits(self.value()),
            crate::serialization::is_digit_values(r@),
    {
        let mut out: Vec<u8> = Vec::new();
        let n = self.limbs.len();
        if n == 0 {
            out.push(0);
            proof {
                assert(decimal_len_of(0) == 1);
                assert(fixed_digits(0, 0) =~= Seq::<u8>::empty());
                assert(fixed_digits(0, 1) =~= seq![0u8]);
                assert(out@ =~= decimal_digits(0));
                lemma_fixed_digits_len(0, 1);
            }
            return out;
        }
        let high = self.limbs[n - 1];
        let high_len = decimal_len_of_limb(high);
        push_fixed_digits(&mut out, high, high_len);
        let ghost s = self.limbs@;
        proof {
            assert(pow10(9) == base()) by {
                reveal_with_fuel(pow10, 10);
            }
            assert(s.skip(n - 1) =~= seq![s.last()]);
            lemma_limbs_skip_next(s, n - 1);
            assert(s.skip(n as int) =~= Seq::<u32>::empty());
            assert(out@ == decimal_digits(limbs_value(s.skip(n - 1))));
            assert(s.last() != 0);
        }
        let mut i: usize = n - 1;
        while i > 0
            invariant
                i <= n - 1,
                n == s.len(),
                s == self.limbs@,
                limbs_normal(s),
                pow10(9) == base(),
                limbs_value(s.skip(i as int)) >= 1,
                out@ == decimal_digits(limbs_value(s.skip(i as int))),
            decreases i,
        {
            i = i - 1;
            proof {
                lemma_limbs_skip_next(s, i as int);
                let a = limbs_value(s.skip(i + 1));
                assert(s[i as int] < base());
                assert(limbs_value(s.skip(i as int)) == a * pow10(9) + s[i as int]) by {
                    lemma_mul_is_commutative(base() as int, a as int);
                }
                lemma_decimal_digits_limb_split(a, s[i as int] as nat, 9);
                assert(limbs_value(s.skip(i as int)) >= 1) by (nonlinear_arith)
                    requires
                        limbs_value(s.skip(i as int)) == a * pow10(9) + s[i as int],
                        a >= 1,
                        pow10(9) == base(),
                ;
            }
            push_fixed_digits(&mut out, self.limbs[i], 9);
        }
        proof {
            assert(s.skip(0) =~= s);
            lemma_fixed_digits_len(self.value(), decimal_len_of(self.value()));
        }
        out
    }

    /// The decimal text of the value, refused past `limit` bytes.
    pub fn decimal_string(&self, limit: usize) -> (r: SerializationResult<String>)
        requires
            self.wf(),
        ensures
            decimal_len_of(self.value()) > limit ==> r is Err && r->Err_0.kind
                == CssSpecifiedValueSerializationErrorKind::ByteLimit,
            decimal_len_of(self.value()) <= limit ==> r is Ok && r->Ok_0@
                == crate::serialization::ascii_chars(
                crate::serialization::digit_text(decimal_digits(self.value())),
            ),
    {
        let length = self.decimal_len();
        if length > limit as u128 {
            return Err(CssSpecifiedValueSerializationError::new(
                CssSpecifiedValueSerializationErrorKind::ByteLimit,
            ));
        }
        let digits = self.decimal_digit_values();
        let mut text: Vec<u8> = Vec::new();
        let mut i: usize = 0;
        while i < digits.len()
            invariant
                i <= digits@.len(),
                crate::serialization::is_digit_values(digits@),
                text@ =~= crate::serialization::digit_text(digits@.take(i as int)),
            decreases digits@.len() - i,
        {
            text.push(digits[i] + 48);
            i = i + 1;
            proof {
                assert(crate::serialization::digit_text(digits@.take(i as int))
                    =~= crate::serialization::digit_text(digits@.take((i - 1) as int)).push(
                    (digits@[i - 1] + 48) as u8,
                ));
            }
        }
        proof {
            assert(digits@.take(i as int) =~= digits@);
            assert(crate::serialization::all_ascii(text@));
        }
        Ok(crate::serialization::ascii_text(text))
    }

    /// Divides by ten in place, returning the dropped digit.
    fn div10_in_place(&mut self) -> (r: u32)
        requires
            old(self).wf(),
        ensures
            final(self).wf(),
            old(self).value() == final(self).value() * 10 + r,
            r < 10,
    {
        let n = self.limbs.len();
        let ghost sv = self.limbs@;
        let mut carry: u64 = 0;
        let mut i: usize = n;
        proof {
            assert(sv.skip(n as int) =~= Seq::<u32>::empty());
            assert(limbs_value(Seq::<u32>::empty()) == 0);
        }
        while i > 0
            invariant
                i <= n,
                n == sv.len(),
                self.limbs@.len() == n,
                limbs_normal(sv),
                limbs_bounded(self.limbs@),
                forall|j: int| 0 <= j < i ==> #[trigger] self.limbs@[j] == sv[j],
                carry < 10,
                limbs_value(sv.skip(i as int)) == limbs_value(self.limbs@.skip(i as int)) * 10
                    + carry,
            decreases i,
        {
            i = i - 1;
            let limb = self.limbs[i];
            proof {
                assert(limb == sv[i as int]);
                assert(carry * base() + limb < 10 * base()) by (nonlinear_arith)
                    requires
                        carry < 10,
                        limb < base(),
                ;
                lemma_div_strictly_bounded((carry * base() + limb) as int, 10, base() as int);
            }
            let value = carry * LIMB_BASE + (limb as u64);
            let digit = (value / 10) as u32;
            let next = value % 10;
            proof {
                lemma_fundamental_div_mod(value as int, 10);
                lemma_mod_bound(value as int, 10);
                lemma_limbs_skip_next(sv, i as int);
                let q2 = self.limbs@.update(i as int, digit);
                assert(q2.skip(i + 1) =~= self.limbs@.skip(i + 1));
                lemma_limbs_skip_next(q2, i as int);
                let t = limbs_value(self.limbs@.skip(i + 1));
                assert(base() * (t * 10 + carry) + limb == (digit + base() * t) * 10 + next)
                    by (nonlinear_arith)
                    requires
                        value == carry * base() + limb,
                        value == 10 * digit + next,
                ;
            }
            self.limbs.set(i, digit);
            carry = next;
        }
        proof {
            assert(sv.skip(0) =~= sv);
            assert(self.limbs@.skip(0) =~= self.limbs@);
        }
        self.normalize();
        carry as u32
    }

    /// Removes trailing decimal zeros, returning how many were removed.
    pub fn strip_decimal_zeros(&mut self) -> (r: i128)
        requires
            old(self).wf(),
        ensures
            final(self).wf(),
            r >= 0,
            old(self).value() == final(self).value() * pow10(r as nat),
            final(self).value() == 0 || final(self).value() % 10 != 0,
    {
        let ghost initial = self.value();
        let n0_exec = self.limbs.len();
        let ghost n0 = n0_exec as nat;
        let mut removed: i128 = 0;
        proof {
            assert(pow10(0) == 1);
            assert(self.value() * 1 == self.value()) by (nonlinear_arith);
            lemma_limbs_bound(self.limbs@);
            lemma_pow_base_is_pow10(n0);
        }
        while self.limbs.len() > 0 && self.limbs[0] % 10 == 0
            invariant
                self.wf(),
                removed >= 0,
                initial == self.value() * pow10(removed as nat),
                initial < pow10(9 * n0),
                self.value() > 0 ==> removed < 9 * n0,
                n0 == n0_exec,
            decreases self.value(),
        {
            proof {
                lemma_limbs_mod10(self.limbs@);
                lemma_limbs_normal_zero(self.limbs@);
            }
            let ghost before = self.value();
            let digit = self.div10_in_place();
            proof {
                assert(digit == 0) by {
                    lemma_fundamental_div_mod_converse(
                        before as int,
                        10,
                        self.value() as int,
                        digit as int,
                    );
                }
                assert(pow10(removed as nat + 1) == 10 * pow10(removed as nat));
                assert(initial == self.value() * pow10(removed as nat + 1)) by (nonlinear_arith)
                    requires
                        initial == before * pow10(removed as nat),
                        before == self.value() * 10,
                        pow10(removed as nat + 1) == 10 * pow10(removed as nat),
                ;
                if self.value() > 0 {
                    if removed + 1 >= 9 * n0 {
                        lemma_pow10_monotonic(9 * n0, removed as nat + 1);
                        assert(initial >= pow10(removed as nat + 1)) by (nonlinear_arith)
                            requires
                                initial == self.value() * pow10(removed as nat + 1),
                                self.value() >= 1,
                        ;
                    }
                }
                assert(9 * n0 <= 9 * 0x1_0000_0000_0000_0000) by (nonlinear_arith)
                    requires
                        n0 <= 0x1_0000_0000_0000_0000,
                ;
            }
            removed = removed + 1;
        }
        proof {
            if self.limbs@.len() > 0 {
                lemma_limbs_mod10(self.limbs@);
            } else {
                lemma_limbs_normal_zero(self.limbs@);
            }
        }
        removed
    }

    /// Quotient and remainder by `10^power`.
    pub fn div_rem_pow10(&self, power: usize, context: &mut SpecifiedSerializationContext) -> (r:
        SerializationResult<(Self, Self)>)
        requires
            self.wf(),
            old(context).wf(),
        ensures
            final(context).wf(),
            budget_only(*old(context), *final(context)),
            r matches Ok((q, rem)) ==> q.wf() && rem.wf() && rem.value() < pow10(power as nat)
                && self.value() == q.value() * pow10(power as nat) + rem.value(),
            r matches Err(e) ==> budget_error(e.kind),
            budget_charged(r, *old(context), *final(context), div_rem_pow10_cost(self.value(), power as nat)),
    {
        let ghost c0 = *context;
        proof {
            lemma_limbs_normal_len(self.limbs@);
        }
        if self.is_zero() || power == 0 {
            proof {
                lemma_pow10_positive(power as nat);
                if power == 0 {
                    assert(pow10(0) == 1);
                } else {
                    assert(self.value() == 0);
                }
            }
            let copy_result = self.clone_with_budget(context);
            proof {
                lemma_single_charge(copy_result, c0, *context, self.limbs.len() as int);
            }
            let copy = match copy_result {
                Ok(v) => v,
                Err(e) => {
                    return Err(e);
                },
            };
            return Ok((copy, Self::zero()));
        }
        let whole = power / LIMB_DIGITS;
        let remainder_digits = power % LIMB_DIGITS;
        let n = self.limbs.len();
        let ghost sv = self.limbs@;
        proof {
            lemma_fundamental_div_mod(power as int, 9);
            lemma_pow_base_is_pow10(whole as nat);
            lemma_pow10_add(9 * whole as nat, remainder_digits as nat);
            assert(power == 9 * whole + remainder_digits);
        }
        if whole >= n {
            proof {
                lemma_limbs_bound(sv);
                lemma_pow_base_monotonic(n as nat, whole as nat);
                lemma_pow_base_is_pow10(whole as nat);
                lemma_pow10_monotonic(9 * whole as nat, power as nat);
                assert(0 * pow10(power as nat) == 0);
            }
            let copy_result = self.clone_with_budget(context);
            proof {
                lemma_single_charge(copy_result, c0, *context, self.limbs.len() as int);
            }
            let copy = match copy_result {
                Ok(v) => v,
                Err(e) => {
                    return Err(e);
                },
            };
            return Ok((Self::zero(), copy));
        }
        let upper_len = n - whole;
        let ghost u = self.value() / pow_base(whole as nat);
        proof {
            lemma_limbs_split(sv, whole as int);
            lemma_limbs_bound(sv.take(whole as int));
            lemma_pow_base_positive(whole as nat);
            assert(self.value() == limbs_value(sv.skip(whole as int)) * pow_base(whole as nat)
                + limbs_value(sv.take(whole as int))) by (nonlinear_arith)
                requires
                    self.value() == limbs_value(sv.take(whole as int)) + pow_base(whole as nat)
                        * limbs_value(sv.skip(whole as int)),
            ;
            lemma_fundamental_div_mod_converse(
                self.value() as int,
                pow_base(whole as nat) as int,
                limbs_value(sv.skip(whole as int)) as int,
                limbs_value(sv.take(whole as int)) as int,
            );
            assert(u == limbs_value(sv.skip(whole as int)));
        }
        let charge1 = context.charge_projection(upper_len);
        proof {
            lemma_single_charge(charge1, c0, *context, upper_len as int);
        }
        match charge1 {
            Ok(()) => {},
            Err(e) => {
                return Err(e);
            },
        }
        let ghost c1 = *context;
        let mut upper_limbs: Vec<u32> = Vec::new();
        let mut i: usize = whole;
        while i < n
            invariant
                whole <= i <= n,
                n == sv.len(),
                sv == self.limbs@,
                upper_limbs@ =~= sv.subrange(whole as int, i as int),
            decreases n - i,
        {
            upper_limbs.push(self.limbs[i]);
            i = i + 1;
        }
        let upper = Self { limbs: upper_limbs };
        let ghost upper_value = limbs_value(upper.limbs@);
        proof {
            assert(upper.limbs@ =~= sv.skip(whole as int));
            assert(upper.limbs@.last() == sv.last());
            assert(limbs_bounded(upper.limbs@)) by {
                assert forall|j: int| 0 <= j < upper.limbs@.len() implies #[trigger] upper.limbs@[j]
                    < base() by {
                    assert(upper.limbs@[j] == sv[j + whole]);
                }
            }
        }
        let (quotient, upper_remainder) = if remainder_digits == 0 {
            proof {
                assert(pow10(0) == 1);
                assert(upper_value == upper_value * 1 + 0) by (nonlinear_arith);
            }
            (upper, 0u64)
        } else {
            let divisor = pow10_u64(remainder_digits as u32);
            proof {
                lemma_pow10_positive(remainder_digits as nat);
            }
            proof {
                lemma_limbs_normal_zero(upper.limbs@);
            }
            let divided = upper.div_rem_small(divisor, context);
            proof {
                lemma_single_charge(divided, c1, *context, upper_len as int);
            }
            match divided {
                Ok(pair) => {
                    proof {
                        lemma_fundamental_div_mod_converse(
                            upper_value as int,
                            divisor as int,
                            pair.0.value() as int,
                            pair.1 as int,
                        );
                    }
                    pair
                },
                Err(e) => {
                    return Err(e);
                },
            }
        };
        let ghost c2 = *context;
        proof {
            assert(upper_remainder < pow10(remainder_digits as nat));
            lemma_pow10_monotonic(remainder_digits as nat, 9);
            assert(pow10(9) == base()) by {
                reveal_with_fuel(pow10, 10);
            }
        }
        let extra: usize = if upper_remainder != 0 {
            1
        } else {
            0
        };
        let lower_len = whole + extra;
        let charge2 = context.charge_projection(lower_len);
        proof {
            lemma_single_charge(charge2, c2, *context, lower_len as int);
        }
        match charge2 {
            Ok(()) => {},
            Err(e) => {
                return Err(e);
            },
        }
        let mut lower_limbs: Vec<u32> = Vec::new();
        let mut j: usize = 0;
        while j < whole
            invariant
                j <= whole < n,
                n == sv.len(),
                sv == self.limbs@,
                lower_limbs@ =~= sv.take(j as int),
            decreases whole - j,
        {
            lower_limbs.push(self.limbs[j]);
            j = j + 1;
        }
        proof {
            lemma_limbs_push(lower_limbs@, upper_remainder as u32);
            assert(lower_limbs@.len() == whole);
            lemma_mul_basics(pow_base(whole as nat) as int);
        }
        let ghost taken = lower_limbs@;
        if upper_remainder != 0 {
            lower_limbs.push(upper_remainder as u32);
        }
        proof {
            if upper_remainder != 0 {
                assert(lower_limbs@ == taken.push(upper_remainder as u32));
            } else {
                assert(lower_limbs@ == taken);
            }
        }
        let mut lower = Self { limbs: lower_limbs };
        proof {
            assert(limbs_bounded(lower.limbs@)) by {
                assert forall|k: int| 0 <= k < lower.limbs@.len() implies #[trigger] lower.limbs@[k]
                    < base() by {
                    if k < whole {
                        assert(lower.limbs@[k] == sv[k]);
                    }
                }
            }
            assert(limbs_value(lower.limbs@) == limbs_value(sv.take(whole as int))
                + upper_remainder * pow_base(whole as nat));
            lemma_div_rem_pow10_combine(
                sv,
                whole as nat,
                remainder_digits as nat,
                quotient.value(),
                upper_remainder as nat,
                upper_value,
            );
        }
        lower.normalize();
        Ok((quotient, lower))
    }

    /// Adds a small value in place; new high limbs are charged one at a time.
    pub fn add_small(&mut self, value: u64, context: &mut SpecifiedSerializationContext) -> (r:
        SerializationResult<()>)
        requires
            old(self).wf(),
            old(context).wf(),
        ensures
            final(context).wf(),
            budget_only(*old(context), *final(context)),
            r is Ok ==> final(self).wf() && final(self).value() == old(self).value() + value,
            r matches Err(e) ==> budget_error(e.kind),
            value < u64::MAX - base() ==> budget_charged(
                r,
                *old(context),
                *final(context),
                add_cost(old(self).value(), value as nat),
            ),
    {
        let ghost target: nat = (self.value() + value) as nat;
        let ghost n0 = self.limbs@.len();
        let ghost c0 = *context;
        proof {
            lemma_limbs_normal_len(self.limbs@);
            lemma_limbs_normal_zero(self.limbs@);
            if n0 > 0 {
                lemma_limbs_normal_lower(self.limbs@);
                lemma_limb_len_lower(target, (n0 - 1) as nat);
            }
        }
        let mut rest = value;
        let mut index: usize = 0;
        proof {
            lemma_prefix_value_zero(self.limbs@);
            assert(pow_base(0) == 1);
            lemma_limbs_split(self.limbs@, 0);
        }
        while rest != 0
            invariant
                index <= self.limbs@.len(),
                limbs_bounded(self.limbs@),
                context.wf(),
                budget_only(*old(context), *context),
                limbs_value(self.limbs@) + rest * pow_base(index as nat) == target,
                n0 <= self.limbs@.len(),
                context.projection_nodes == c0.projection_nodes + (self.limbs@.len() - n0),
                c0 == *old(context),
                n0 == limb_len(old(self).value()),
                target == old(self).value() + value,
                limb_len(target) >= n0,
                self.limbs@.len() > n0 ==> limb_len(target) >= self.limbs@.len(),
                value < u64::MAX - base() ==> rest <= value,
            decreases rest, self.limbs@.len() + 1 - index,
        {
            if index == self.limbs.len() {
                proof {
                    assert(rest * pow_base(index as nat) >= pow_base(index as nat)) by (nonlinear_arith)
                        requires
                            rest >= 1,
                    ;
                    lemma_limb_len_lower(target, index as nat);
                }
                let ghost cb = *context;
                let charge = context.charge_projection(1);
                proof {
                    lemma_single_charge(charge, cb, *context, 1);
                }
                match charge {
                    Ok(()) => {},
                    Err(e) => {
                        return Err(e);
                    },
                }
                proof {
                    lemma_limbs_push(self.limbs@, 0);
                }
                self.limbs.push(0);
            }
            let limb = self.limbs[index] as u64;
            let sum = match limb.checked_add(rest) {
                Some(s) => s,
                None => {
                    return Err(CssSpecifiedValueSerializationError::new(
                        CssSpecifiedValueSerializationErrorKind::CapacityOverflow,
                    ));
                },
            };
            let low = (sum % LIMB_BASE) as u32;
            let high = sum / LIMB_BASE;
            proof {
                lemma_fundamental_div_mod(sum as int, base() as int);
                let old_limbs = self.limbs@;
                let new_limbs = old_limbs.update(index as int, low);
                lemma_limbs_split(old_limbs, index as int);
                lemma_limbs_split(new_limbs, index as int);
                lemma_limbs_skip_next(old_limbs, index as int);
                lemma_limbs_skip_next(new_limbs, index as int);
                assert(new_limbs.take(index as int) =~= old_limbs.take(index as int));
                assert(new_limbs.skip(index + 1) =~= old_limbs.skip(index + 1));
                let p = pow_base(index as nat);
                let tail = limbs_value(old_limbs.skip(index + 1));
                assert(pow_base((index + 1) as nat) == base() * p);
                assert(p * (low + base() * tail) + high * (base() * p) == p * (limb + base()
                    * tail) + rest * p) by (nonlinear_arith)
                    requires
                        sum == base() * high + low,
                        sum == limb + rest,
                ;
                assert(limb < base());
                assert(high <= rest) by {
                    lemma_div_strictly_bounded(sum as int, base() as int, (rest + 1) as int);
                    assert(sum < base() * (rest + 1)) by (nonlinear_arith)
                        requires
                            sum == limb + rest,
                            limb < base(),
                            rest >= 1,
                    ;
                }
                if limb == 0 {
                    lemma_div_strictly_bounded(sum as int, base() as int, rest as int);
                    assert(sum < base() * rest) by (nonlinear_arith)
                        requires
                            sum == rest,
                            rest >= 1,
                    ;
                }
            }
            let length = self.limbs.len();
            self.limbs.set(index, low);
            rest = high;
            assert(index < length);
            index = index + 1;
            proof {
                assert(high <= old(self).limbs@.len() + u64::MAX);
            }
        }
        proof {
            assert(rest * pow_base(index as nat) == 0);
            lemma_limbs_bound(self.limbs@);
            lemma_limb_len_bound(target, self.limbs@.len());
        }
        self.normalize();
        Ok(())
    }

    /// The remainder of division by a small modulus.
    pub fn mod_small(&self, modulus: u64) -> (r: u64)
        requires
            self.wf(),
            modulus > 0,
        ensures
            r == self.value() % (modulus as nat),
    {
        let m = modulus as u128;
        let mut remainder: u64 = 0;
        let mut i: usize = self.limbs.len();
        proof {
            assert(self.limbs@.skip(i as int) =~= Seq::<u32>::empty());
            assert(limbs_value(self.limbs@.skip(i as int)) == 0);
            lemma_small_mod(0, modulus as nat);
        }
        while i > 0
            invariant
                i <= self.limbs.len(),
                m == modulus,
                modulus > 0,
                limbs_bounded(self.limbs@),
                remainder == limbs_value(self.limbs@.skip(i as int)) % (modulus as nat),
            decreases i,
        {
            i = i - 1;
            let limb = self.limbs[i];
            proof {
                lemma_limbs_skip_next(self.limbs@, i as int);
                let tail = limbs_value(self.limbs@.skip(i + 1));
                lemma_mod_bound(tail as int, modulus as int);
                assert(remainder < modulus);
                assert(remainder * base() <= (modulus - 1) * base()) by (nonlinear_arith)
                    requires
                        remainder < modulus,
                ;
                lemma_mul_mod_noop_left(tail as int, base() as int, modulus as int);
                lemma_add_mod_noop(
                    (tail * base()) as int,
                    limb as int,
                    modulus as int,
                );
                lemma_add_mod_noop(
                    ((tail % (modulus as nat)) * base()) as int,
                    limb as int,
                    modulus as int,
                );
                lemma_mul_is_commutative(tail as int, base() as int);
            }
            let next = ((remainder as u128) * (LIMB_BASE as u128) + (limb as u128)) % m;
            remainder = next as u64;
        }
        proof {
            assert(self.limbs@.skip(0) =~= self.limbs@);
        }
        remainder
    }
}

} // verus!
