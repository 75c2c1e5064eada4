//! Authored component values: the token tree a numeric value is checked from, with
//! its provenance and its resource limits.

use vstd::prelude::*;

verus! {

/// Where a value came from: a byte span of the authored source, or a value built by a
/// program rather than read from text.
#[derive(Clone, Copy, Debug, PartialEq, Eq, Structural)]
pub enum CssValueOrigin {
    Parsed { start: usize, end: usize },
    Programmatic,
}

#[derive(Clone, Copy, Debug, PartialEq, Eq, Structural)]
pub enum CssBlockKind {
    Parenthesis,
    SquareBracket,
    CurlyBracket,
}

/// One authored component value. Functions and blocks hold their children and the
/// origin of their closing token; `closed` is false where the source ended first.
#[derive(Debug)]
pub enum CssComponentValue {
    Number { representation: String, origin: CssValueOrigin },
    Percentage { representation: String, origin: CssValueOrigin },
    Dimension { representation: String, unit: String, origin: CssValueOrigin },
    Ident { name: String, origin: CssValueOrigin },
    Delim { value: char, origin: CssValueOrigin },
    Whitespace { origin: CssValueOrigin },
    Comma { origin: CssValueOrigin },
    Function {
        name: String,
        values: Vec<CssComponentValue>,
        origin: CssValueOrigin,
        closing: CssValueOrigin,
        closed: bool,
    },
    Block {
        kind: CssBlockKind,
        values: Vec<CssComponentValue>,
        origin: CssValueOrigin,
        closing: CssValueOrigin,
        closed: bool,
    },
}

/// The children of a function or block; none for a token.
pub open spec fn children_of(c: CssComponentValue) -> Seq<CssComponentValue> {
    match c {
        CssComponentValue::Function { values, .. } => values@,
        CssComponentValue::Block { values, .. } => values@,
        _ => Seq::empty(),
    }
}

pub open spec fn is_nested(c: CssComponentValue) -> bool {
    c is Function || c is Block
}

/// Components in a value, counting every nested one.
pub open spec fn tree_count(c: CssComponentValue) -> nat
    decreases c,
{
    match c {
        CssComponentValue::Function { values, .. } => 1 + seq_count(values@),
        CssComponentValue::Block { values, .. } => 1 + seq_count(values@),
        _ => 1,
    }
}

pub open spec fn seq_count(s: Seq<CssComponentValue>) -> nat
    decreases s,
{
    if s.len() == 0 {
        0
    } else {
        tree_count(s[0]) + seq_count(s.drop_first())
    }
}

/// Serialized bytes of a component without its children.
pub open spec fn own_bytes(c: CssComponentValue) -> nat {
    match c {
        CssComponentValue::Number { representation, .. } => representation@.len(),
        CssComponentValue::Percentage { representation, .. } => representation@.len() + 1,
        CssComponentValue::Dimension { representation, unit, .. } => representation@.len()
            + unit@.len(),
        CssComponentValue::Ident { name, .. } => name@.len(),
        CssComponentValue::Delim { .. } => 1,
        CssComponentValue::Whitespace { .. } => 1,
        CssComponentValue::Comma { .. } => 1,
        CssComponentValue::Function { name, closed, .. } => name@.len() + 1 + if closed {
            1nat
        } else {
            0nat
        },
        CssComponentValue::Block { closed, .. } => 1 + if closed {
            1nat
        } else {
            0nat
        },
    }
}

pub open spec fn tree_bytes(c: CssComponentValue) -> nat
    decreases c,
{
    match c {
        CssComponentValue::Function { values, .. } => own_bytes(c) + seq_bytes(values@),
        CssComponentValue::Block { values, .. } => own_bytes(c) + seq_bytes(values@),
        _ => own_bytes(c),
    }
}

pub open spec fn seq_bytes(s: Seq<CssComponentValue>) -> nat
    decreases s,
{
    if s.len() == 0 {
        0
    } else {
        tree_bytes(s[0]) + seq_bytes(s.drop_first())
    }
}

/// Nesting depth: functions and blocks, counted along the deepest path.
pub open spec fn tree_depth(c: CssComponentValue) -> nat
    decreases c,
{
    match c {
        CssComponentValue::Function { values, .. } => 1 + seq_depth(values@),
        CssComponentValue::Block { values, .. } => 1 + seq_depth(values@),
        _ => 0,
    }
}

pub open spec fn seq_depth(s: Seq<CssComponentValue>) -> nat
    decreases s,
{
    if s.len() == 0 {
        0
    } else {
        let a = tree_depth(s[0]);
        let b = seq_depth(s.drop_first());
        if a >= b {
            a
        } else {
            b
        }
    }
}

/// Size of a component tree, for termination of recursive traversals.
pub open spec fn tree_size(c: CssComponentValue) -> nat
    decreases c,
{
    match c {
        CssComponentValue::Function { values, .. } => 1 + seq_size(values@),
        CssComponentValue::Block { values, .. } => 1 + seq_size(values@),
        _ => 1,
    }
}

pub open spec fn seq_size(s: Seq<CssComponentValue>) -> nat
    decreases s,
{
    if s.len() == 0 {
        0
    } else {
        tree_size(s[0]) + seq_size(s.drop_first())
    }
}

pub proof fn lemma_seq_size_subrange(s: Seq<CssComponentValue>, i: int, j: int)
    requires
        0 <= i <= j <= s.len(),
    ensures
        seq_size(s.subrange(i, j)) <= seq_size(s),
        i < j ==> tree_size(s[i]) <= seq_size(s.subrange(i, j)),
    decreases s.len(),
{
    if s.len() > 0 {
        if i == 0 {
            if j > 0 {
                assert(s.subrange(0, j).drop_first() =~= s.drop_first().subrange(0, j - 1));
                lemma_seq_size_subrange(s.drop_first(), 0, j - 1);
            }
        } else {
            assert(s.subrange(i, j) =~= s.drop_first().subrange(i - 1, j - 1));
            lemma_seq_size_subrange(s.drop_first(), i - 1, j - 1);
        }
    }
}

/// Resource limits on authored component values. Zero nesting is a valid limit.
#[derive(Clone, Copy, Debug, PartialEq, Eq, Structural)]
pub struct CssComponentValueLimits {
    max_nesting: usize,
    max_components: usize,
    max_css_bytes: usize,
}

impl CssComponentValueLimits {
    pub closed spec fn nesting(self) -> usize {
        self.max_nesting
    }

    pub closed spec fn components(self) -> usize {
        self.max_components
    }

    pub closed spec fn bytes(self) -> usize {
        self.max_css_bytes
    }

    /// Limits on nesting depth, component count and serialized bytes; a value has at
    /// least one component and one byte, so those limits must be positive.
    pub fn try_new(max_nesting: usize, max_components: usize, max_css_bytes: usize) -> (r:
        Option<Self>)
        ensures
            (max_components > 0 && max_css_bytes > 0) <==> r is Some,
            r matches Some(l) ==> l.nesting() == max_nesting && l.components() == max_components
                && l.bytes() == max_css_bytes,
    {
        if max_components == 0 || max_css_bytes == 0 {
            None
        } else {
            Some(Self { max_nesting, max_components, max_css_bytes })
        }
    }

    pub fn max_nesting(self) -> (r: usize)
        ensures
            r == self.nesting(),
    {
        self.max_nesting
    }

    pub fn max_components(self) -> (r: usize)
        ensures
            r == self.components(),
    {
        self.max_components
    }

    pub fn max_css_bytes(self) -> (r: usize)
        ensures
            r == self.bytes(),
    {
        self.max_css_bytes
    }
}

/// The default limits: 256 levels, 65 536 components, 1 MiB.
pub closed spec fn default_limits() -> CssComponentValueLimits {
    CssComponentValueLimits { max_nesting: 256, max_components: 65_536, max_css_bytes: 1_048_576 }
}

/// The default limits' values.
pub proof fn lemma_default_limits()
    ensures
        default_limits().nesting() == 256,
        default_limits().components() == 65_536,
        default_limits().bytes() == 1_048_576,
{
}

impl Default for CssComponentValueLimits {
    fn default() -> (r: Self)
        ensures
            r == default_limits(),
            r.nesting() == 256,
            r.components() == 65_536,
            r.bytes() == 1_048_576,
    {
        Self { max_nesting: 256, max_components: 65_536, max_css_bytes: 1_048_576 }
    }
}

#[derive(Clone, Copy, Debug, PartialEq, Eq, Structural)]
pub enum CssComponentValueErrorKind {
    InvalidToken,
    NestingLimit,
    ComponentLimit,
    ByteLimit,
    CapacityOverflow,
}

/// A rejected component value, with the origin of the offending component.
#[derive(Clone, Copy, Debug, PartialEq, Eq, Structural)]
pub struct CssComponentValueError {
    pub kind: CssComponentValueErrorKind,
    pub origin: CssValueOrigin,
}

impl CssComponentValueError {
    pub fn new(kind: CssComponentValueErrorKind, origin: CssValueOrigin) -> (r: Self)
        ensures
            r.kind == kind,
            r.origin == origin,
    {
        Self { kind, origin }
    }

    pub fn kind(&self) -> (r: CssComponentValueErrorKind)
        ensures
            r == self.kind,
    {
        self.kind
    }

    pub fn origin(&self) -> (r: &CssValueOrigin)
        ensures
            *r == self.origin,
    {
        &self.origin
    }
}

impl CssComponentValue {
    pub open spec fn origin_of(&self) -> CssValueOrigin {
        match *self {
            CssComponentValue::Number { origin, .. } => origin,
            CssComponentValue::Percentage { origin, .. } => origin,
            CssComponentValue::Dimension { origin, .. } => origin,
            CssComponentValue::Ident { origin, .. } => origin,
            CssComponentValue::Delim { origin, .. } => origin,
            CssComponentValue::Whitespace { origin } => origin,
            CssComponentValue::Comma { origin } => origin,
            CssComponentValue::Function { origin, .. } => origin,
            CssComponentValue::Block { origin, .. } => origin,
        }
    }

    /// The component's own origin.
    pub fn origin(&self) -> (r: &CssValueOrigin)
        ensures
            *r == self.origin_of(),
    {
        match self {
            CssComponentValue::Number { origin, .. } => origin,
            CssComponentValue::Percentage { origin, .. } => origin,
            CssComponentValue::Dimension { origin, .. } => origin,
            CssComponentValue::Ident { origin, .. } => origin,
            CssComponentValue::Delim { origin, .. } => origin,
            CssComponentValue::Whitespace { origin } => origin,
            CssComponentValue::Comma { origin } => origin,
            CssComponentValue::Function { origin, .. } => origin,
            CssComponentValue::Block { origin, .. } => origin,
        }
    }

    /// Serialized bytes of the component without its children.
    fn own_len(&self) -> (r: Option<usize>)
        ensures
            r matches Some(n) ==> n == own_bytes(*self),
            r is None ==> own_bytes(*self) > usize::MAX,
    {
        match self {
            CssComponentValue::Number { representation, .. } => Some(representation.unicode_len()),
            CssComponentValue::Percentage { representation, .. } => representation.unicode_len().checked_add(1),
            CssComponentValue::Dimension { representation, unit, .. } => representation.unicode_len().checked_add(unit.unicode_len()),
            CssComponentValue::Ident { name, .. } => Some(name.unicode_len()),
            CssComponentValue::Delim { .. } => Some(1),
            CssComponentValue::Whitespace { .. } => Some(1),
            CssComponentValue::Comma { .. } => Some(1),
            CssComponentValue::Function { name, closed, .. } => {
                let close: usize = if *closed {
                    1
                } else {
                    0
                };
                match name.unicode_len().checked_add(1) {
                    Some(n) => n.checked_add(close),
                    None => None,
                }
            },
            CssComponentValue::Block { closed, .. } => Some(
                if *closed {
                    2
                } else {
                    1
                },
            ),
        }
    }
}

/// Totals of a traversal so far.
pub struct Tally {
    pub components: usize,
    pub bytes: usize,
}

/// Within the limits, starting from the given totals and depth.
pub open spec fn fits(
    s: Seq<CssComponentValue>,
    depth: int,
    components: int,
    bytes: int,
    limits: CssComponentValueLimits,
) -> bool {
    &&& components + seq_count(s) <= limits.components()
    &&& bytes + seq_bytes(s) <= limits.bytes()
    &&& depth + seq_depth(s) <= limits.nesting()
}

pub open spec fn fits_tree(
    c: CssComponentValue,
    depth: int,
    components: int,
    bytes: int,
    limits: CssComponentValueLimits,
) -> bool {
    &&& components + tree_count(c) <= limits.components()
    &&& bytes + tree_bytes(c) <= limits.bytes()
    &&& depth + tree_depth(c) <= limits.nesting()
}

pub open spec fn limit_error(kind: CssComponentValueErrorKind) -> bool {
    kind == CssComponentValueErrorKind::NestingLimit || kind
        == CssComponentValueErrorKind::ComponentLimit || kind
        == CssComponentValueErrorKind::ByteLimit || kind
        == CssComponentValueErrorKind::CapacityOverflow
}

/// A preorder walk of one tree from the given depth and totals: the first limit it
/// exceeds, as the error reported at the offending component, or the totals after it.
/// A component is counted, then its own bytes, then a function or block at the
/// nesting limit is refused before its children are walked.
pub open spec fn walk_tree(
    c: CssComponentValue,
    depth: int,
    components: int,
    bytes: int,
    limits: CssComponentValueLimits,
) -> Result<(int, int), CssComponentValueError>
    decreases tree_size(c), 1nat,
{
    let count = components + 1;
    let total = bytes + own_bytes(c);
    if count > limits.components() {
        Err(CssComponentValueError { kind: CssComponentValueErrorKind::ComponentLimit, origin: c.origin_of() })
    } else if total > limits.bytes() {
        Err(CssComponentValueError { kind: CssComponentValueErrorKind::ByteLimit, origin: c.origin_of() })
    } else if is_nested(c) {
        if depth >= limits.nesting() {
            Err(CssComponentValueError { kind: CssComponentValueErrorKind::NestingLimit, origin: c.origin_of() })
        } else {
            walk_seq(children_of(c), depth + 1, count, total, limits)
        }
    } else {
        Ok((count, total))
    }
}

/// The walk of a sequence of trees, in order.
pub open spec fn walk_seq(
    s: Seq<CssComponentValue>,
    depth: int,
    components: int,
    bytes: int,
    limits: CssComponentValueLimits,
) -> Result<(int, int), CssComponentValueError>
    decreases seq_size(s), 2nat,
{
    if s.len() == 0 {
        Ok((components, bytes))
    } else {
        proof {
            lemma_tree_size_positive(s[0]);
        }
        match walk_tree(s[0], depth, components, bytes, limits) {
            Err(e) => Err(e),
            Ok((c, b)) => walk_seq(s.drop_first(), depth, c, b, limits),
        }
    }
}

pub proof fn lemma_tree_size_positive(c: CssComponentValue)
    ensures
        tree_size(c) >= 1,
{
}

/// Checks one component tree against the limits, in preorder.
fn validate_tree(
    c: &CssComponentValue,
    depth: usize,
    tally: &mut Tally,
    limits: CssComponentValueLimits,
) -> (r: Result<(), CssComponentValueError>)
    requires
        depth <= limits.nesting(),
    ensures
        r is Ok <==> fits_tree(*c, depth as int, old(tally).components as int, old(tally).bytes as int, limits),
        r is Ok ==> final(tally).components == old(tally).components + tree_count(*c)
            && final(tally).bytes == old(tally).bytes + tree_bytes(*c),
        r matches Err(e) ==> limit_error(e.kind),
        match walk_tree(*c, depth as int, old(tally).components as int, old(tally).bytes as int, limits) {
            Ok((n, b)) => r is Ok && final(tally).components == n && final(tally).bytes == b,
            Err(e) => r == Err::<(), CssComponentValueError>(e),
        },
    decreases tree_size(*c), 1nat,
{
    let count = match tally.components.checked_add(1) {
        Some(n) => n,
        None => {
            return Err(CssComponentValueError::new(CssComponentValueErrorKind::ComponentLimit, *c.origin()));
        },
    };
    if count > limits.max_components() {
        proof {
            lemma_count_positive(*c);
        }
        return Err(CssComponentValueError::new(CssComponentValueErrorKind::ComponentLimit, *c.origin()));
    }
    let own = match c.own_len() {
        Some(n) => n,
        None => {
            proof {
                lemma_bytes_at_least_own(*c);
            }
            return Err(CssComponentValueError::new(CssComponentValueErrorKind::ByteLimit, *c.origin()));
        },
    };
    let total = match tally.bytes.checked_add(own) {
        Some(n) => n,
        None => {
            proof {
                lemma_bytes_at_least_own(*c);
            }
            return Err(CssComponentValueError::new(CssComponentValueErrorKind::ByteLimit, *c.origin()));
        },
    };
    if total > limits.max_css_bytes() {
        proof {
            lemma_bytes_at_least_own(*c);
        }
        return Err(CssComponentValueError::new(CssComponentValueErrorKind::ByteLimit, *c.origin()));
    }
    match c {
        CssComponentValue::Function { values, .. } | CssComponentValue::Block { values, .. } => {
            if depth >= limits.max_nesting() {
                return Err(CssComponentValueError::new(CssComponentValueErrorKind::NestingLimit, *c.origin()));
            }
            tally.components = count;
            tally.bytes = total;
            let ghost before = *tally;
            proof {
                assert(values@.subrange(0, values@.len() as int) =~= values@);
            }
            let r = validate_seq(values, depth + 1, tally, limits);
            r
        },
        _ => {
            tally.components = count;
            tally.bytes = total;
            Ok(())
        },
    }
}

/// Checks a sequence of component trees against the limits, in order.
fn validate_seq(
    items: &Vec<CssComponentValue>,
    depth: usize,
    tally: &mut Tally,
    limits: CssComponentValueLimits,
) -> (r: Result<(), CssComponentValueError>)
    requires
        depth <= limits.nesting(),
        old(tally).components <= limits.components(),
        old(tally).bytes <= limits.bytes(),
    ensures
        r is Ok <==> fits(items@, depth as int, old(tally).components as int, old(tally).bytes as int, limits),
        r is Ok ==> final(tally).components == old(tally).components + seq_count(items@)
            && final(tally).bytes == old(tally).bytes + seq_bytes(items@),
        r matches Err(e) ==> limit_error(e.kind),
        match walk_seq(items@, depth as int, old(tally).components as int, old(tally).bytes as int, limits) {
            Ok((n, b)) => r is Ok && final(tally).components == n && final(tally).bytes == b,
            Err(e) => r == Err::<(), CssComponentValueError>(e),
        },
    decreases seq_size(items@), 2nat,
{
    let mut i: usize = 0;
    let n = items.len();
    let ghost c0 = tally.components as int;
    let ghost b0 = tally.bytes as int;
    proof {
        assert(items@.subrange(0, 0) =~= Seq::<CssComponentValue>::empty());
        assert(items@.skip(0) =~= items@);
    }
    while i < n
        invariant
            i <= n,
            n == items@.len(),
            depth <= limits.nesting(),
            tally.components == c0 + seq_count(items@.subrange(0, i as int)),
            tally.bytes == b0 + seq_bytes(items@.subrange(0, i as int)),
            depth + seq_depth(items@.subrange(0, i as int)) <= limits.nesting(),
            c0 == old(tally).components,
            b0 == old(tally).bytes,
            c0 + seq_count(items@.subrange(0, i as int)) <= limits.components(),
            b0 + seq_bytes(items@.subrange(0, i as int)) <= limits.bytes(),
            walk_seq(items@, depth as int, c0, b0, limits) == walk_seq(
                items@.skip(i as int),
                depth as int,
                tally.components as int,
                tally.bytes as int,
                limits,
            ),
        decreases n - i,
    {
        proof {
            lemma_seq_size_subrange(items@, i as int, n as int);
            lemma_seq_size_subrange(items@, 0, n as int);
            assert(items@.subrange(0, n as int) =~= items@);
        }
        let ghost before = *tally;
        let r = validate_tree(&items[i], depth, tally, limits);
        proof {
            lemma_seq_measures_push(items@, i as int);
            assert(items@.skip(i as int)[0] == items@[i as int]);
            assert(items@.skip(i as int).drop_first() =~= items@.skip(i + 1));
        }
        match r {
            Ok(()) => {},
            Err(e) => {
                proof {
                    lemma_seq_measures_split(items@, i as int);
                    assert(!fits_tree(items@[i as int], depth as int, before.components as int, before.bytes as int, limits));
                    assert(!fits(items@, depth as int, c0, b0, limits));
                }
                return Err(e);
            },
        }
        i = i + 1;
    }
    proof {
        assert(items@.subrange(0, n as int) =~= items@);
        assert(items@.skip(n as int) =~= Seq::<CssComponentValue>::empty());
    }
    Ok(())
}

pub proof fn lemma_count_positive(c: CssComponentValue)
    ensures
        tree_count(c) >= 1,
{
}

pub proof fn lemma_bytes_at_least_own(c: CssComponentValue)
    ensures
        tree_bytes(c) >= own_bytes(c),
{
}

/// Measures of a prefix grow by the next component's.
pub proof fn lemma_seq_measures_push(s: Seq<CssComponentValue>, i: int)
    requires
        0 <= i < s.len(),
    ensures
        seq_count(s.subrange(0, i + 1)) == seq_count(s.subrange(0, i)) + tree_count(s[i]),
        seq_bytes(s.subrange(0, i + 1)) == seq_bytes(s.subrange(0, i)) + tree_bytes(s[i]),
        seq_depth(s.subrange(0, i + 1)) == if tree_depth(s[i]) >= seq_depth(s.subrange(0, i)) {
            tree_depth(s[i])
        } else {
            seq_depth(s.subrange(0, i))
        },
    decreases i,
{
    if i == 0 {
        assert(s.subrange(0, 1).drop_first() =~= Seq::<CssComponentValue>::empty());
        assert(s.subrange(0, 0) =~= Seq::<CssComponentValue>::empty());
    } else {
        let t = s.drop_first();
        lemma_seq_measures_push(t, i - 1);
        assert(s.subrange(0, i + 1).drop_first() =~= t.subrange(0, i));
        assert(s.subrange(0, i).drop_first() =~= t.subrange(0, i - 1));
    }
}

/// Measures of a whole sequence are at least those of a prefix and its next component.
pub proof fn lemma_seq_measures_split(s: Seq<CssComponentValue>, i: int)
    requires
        0 <= i < s.len(),
    ensures
        seq_count(s) >= seq_count(s.subrange(0, i)) + tree_count(s[i]),
        seq_bytes(s) >= seq_bytes(s.subrange(0, i)) + tree_bytes(s[i]),
        seq_depth(s) >= seq_depth(s.subrange(0, i)),
        seq_depth(s) >= tree_depth(s[i]),
    decreases s.len(),
{
    if i == 0 {
        assert(s.subrange(0, 0) =~= Seq::<CssComponentValue>::empty());
    } else {
        let t = s.drop_first();
        lemma_seq_measures_split(t, i - 1);
        assert(s.subrange(0, i).drop_first() =~= t.subrange(0, i - 1));
    }
}

/// A list of component values.
#[derive(Debug)]
pub struct CssComponentValues {
    pub items: Vec<CssComponentValue>,
}

impl CssComponentValues {
    pub fn new(items: Vec<CssComponentValue>) -> (r: Self)
        ensures
            r.items@ == items@,
    {
        Self { items }
    }

    pub fn items(&self) -> (r: &Vec<CssComponentValue>)
        ensures
            r@ == self.items@,
    {
        &self.items
    }

    /// Checks nesting depth, component count and serialized bytes against the limits.
    pub fn validate_with_limits(&self, limits: CssComponentValueLimits) -> (r: Result<
        (),
        CssComponentValueError,
    >)
        ensures
            r is Ok <==> fits(self.items@, 0, 0, 0, limits),
            r matches Err(e) ==> limit_error(e.kind),
            match walk_seq(self.items@, 0, 0, 0, limits) {
                Ok(_) => r is Ok,
                Err(e) => r == Err::<(), CssComponentValueError>(e),
            },
    {
        let mut tally = Tally { components: 0, bytes: 0 };
        validate_seq(&self.items, 0, &mut tally, limits)
    }
}

} // verus!
