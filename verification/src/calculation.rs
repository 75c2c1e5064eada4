//! Checked calculation trees. Authored component values are admitted under a root
//! context into a typed expression tree; the grammar is stated as spec functions over
//! the component sequence and every admission function is proved to follow it.

use crate::components::{
    children_of, is_nested, limit_error, seq_size, tree_size, lemma_seq_size_subrange,
    CssBlockKind, CssComponentValue, CssComponentValueError, CssComponentValueErrorKind,
    CssComponentValueLimits, CssComponentValues, CssValueOrigin, fits, default_limits, walk_seq,
};
use crate::numeric_type::{
    add_spec, all_zero, dimension_type, hinted_spec, lemma_arithmetic_percent_free, lemma_dimension_type_powers,
    lemma_with_hint,
    lemma_number_type, lemma_percent_free_number_types, number_type, percent_free, product_spec, single_unit,
    unit_powers, CssCalculationType, CssNumericDimension, CssNumericType, classify,
};
use crate::units::{lemma_same_case_shared, same_ignoring_case, unit_dimension_of, numeric_unit_of, CssNumericUnit};
use vstd::prelude::*;
use vstd::string::StringExecFns;

verus! {

/// Intrinsic rejection of checked numeric construction.
#[derive(Clone, Copy, Debug, PartialEq, Eq, Structural)]
pub enum CssNumericConstructionErrorKind {
    EmptyValue,
    MultipleValues,
    RecoveredComponent,
    SubstitutionRequired,
    MalformedExpression,
    UnknownFunction,
    Arity,
    InvalidArgumentType,
    IncompatibleTypes,
    RootDomainMismatch,
    ResourceLimit,
    Component(CssComponentValueErrorKind),
}

/// A rejection, with the origin of the offending component and, for resource and
/// token failures, the component-level cause. A rejection with a cause carries the
/// cause's origin and the kind that the cause maps to.
#[derive(Clone, Copy, Debug, PartialEq, Eq, Structural)]
pub struct CssNumericConstructionError {
    kind: CssNumericConstructionErrorKind,
    origin: Option<CssValueOrigin>,
    source: Option<CssComponentValueError>,
}

/// The kind of rejection that a component-level cause maps to: resource errors become
/// `ResourceLimit`, token errors keep their kind.
pub open spec fn cause_kind(k: CssComponentValueErrorKind) -> CssNumericConstructionErrorKind {
    if limit_error(k) {
        CssNumericConstructionErrorKind::ResourceLimit
    } else {
        CssNumericConstructionErrorKind::Component(k)
    }
}

/// A rejection without a component-level cause.
pub closed spec fn fail(kind: CssNumericConstructionErrorKind, origin: Option<CssValueOrigin>) -> CssNumericConstructionError {
    CssNumericConstructionError { kind, origin, source: None }
}

/// A rejection caused by a component-level error.
pub closed spec fn component_failure(e: CssComponentValueError) -> CssNumericConstructionError {
    CssNumericConstructionError { kind: cause_kind(e.kind), origin: Some(e.origin), source: Some(e) }
}

impl CssNumericConstructionError {
    pub closed spec fn error_kind(self) -> CssNumericConstructionErrorKind {
        self.kind
    }

    pub closed spec fn error_origin(self) -> Option<CssValueOrigin> {
        self.origin
    }

    pub closed spec fn error_source(self) -> Option<CssComponentValueError> {
        self.source
    }

    /// A cause fixes the origin and the kind.
    #[verifier::type_invariant]
    spec fn caused_consistently(self) -> bool {
        self.source matches Some(c) ==> self.origin == Some(c.origin) && self.kind == cause_kind(c.kind)
    }

    fn at(kind: CssNumericConstructionErrorKind, origin: Option<CssValueOrigin>) -> (r: Self)
        ensures
            r == fail(kind, origin),
    {
        Self { kind, origin, source: None }
    }

    /// Wraps a component-level error.
    pub fn component(e: CssComponentValueError) -> (r: Self)
        ensures
            r == component_failure(e),
    {
        let kind = match e.kind {
            CssComponentValueErrorKind::InvalidToken => CssNumericConstructionErrorKind::Component(
                CssComponentValueErrorKind::InvalidToken,
            ),
            _ => CssNumericConstructionErrorKind::ResourceLimit,
        };
        Self { kind, origin: Some(e.origin), source: Some(e) }
    }

    pub fn kind(&self) -> (r: &CssNumericConstructionErrorKind)
        ensures
            *r == self.error_kind(),
    {
        &self.kind
    }

    pub fn origin(&self) -> (r: Option<&CssValueOrigin>)
        ensures
            r matches Some(o) ==> self.error_origin() == Some(*o),
            r is None <==> self.error_origin() is None,
    {
        match &self.origin {
            Some(o) => Some(o),
            None => None,
        }
    }

    /// The component-level cause, where there is one: the rejection then has the
    /// cause's origin and the kind that the cause maps to.
    pub fn component_error(&self) -> (r: Option<&CssComponentValueError>)
        ensures
            r matches Some(e) ==> self.error_source() == Some(*e),
            r is None <==> self.error_source() is None,
            r matches Some(e) ==> self.error_origin() == Some(e.origin) && self.error_kind()
                == cause_kind(e.kind),
    {
        proof {
            use_type_invariant(self);
        }
        match &self.source {
            Some(e) => Some(e),
            None => None,
        }
    }
}

/// What a rejection without a cause holds, and what a caused one holds.
pub proof fn lemma_failure_fields(
    kind: CssNumericConstructionErrorKind,
    origin: Option<CssValueOrigin>,
    e: CssComponentValueError,
)
    ensures
        fail(kind, origin).error_kind() == kind,
        fail(kind, origin).error_origin() == origin,
        fail(kind, origin).error_source() is None,
        component_failure(e).error_kind() == cause_kind(e.kind),
        component_failure(e).error_origin() == Some(e.origin),
        component_failure(e).error_source() == Some(e),
{
}

#[derive(Clone, Copy, Debug, PartialEq, Eq, Structural)]
pub enum CssNumericConstant {
    E,
    Pi,
    Infinity,
    NegativeInfinity,
    NaN,
}

pub open spec fn constant_name(c: CssNumericConstant) -> &'static str {
    match c {
        CssNumericConstant::E => "e",
        CssNumericConstant::Pi => "pi",
        CssNumericConstant::Infinity => "infinity",
        CssNumericConstant::NegativeInfinity => "-infinity",
        CssNumericConstant::NaN => "NaN",
    }
}

/// The constant an identifier names, ignoring ASCII case.
pub open spec fn constant_of(name: Seq<char>) -> Option<CssNumericConstant> {
    if same_ignoring_case(name, "e"@) {
        Some(CssNumericConstant::E)
    } else if same_ignoring_case(name, "pi"@) {
        Some(CssNumericConstant::Pi)
    } else if same_ignoring_case(name, "infinity"@) {
        Some(CssNumericConstant::Infinity)
    } else if same_ignoring_case(name, "-infinity"@) {
        Some(CssNumericConstant::NegativeInfinity)
    } else if same_ignoring_case(name, "nan"@) {
        Some(CssNumericConstant::NaN)
    } else {
        None
    }
}

impl CssNumericConstant {
    pub fn name(self) -> (r: &'static str)
        ensures
            r@ == constant_name(self)@,
    {
        match self {
            CssNumericConstant::E => "e",
            CssNumericConstant::Pi => "pi",
            CssNumericConstant::Infinity => "infinity",
            CssNumericConstant::NegativeInfinity => "-infinity",
            CssNumericConstant::NaN => "NaN",
        }
    }
}

#[derive(Clone, Copy, Debug, PartialEq, Eq, Structural)]
pub enum CssMathFunction {
    Calc,
    Min,
    Max,
    Clamp,
    Round,
    Mod,
    Rem,
    Sin,
    Cos,
    Tan,
    Asin,
    Acos,
    Atan,
    Atan2,
    Pow,
    Sqrt,
    Hypot,
    Log,
    Exp,
    Abs,
    Sign,
}

pub open spec fn function_name(f: CssMathFunction) -> &'static str {
    match f {
        CssMathFunction::Calc => "calc",
        CssMathFunction::Min => "min",
        CssMathFunction::Max => "max",
        CssMathFunction::Clamp => "clamp",
        CssMathFunction::Round => "round",
        CssMathFunction::Mod => "mod",
        CssMathFunction::Rem => "rem",
        CssMathFunction::Sin => "sin",
        CssMathFunction::Cos => "cos",
        CssMathFunction::Tan => "tan",
        CssMathFunction::Asin => "asin",
        CssMathFunction::Acos => "acos",
        CssMathFunction::Atan => "atan",
        CssMathFunction::Atan2 => "atan2",
        CssMathFunction::Pow => "pow",
        CssMathFunction::Sqrt => "sqrt",
        CssMathFunction::Hypot => "hypot",
        CssMathFunction::Log => "log",
        CssMathFunction::Exp => "exp",
        CssMathFunction::Abs => "abs",
        CssMathFunction::Sign => "sign",
    }
}

/// The position of a function in declaration order.
pub open spec fn function_at(i: int) -> CssMathFunction {
    if i == 0 { CssMathFunction::Calc }
    else if i == 1 { CssMathFunction::Min }
    else if i == 2 { CssMathFunction::Max }
    else if i == 3 { CssMathFunction::Clamp }
    else if i == 4 { CssMathFunction::Round }
    else if i == 5 { CssMathFunction::Mod }
    else if i == 6 { CssMathFunction::Rem }
    else if i == 7 { CssMathFunction::Sin }
    else if i == 8 { CssMathFunction::Cos }
    else if i == 9 { CssMathFunction::Tan }
    else if i == 10 { CssMathFunction::Asin }
    else if i == 11 { CssMathFunction::Acos }
    else if i == 12 { CssMathFunction::Atan }
    else if i == 13 { CssMathFunction::Atan2 }
    else if i == 14 { CssMathFunction::Pow }
    else if i == 15 { CssMathFunction::Sqrt }
    else if i == 16 { CssMathFunction::Hypot }
    else if i == 17 { CssMathFunction::Log }
    else if i == 18 { CssMathFunction::Exp }
    else if i == 19 { CssMathFunction::Abs }
    else { CssMathFunction::Sign }
}

/// The first function, in declaration order from `i`, whose name `name` spells.
pub open spec fn function_from(name: Seq<char>, i: int) -> Option<CssMathFunction>
    decreases 21 - i,
{
    if i >= 21 || i < 0 {
        None
    } else if same_ignoring_case(name, function_name(function_at(i))@) {
        Some(function_at(i))
    } else {
        function_from(name, i + 1)
    }
}

/// The math function a name spells, ignoring ASCII case.
pub open spec fn math_function_of(name: Seq<char>) -> Option<CssMathFunction> {
    function_from(name, 0)
}

impl CssMathFunction {
    fn at(i: usize) -> (r: Self)
        requires
            i < 21,
        ensures
            r == function_at(i as int),
    {
        if i == 0 { CssMathFunction::Calc }
        else if i == 1 { CssMathFunction::Min }
        else if i == 2 { CssMathFunction::Max }
        else if i == 3 { CssMathFunction::Clamp }
        else if i == 4 { CssMathFunction::Round }
        else if i == 5 { CssMathFunction::Mod }
        else if i == 6 { CssMathFunction::Rem }
        else if i == 7 { CssMathFunction::Sin }
        else if i == 8 { CssMathFunction::Cos }
        else if i == 9 { CssMathFunction::Tan }
        else if i == 10 { CssMathFunction::Asin }
        else if i == 11 { CssMathFunction::Acos }
        else if i == 12 { CssMathFunction::Atan }
        else if i == 13 { CssMathFunction::Atan2 }
        else if i == 14 { CssMathFunction::Pow }
        else if i == 15 { CssMathFunction::Sqrt }
        else if i == 16 { CssMathFunction::Hypot }
        else if i == 17 { CssMathFunction::Log }
        else if i == 18 { CssMathFunction::Exp }
        else if i == 19 { CssMathFunction::Abs }
        else { CssMathFunction::Sign }
    }

    pub fn name(self) -> (r: &'static str)
        ensures
            r@ == function_name(self)@,
    {
        match self {
            CssMathFunction::Calc => "calc",
            CssMathFunction::Min => "min",
            CssMathFunction::Max => "max",
            CssMathFunction::Clamp => "clamp",
            CssMathFunction::Round => "round",
            CssMathFunction::Mod => "mod",
            CssMathFunction::Rem => "rem",
            CssMathFunction::Sin => "sin",
            CssMathFunction::Cos => "cos",
            CssMathFunction::Tan => "tan",
            CssMathFunction::Asin => "asin",
            CssMathFunction::Acos => "acos",
            CssMathFunction::Atan => "atan",
            CssMathFunction::Atan2 => "atan2",
            CssMathFunction::Pow => "pow",
            CssMathFunction::Sqrt => "sqrt",
            CssMathFunction::Hypot => "hypot",
            CssMathFunction::Log => "log",
            CssMathFunction::Exp => "exp",
            CssMathFunction::Abs => "abs",
            CssMathFunction::Sign => "sign",
        }
    }

    /// The function a name spells, ignoring ASCII case.
    pub fn parse(name: &str) -> (r: Option<Self>)
        ensures
            r == math_function_of(name@),
    {
        let mut i: usize = 0;
        while i < 21
            invariant
                i <= 21,
                function_from(name@, 0) == function_from(name@, i as int),
            decreases 21 - i,
        {
            let f = Self::at(i);
            if crate::units::eq_ignore_ascii_case(name, f.name()) {
                return Some(f);
            }
            i = i + 1;
        }
        None
    }
}

/// Whether a name spells a math function.
pub fn is_math_function(name: &str) -> (r: bool)
    ensures
        r == (math_function_of(name@) is Some),
{
    CssMathFunction::parse(name).is_some()
}

#[derive(Clone, Copy, Debug, PartialEq, Eq, Structural)]
pub enum CssRoundingStrategy {
    Nearest,
    Up,
    Down,
    ToZero,
}

pub open spec fn strategy_name(s: CssRoundingStrategy) -> &'static str {
    match s {
        CssRoundingStrategy::Nearest => "nearest",
        CssRoundingStrategy::Up => "up",
        CssRoundingStrategy::Down => "down",
        CssRoundingStrategy::ToZero => "to-zero",
    }
}

impl CssRoundingStrategy {
    pub fn name(self) -> (r: &'static str)
        ensures
            r@ == strategy_name(self)@,
    {
        match self {
            CssRoundingStrategy::Nearest => "nearest",
            CssRoundingStrategy::Up => "up",
            CssRoundingStrategy::Down => "down",
            CssRoundingStrategy::ToZero => "to-zero",
        }
    }
}

/// A rounding strategy's canonical name, in any ASCII case, is read back as that same
/// strategy.
pub proof fn lemma_strategy_name_round_trip(st: CssRoundingStrategy, c: CssComponentValue)
    requires
        c matches CssComponentValue::Ident { name, .. } && same_ignoring_case(name@, strategy_name(st)@),
    ensures
        strategy_of(c) == Some(st),
{
    reveal_strlit("nearest");
    reveal_strlit("up");
    reveal_strlit("down");
    reveal_strlit("to-zero");
    let n = c->Ident_name@;
    let k = strategy_name(st)@;
    lemma_same_case_shared(n, k, "nearest"@);
    lemma_same_case_shared(n, k, "up"@);
    lemma_same_case_shared(n, k, "down"@);
    lemma_same_case_shared(n, k, "to-zero"@);
    lemma_differs("nearest"@, "to-zero"@, 0);
    lemma_differs("to-zero"@, "nearest"@, 0);
    assert(same_ignoring_case(k, k));
}

/// A constant's canonical name, in any ASCII case, is read back as that same constant.
pub proof fn lemma_constant_name_round_trip(k: CssNumericConstant, name: Seq<char>)
    requires
        same_ignoring_case(name, constant_name(k)@),
    ensures
        constant_of(name) == Some(k),
{
    reveal_strlit("e");
    reveal_strlit("pi");
    reveal_strlit("infinity");
    reveal_strlit("-infinity");
    reveal_strlit("NaN");
    reveal_strlit("nan");
    let w = constant_name(k)@;
    lemma_same_case_shared(name, w, "e"@);
    lemma_same_case_shared(name, w, "pi"@);
    lemma_same_case_shared(name, w, "infinity"@);
    lemma_same_case_shared(name, w, "-infinity"@);
    lemma_same_case_shared(name, w, "nan"@);
    assert(same_ignoring_case("NaN"@, "nan"@));
    assert(same_ignoring_case(w, w));
}

#[derive(Clone, Copy, Debug, PartialEq, Eq, Structural)]
pub enum CssCalculationSumOperator {
    Add,
    Subtract,
}

#[derive(Clone, Copy, Debug, PartialEq, Eq, Structural)]
pub enum CssCalculationProductOperator {
    Multiply,
    Divide,
}

/// The context a calculation root is admitted under.
#[derive(Clone, Copy, Debug, PartialEq, Eq, Structural)]
pub enum CalculationRoot {
    NamedDimensionOrNumber,
    Number,
    Integer,
    Percentage,
    Length,
    LengthPercentage,
    Angle,
    Time,
    Frequency,
    Resolution,
}

/// The percentage basis a root gives its percentages.
pub open spec fn root_hint(root: CalculationRoot) -> Option<CssNumericDimension> {
    if root is LengthPercentage {
        Some(CssNumericDimension::Length)
    } else {
        None
    }
}

pub open spec fn is_type(t: CssNumericType, d: CssNumericDimension) -> bool {
    t.powers() == unit_powers(d)
}

/// Whether a root admits a result type.
pub open spec fn root_accepts(root: CalculationRoot, t: CssNumericType) -> bool {
    let plain = t.hint_of() is None;
    match root {
        CalculationRoot::NamedDimensionOrNumber => plain && (all_zero(t.powers()) || is_type(t, CssNumericDimension::Length)
            || is_type(t, CssNumericDimension::Angle) || is_type(t, CssNumericDimension::Time)
            || is_type(t, CssNumericDimension::Frequency) || is_type(t, CssNumericDimension::Resolution)
            || is_type(t, CssNumericDimension::Flex)),
        CalculationRoot::Number => all_zero(t.powers()) && plain,
        CalculationRoot::Integer => all_zero(t.powers()) && plain,
        CalculationRoot::Percentage => is_type(t, CssNumericDimension::Percentage) && plain,
        CalculationRoot::Length => is_type(t, CssNumericDimension::Length) && plain,
        CalculationRoot::LengthPercentage => is_type(t, CssNumericDimension::Length),
        CalculationRoot::Angle => is_type(t, CssNumericDimension::Angle) && plain,
        CalculationRoot::Time => is_type(t, CssNumericDimension::Time) && plain,
        CalculationRoot::Frequency => is_type(t, CssNumericDimension::Frequency) && plain,
        CalculationRoot::Resolution => is_type(t, CssNumericDimension::Resolution) && plain,
    }
}

/// A percentage type takes the root's percentage basis.
pub open spec fn promote(t: CssNumericType, root: CalculationRoot) -> CssNumericType {
    match root_hint(root) {
        Some(h) => if is_type(t, CssNumericDimension::Percentage) && hinted_spec(t, h) is Some {
            hinted_spec(t, h)->Some_0
        } else {
            t
        },
        None => t,
    }
}

/// A type that a root's percentage basis leaves unchanged: under a basis, no
/// percentage exponent is left.
pub open spec fn root_resolved(root: CalculationRoot, t: CssNumericType) -> bool {
    root_hint(root) is Some ==> percent_free(t)
}

/// Promotion leaves a resolved type unchanged.
proof fn lemma_promote_resolved(t: CssNumericType, root: CalculationRoot)
    requires
        root_resolved(root, t),
    ensures
        promote(t, root) == t,
{
    if root_hint(root) is Some && is_type(t, CssNumericDimension::Percentage) {
        assert(t.powers()[6] == unit_powers(CssNumericDimension::Percentage)[6]);
    }
}

/// A token's type is resolved once promoted.
proof fn lemma_promote_token(t: CssNumericType, root: CalculationRoot)
    requires
        percent_free(t) || t == dimension_type(CssNumericDimension::Percentage),
    ensures
        root_resolved(root, promote(t, root)),
{
    lemma_dimension_type_powers(CssNumericDimension::Percentage, CssNumericDimension::Length);
    if !percent_free(t) && root_hint(root) is Some {
        assert(is_type(t, CssNumericDimension::Percentage));
    }
}

proof fn lemma_common_type_resolved(ts: Seq<CssNumericType>, root: CalculationRoot)
    requires
        forall|i: int| 0 <= i < ts.len() ==> root_resolved(root, #[trigger] ts[i]),
    ensures
        common_type(ts) matches Some(t) ==> root_resolved(root, t),
    decreases ts.len(),
{
    if ts.len() > 1 {
        let d = ts.drop_last();
        assert forall|i: int| 0 <= i < d.len() implies root_resolved(root, #[trigger] d[i]) by {
            assert(d[i] == ts[i]);
        }
        lemma_common_type_resolved(d, root);
        if let Some(a) = common_type(d) {
            if root_hint(root) is Some {
                assert(root_resolved(root, ts[ts.len() - 1]));
                lemma_arithmetic_percent_free(a, ts.last(), false);
            }
        }
    } else if ts.len() == 1 {
        assert(root_resolved(root, ts[0]));
    }
}

proof fn lemma_types_of_resolved(args: Seq<Option<CalcView>>, root: CalculationRoot)
    requires
        forall|i: int| 0 <= i < args.len() ==> ((#[trigger] args[i]) matches Some(v) ==> root_resolved(root, v.ty)),
    ensures
        forall|i: int| 0 <= i < types_of(args).len() ==> root_resolved(root, #[trigger] types_of(args)[i]),
    decreases args.len(),
{
    if args.len() > 0 {
        let d = args.drop_last();
        assert forall|i: int| 0 <= i < d.len() implies ((#[trigger] d[i]) matches Some(v) ==> root_resolved(root, v.ty)) by {
            assert(d[i] == args[i]);
        }
        lemma_types_of_resolved(d, root);
        assert(args.last() == args[args.len() - 1]);
        let rest = types_of(d);
        match args.last() {
            Some(v) => {
                assert(types_of(args) == rest.push(v.ty));
                assert forall|i: int| 0 <= i < types_of(args).len() implies root_resolved(root, #[trigger] types_of(args)[i]) by {
                    if i < rest.len() {
                        assert(types_of(args)[i] == rest[i]);
                    }
                }
            },
            None => {
                assert(types_of(args) == rest);
            },
        }
    }
}

/// A math function over resolved argument types has a resolved result type.
proof fn lemma_function_type_resolved(
    f: CssMathFunction,
    n: int,
    ts: Seq<CssNumericType>,
    origin: CssValueOrigin,
    root: CalculationRoot,
)
    requires
        ts.len() >= 1,
        forall|i: int| 0 <= i < ts.len() ==> root_resolved(root, #[trigger] ts[i]),
    ensures
        function_type(f, n, ts, origin) matches Ok(t) ==> root_resolved(root, t),
{
    assert(root_resolved(root, ts[0]));
    lemma_common_type_resolved(ts, root);
    lemma_percent_free_number_types(ts[0].hint_of());
    if let Some(t) = common_type(ts) {
        lemma_percent_free_number_types(t.hint_of());
    }
}

/// One node of a checked calculation, as a mathematical value.
pub enum CalcKind {
    Value(CssComponentValue),
    Constant(CssNumericConstant),
    Sum(Seq<(Option<CssCalculationSumOperator>, Option<CssValueOrigin>, CalcView)>),
    Product(Seq<(Option<CssCalculationProductOperator>, Option<CssValueOrigin>, CalcView)>),
    Group(Box<CalcView>),
    Function(CssMathFunction, Seq<Option<CalcView>>, Option<CssRoundingStrategy>),
}

pub struct CalcView {
    pub kind: CalcKind,
    pub ty: CssNumericType,
    pub origin: CssValueOrigin,
    pub closing: Option<CssValueOrigin>,
}

pub type ParseOutcome = Result<(CalcView, int), CssNumericConstructionError>;

/// Whitespace carries no meaning between calculation terms.
pub open spec fn trivia(c: CssComponentValue) -> bool {
    c is Whitespace
}

/// The first position from `i` on that is not trivia, or `hi`.
pub open spec fn skip_spec(items: Seq<CssComponentValue>, i: int, hi: int) -> int
    decreases hi - i,
{
    if i < hi && 0 <= i < items.len() && trivia(items[i]) {
        skip_spec(items, i + 1, hi)
    } else {
        i
    }
}

/// The origin of the last significant component of `items[lo..hi]`.
pub open spec fn last_significant(items: Seq<CssComponentValue>, lo: int, hi: int) -> Option<CssValueOrigin>
    decreases hi - lo,
{
    if hi <= lo || hi > items.len() || lo < 0 {
        None
    } else if !trivia(items[hi - 1]) {
        Some(items[hi - 1].origin_of())
    } else {
        last_significant(items, lo, hi - 1)
    }
}

/// Where a grammar error at position `i` of `items[lo..hi]` is reported: the component
/// there, else the last significant component.
pub open spec fn site(items: Seq<CssComponentValue>, lo: int, hi: int, i: int) -> Option<CssValueOrigin> {
    if lo <= i < hi {
        Some(items[i].origin_of())
    } else {
        last_significant(items, lo, hi)
    }
}

/// A leaf or an error for one token.
#[verifier::opaque]
pub open spec fn parse_token_spec(c: CssComponentValue, root: CalculationRoot) -> Result<CalcView, CssNumericConstructionError> {
    let base: Result<(CalcKind, CssNumericType), CssNumericConstructionError> = match c {
        CssComponentValue::Number { .. } => Ok((CalcKind::Value(c), number_type())),
        CssComponentValue::Percentage { .. } => Ok((CalcKind::Value(c), dimension_type(CssNumericDimension::Percentage))),
        CssComponentValue::Dimension { unit, .. } => match unit_dimension_of(unit@) {
            Some(d) => Ok((CalcKind::Value(c), dimension_type(d))),
            None => Err(fail(CssNumericConstructionErrorKind::InvalidArgumentType, Some(c.origin_of()))),
        },
        CssComponentValue::Ident { name, .. } => match constant_of(name@) {
            Some(k) => Ok((CalcKind::Constant(k), number_type())),
            None => Err(fail(CssNumericConstructionErrorKind::InvalidArgumentType, Some(c.origin_of()))),
        },
        _ => Err(fail(CssNumericConstructionErrorKind::MalformedExpression, Some(c.origin_of()))),
    };
    match base {
        Ok((kind, ty)) => Ok(CalcView { kind, ty: promote(ty, root), origin: c.origin_of(), closing: None }),
        Err(e) => Err(e),
    }
}

/// One value at position `i`: a token, or an already checked nested component.
#[verifier::opaque]
pub open spec fn value_parse(
    items: Seq<CssComponentValue>,
    lo: int,
    hi: int,
    i: int,
    ready: Seq<Option<CalcView>>,
    root: CalculationRoot,
) -> ParseOutcome {
    let j = skip_spec(items, i, hi);
    if j >= hi || j < 0 || j >= items.len() {
        Err(fail(CssNumericConstructionErrorKind::MalformedExpression, site(items, lo, hi, j)))
    } else if is_nested(items[j]) {
        match ready[j] {
            Some(v) => Ok((v, j + 1)),
            None => Err(fail(CssNumericConstructionErrorKind::MalformedExpression, Some(items[j].origin_of()))),
        }
    } else {
        match parse_token_spec(items[j], root) {
            Ok(v) => Ok((v, j + 1)),
            Err(e) => Err(e),
        }
    }
}

pub open spec fn delim_at(items: Seq<CssComponentValue>, k: int, a: char, b: char) -> bool {
    0 <= k < items.len() && (items[k] matches CssComponentValue::Delim { value, .. } && (value == a || value == b))
}

pub open spec fn delim_char(c: CssComponentValue) -> char {
    match c {
        CssComponentValue::Delim { value, .. } => value,
        _ => ' ',
    }
}

/// A product node of the collected factors, or the single factor itself.
pub open spec fn product_node(
    factors: Seq<(Option<CssCalculationProductOperator>, Option<CssValueOrigin>, CalcView)>,
    ty: CssNumericType,
) -> CalcView {
    if factors.len() == 1 {
        factors[0].2
    } else {
        CalcView { kind: CalcKind::Product(factors), ty, origin: factors[0].2.origin, closing: None }
    }
}

/// A sum node of the collected terms, or the single term itself.
pub open spec fn sum_node(
    terms: Seq<(Option<CssCalculationSumOperator>, Option<CssValueOrigin>, CalcView)>,
    ty: CssNumericType,
) -> CalcView {
    if terms.len() == 1 {
        terms[0].2
    } else {
        CalcView { kind: CalcKind::Sum(terms), ty, origin: terms[0].2.origin, closing: None }
    }
}

/// Further `*` or `/` factors after position `j`.
pub open spec fn product_more(
    items: Seq<CssComponentValue>,
    lo: int,
    hi: int,
    j: int,
    ready: Seq<Option<CalcView>>,
    root: CalculationRoot,
    ty: CssNumericType,
    factors: Seq<(Option<CssCalculationProductOperator>, Option<CssValueOrigin>, CalcView)>,
) -> ParseOutcome
    decreases hi - j,
{
    let k = skip_spec(items, j, hi);
    if k < hi && delim_at(items, k, '*', '/') {
        let divide = delim_char(items[k]) == '/';
        let op = if divide {
            CssCalculationProductOperator::Divide
        } else {
            CssCalculationProductOperator::Multiply
        };
        let m = skip_spec(items, k + 1, hi);
        let right_site = if lo <= m < hi { Some(items[m].origin_of()) } else { None };
        match value_parse(items, lo, hi, m, ready, root) {
            Err(e) => Err(e),
            Ok((rv, n)) => if ty.hint_of() is Some && rv.ty.hint_of() is Some && ty.hint_of() != rv.ty.hint_of() {
                Err(fail(CssNumericConstructionErrorKind::IncompatibleTypes, right_site))
            } else {
                match product_spec(ty, rv.ty, divide) {
                    None => Err(component_failure(CssComponentValueError {
                        kind: CssComponentValueErrorKind::CapacityOverflow,
                        origin: items[m].origin_of(),
                    })),
                    Some(t) => if j < n <= hi {
                        product_more(items, lo, hi, n, ready, root, t, factors.push((Some(op), Some(items[k].origin_of()), rv)))
                    } else {
                        Ok((product_node(factors, ty), j))
                    },
                }
            },
        }
    } else {
        Ok((product_node(factors, ty), j))
    }
}

/// A product of values from position `i`.
#[verifier::opaque]
pub open spec fn product_parse(
    items: Seq<CssComponentValue>,
    lo: int,
    hi: int,
    i: int,
    ready: Seq<Option<CalcView>>,
    root: CalculationRoot,
) -> ParseOutcome {
    match value_parse(items, lo, hi, i, ready, root) {
        Err(e) => Err(e),
        Ok((v, j)) => product_more(items, lo, hi, j, ready, root, v.ty, seq![(None, None, v)]),
    }
}

/// Further `+` or `-` terms after position `j`; each operator has whitespace on both sides.
pub open spec fn sum_more(
    items: Seq<CssComponentValue>,
    lo: int,
    hi: int,
    j: int,
    ready: Seq<Option<CalcView>>,
    root: CalculationRoot,
    ty: CssNumericType,
    terms: Seq<(Option<CssCalculationSumOperator>, Option<CssValueOrigin>, CalcView)>,
) -> ParseOutcome
    decreases hi - j,
{
    let k = skip_spec(items, j, hi);
    if k < hi && delim_at(items, k, '+', '-') {
        let op = if delim_char(items[k]) == '-' {
            CssCalculationSumOperator::Subtract
        } else {
            CssCalculationSumOperator::Add
        };
        if k == j {
            Err(fail(CssNumericConstructionErrorKind::MalformedExpression, site(items, lo, hi, k)))
        } else {
            let m = skip_spec(items, k + 1, hi);
            if m == k + 1 {
                Err(fail(CssNumericConstructionErrorKind::MalformedExpression, site(items, lo, hi, k + 1)))
            } else {
                let right_site = if lo <= m < hi { Some(items[m].origin_of()) } else { None };
                match product_parse(items, lo, hi, m, ready, root) {
                    Err(e) => Err(e),
                    Ok((rv, n)) => match add_spec(ty, rv.ty) {
                        None => Err(fail(CssNumericConstructionErrorKind::IncompatibleTypes, right_site)),
                        Some(t) => if j < n <= hi {
                            sum_more(items, lo, hi, n, ready, root, t, terms.push((Some(op), Some(items[k].origin_of()), rv)))
                        } else {
                            Ok((sum_node(terms, ty), j))
                        },
                    },
                }
            }
        }
    } else {
        Ok((sum_node(terms, ty), j))
    }
}

/// A sum of products from position `i`.
#[verifier::opaque]
pub open spec fn sum_parse(
    items: Seq<CssComponentValue>,
    lo: int,
    hi: int,
    i: int,
    ready: Seq<Option<CalcView>>,
    root: CalculationRoot,
) -> ParseOutcome {
    match product_parse(items, lo, hi, i, ready, root) {
        Err(e) => Err(e),
        Ok((v, j)) => sum_more(items, lo, hi, j, ready, root, v.ty, seq![(None, None, v)]),
    }
}

/// The whole of `items[lo..hi]` as one sum.
#[verifier::opaque]
pub open spec fn sequence_parse(
    items: Seq<CssComponentValue>,
    lo: int,
    hi: int,
    ready: Seq<Option<CalcView>>,
    root: CalculationRoot,
) -> Result<CalcView, CssNumericConstructionError> {
    match sum_parse(items, lo, hi, lo, ready, root) {
        Err(e) => Err(e),
        Ok((v, j)) => {
            let k = skip_spec(items, j, hi);
            if k != hi {
                Err(fail(CssNumericConstructionErrorKind::MalformedExpression, site(items, lo, hi, k)))
            } else {
                Ok(v)
            }
        },
    }
}

/// The argument ranges of a function's children, split at commas, scanning from `p`
/// with the current range starting at `start`.
pub open spec fn segments_scan(items: Seq<CssComponentValue>, p: int, start: int) -> Seq<(int, int)>
    decreases items.len() - p,
{
    if p >= items.len() || p < 0 {
        seq![(start, items.len() as int)]
    } else if items[p] is Comma {
        seq![(start, p)] + segments_scan(items, p + 1, p + 1)
    } else {
        segments_scan(items, p + 1, start)
    }
}

/// Significant components in `items[lo..hi]`.
pub open spec fn count_significant(items: Seq<CssComponentValue>, lo: int, hi: int) -> nat
    decreases hi - lo,
{
    if hi <= lo || lo < 0 || hi > items.len() {
        0
    } else if trivia(items[lo]) {
        count_significant(items, lo + 1, hi)
    } else {
        1 + count_significant(items, lo + 1, hi)
    }
}

/// Whether a component is the identifier `name`, ignoring ASCII case.
pub open spec fn ident_is(c: CssComponentValue, name: Seq<char>) -> bool {
    c matches CssComponentValue::Ident { name: n, .. } && same_ignoring_case(n@, name)
}

pub open spec fn strategy_of(c: CssComponentValue) -> Option<CssRoundingStrategy> {
    if ident_is(c, "nearest"@) {
        Some(CssRoundingStrategy::Nearest)
    } else if ident_is(c, "up"@) {
        Some(CssRoundingStrategy::Up)
    } else if ident_is(c, "down"@) {
        Some(CssRoundingStrategy::Down)
    } else if ident_is(c, "to-zero"@) {
        Some(CssRoundingStrategy::ToZero)
    } else {
        None
    }
}

/// A leading rounding strategy: the first range holds exactly one significant
/// component, which names a strategy.
pub open spec fn leading_strategy(items: Seq<CssComponentValue>, segs: Seq<(int, int)>) -> Option<CssRoundingStrategy> {
    let lo = segs[0].0;
    let hi = segs[0].1;
    if count_significant(items, lo, hi) == 1 {
        strategy_of(items[skip_spec(items, lo, hi)])
    } else {
        None
    }
}

pub open spec fn arity_ok(f: CssMathFunction, n: int) -> bool {
    match f {
        CssMathFunction::Min | CssMathFunction::Max | CssMathFunction::Hypot => n >= 1,
        CssMathFunction::Clamp => n == 3,
        CssMathFunction::Round | CssMathFunction::Log => 1 <= n <= 2,
        CssMathFunction::Mod | CssMathFunction::Rem | CssMathFunction::Atan2 | CssMathFunction::Pow => n == 2,
        _ => n == 1,
    }
}

/// The argument in `items[lo..hi]`, the range at position `idx`; `clamp` takes `none`
/// for an absent bound.
#[verifier::opaque]
pub open spec fn arg_parse(
    items: Seq<CssComponentValue>,
    lo: int,
    hi: int,
    idx: int,
    ready: Seq<Option<CalcView>>,
    root: CalculationRoot,
    f: CssMathFunction,
    origin: CssValueOrigin,
) -> Result<Option<CalcView>, CssNumericConstructionError> {
    let n = count_significant(items, lo, hi);
    if n == 0 {
        Err(fail(CssNumericConstructionErrorKind::Arity, Some(origin)))
    } else if f is Clamp && idx != 1 && n == 1 && ident_is(items[skip_spec(items, lo, hi)], "none"@) {
        Ok(None)
    } else {
        match sequence_parse(items, lo, hi, ready, root) {
            Ok(v) => Ok(Some(v)),
            Err(e) => Err(e),
        }
    }
}

/// The arguments of the ranges from `idx` on; `clamp` takes `none` for an absent bound.
pub open spec fn args_parse(
    items: Seq<CssComponentValue>,
    segs: Seq<(int, int)>,
    idx: int,
    ready: Seq<Option<CalcView>>,
    root: CalculationRoot,
    f: CssMathFunction,
    origin: CssValueOrigin,
) -> Result<Seq<Option<CalcView>>, CssNumericConstructionError>
    decreases segs.len() - idx,
{
    if idx >= segs.len() || idx < 0 {
        Ok(Seq::empty())
    } else {
        match arg_parse(items, segs[idx].0, segs[idx].1, idx, ready, root, f, origin) {
            Err(e) => Err(e),
            Ok(a) => match args_parse(items, segs, idx + 1, ready, root, f, origin) {
                Err(e) => Err(e),
                Ok(rest) => Ok(seq![a] + rest),
            },
        }
    }
}

/// The types of the present arguments, in order.
pub open spec fn types_of(args: Seq<Option<CalcView>>) -> Seq<CssNumericType>
    decreases args.len(),
{
    if args.len() == 0 {
        Seq::empty()
    } else {
        let rest = types_of(args.drop_last());
        match args.last() {
            Some(v) => rest.push(v.ty),
            None => rest,
        }
    }
}

/// The types added left to right.
pub open spec fn common_type(ts: Seq<CssNumericType>) -> Option<CssNumericType>
    decreases ts.len(),
{
    if ts.len() == 0 {
        None
    } else if ts.len() == 1 {
        Some(ts[0])
    } else {
        match common_type(ts.drop_last()) {
            None => None,
            Some(a) => add_spec(a, ts.last()),
        }
    }
}

pub open spec fn simple_type(t: CssNumericType) -> bool {
    all_zero(t.powers()) || single_unit(t.powers())
}

pub open spec fn common_or_fail(ts: Seq<CssNumericType>, origin: CssValueOrigin) -> Result<CssNumericType, CssNumericConstructionError> {
    match common_type(ts) {
        Some(t) => Ok(t),
        None => Err(fail(CssNumericConstructionErrorKind::IncompatibleTypes, Some(origin))),
    }
}

/// The result type of a math function over argument types `ts`.
pub open spec fn function_type(f: CssMathFunction, n_args: int, ts: Seq<CssNumericType>, origin: CssValueOrigin) -> Result<CssNumericType, CssNumericConstructionError> {
    let invalid = fail(CssNumericConstructionErrorKind::InvalidArgumentType, Some(origin));
    match f {
        CssMathFunction::Calc | CssMathFunction::Abs => Ok(ts[0]),
        CssMathFunction::Min | CssMathFunction::Max | CssMathFunction::Clamp | CssMathFunction::Hypot
        | CssMathFunction::Mod | CssMathFunction::Rem => common_or_fail(ts, origin),
        CssMathFunction::Round => if n_args == 1 && !all_zero(ts[0].powers()) {
            Err(invalid)
        } else {
            common_or_fail(ts, origin)
        },
        CssMathFunction::Sin | CssMathFunction::Cos | CssMathFunction::Tan => if !all_zero(ts[0].powers())
            && !is_type(ts[0], CssNumericDimension::Angle) {
            Err(invalid)
        } else {
            Ok(number_type().with_hint_spec(ts[0].hint_of()))
        },
        CssMathFunction::Asin | CssMathFunction::Acos | CssMathFunction::Atan => if !all_zero(ts[0].powers()) {
            Err(invalid)
        } else {
            Ok(dimension_type(CssNumericDimension::Angle).with_hint_spec(ts[0].hint_of()))
        },
        CssMathFunction::Atan2 => match common_or_fail(ts, origin) {
            Ok(t) => Ok(dimension_type(CssNumericDimension::Angle).with_hint_spec(t.hint_of())),
            Err(e) => Err(e),
        },
        CssMathFunction::Pow | CssMathFunction::Sqrt | CssMathFunction::Log | CssMathFunction::Exp => if exists|i: int| 0 <= i < ts.len() && !all_zero(#[trigger] ts[i].powers()) {
            Err(invalid)
        } else {
            common_or_fail(ts, origin)
        },
        CssMathFunction::Sign => Ok(number_type().with_hint_spec(ts[0].hint_of())),
    }
}

/// What a math function's result is, whatever its arguments: `sign()` and the
/// trigonometric functions give a number, the inverse trigonometric functions give an
/// angle, each keeping the first argument's percentage basis (the common one for
/// `atan2()`), and `calc()` and `abs()` give their argument's type.
pub proof fn lemma_function_result_types(f: CssMathFunction, n: int, ts: Seq<CssNumericType>, origin: CssValueOrigin)
    requires
        ts.len() >= 1,
    ensures
        function_type(f, n, ts, origin) matches Ok(t) ==> {
            &&& (f is Sign || f is Sin || f is Cos || f is Tan) ==> all_zero(t.powers()) && t.hint_of()
                == ts[0].hint_of()
            &&& (f is Asin || f is Acos || f is Atan) ==> is_type(t, CssNumericDimension::Angle) && t.hint_of()
                == ts[0].hint_of()
            &&& f is Atan2 ==> is_type(t, CssNumericDimension::Angle)
            &&& (f is Calc || f is Abs) ==> t == ts[0]
        },
        (f is Sin || f is Cos || f is Tan) && !all_zero(ts[0].powers()) && !is_type(ts[0], CssNumericDimension::Angle)
            ==> function_type(f, n, ts, origin) is Err,
        (f is Asin || f is Acos || f is Atan) && !all_zero(ts[0].powers()) ==> function_type(f, n, ts, origin) is Err,
        f is Round && n == 1 && !all_zero(ts[0].powers()) ==> function_type(f, n, ts, origin) is Err,
        (f is Pow || f is Sqrt || f is Log || f is Exp) && (exists|i: int| 0 <= i < ts.len() && !all_zero(#[trigger] ts[i].powers()))
            ==> function_type(f, n, ts, origin) is Err,
{
    lemma_number_type();
    lemma_with_hint(number_type(), ts[0].hint_of());
    lemma_dimension_type_powers(CssNumericDimension::Angle, CssNumericDimension::Length);
    lemma_with_hint(dimension_type(CssNumericDimension::Angle), ts[0].hint_of());
    if let Some(t) = common_type(ts) {
        lemma_with_hint(dimension_type(CssNumericDimension::Angle), t.hint_of());
    }
}

/// The canonical text of a sum or product operator is its delimiter with a space on
/// each side, and that delimiter reads back as the same operator.
pub proof fn lemma_operator_text_round_trip(a: CssCalculationSumOperator, m: CssCalculationProductOperator)
    ensures
        sum_operator_text(Some(a)).len() == 3,
        sum_operator_text(Some(a))[0] == ' ' && sum_operator_text(Some(a))[2] == ' ',
        sum_operator_text(Some(a))[1] == '+' || sum_operator_text(Some(a))[1] == '-',
        (sum_operator_text(Some(a))[1] == '-') <==> a is Subtract,
        product_operator_text(Some(m)).len() == 3,
        product_operator_text(Some(m))[0] == ' ' && product_operator_text(Some(m))[2] == ' ',
        product_operator_text(Some(m))[1] == '*' || product_operator_text(Some(m))[1] == '/',
        (product_operator_text(Some(m))[1] == '/') <==> m is Divide,
{
    reveal_strlit(" + ");
    reveal_strlit(" - ");
    reveal_strlit(" * ");
    reveal_strlit(" / ");
}

/// A math function over the children `items`, with its result type.
#[verifier::opaque]
pub open spec fn function_parse(
    f: CssMathFunction,
    items: Seq<CssComponentValue>,
    ready: Seq<Option<CalcView>>,
    root: CalculationRoot,
    origin: CssValueOrigin,
) -> Result<(CalcKind, CssNumericType), CssNumericConstructionError> {
    let segs0 = segments_scan(items, 0, 0);
    let strategy = if f is Round { leading_strategy(items, segs0) } else { None };
    let segs = if strategy is Some { segs0.drop_first() } else { segs0 };
    if !arity_ok(f, segs.len() as int) {
        Err(fail(CssNumericConstructionErrorKind::Arity, Some(origin)))
    } else {
        match args_parse(items, segs, 0, ready, root, f, origin) {
            Err(e) => Err(e),
            Ok(args) => function_finish(f, args, strategy, origin),
        }
    }
}

/// A function node over checked arguments, with its result type.
#[verifier::opaque]
pub open spec fn function_finish(
    f: CssMathFunction,
    args: Seq<Option<CalcView>>,
    strategy: Option<CssRoundingStrategy>,
    origin: CssValueOrigin,
) -> Result<(CalcKind, CssNumericType), CssNumericConstructionError> {
    let ts = types_of(args);
    if ts.len() == 0 {
        Err(fail(CssNumericConstructionErrorKind::Arity, Some(origin)))
    } else {
        match function_type(f, args.len() as int, ts, origin) {
            Err(e) => Err(e),
            Ok(out) => if !simple_type(out) || (!(f is Calc) && exists|i: int| 0 <= i < ts.len() && !simple_type(#[trigger] ts[i])) {
                Err(fail(CssNumericConstructionErrorKind::InvalidArgumentType, Some(origin)))
            } else {
                Ok((CalcKind::Function(f, args, strategy), out))
            },
        }
    }
}

/// The checked nested children of `items` from position `k`, in order; tokens are
/// checked where they are used.
pub open spec fn ready_from(items: Seq<CssComponentValue>, k: int, root: CalculationRoot) -> Result<Seq<Option<CalcView>>, CssNumericConstructionError>
    decreases seq_size(items), 1int, items.len() - k,
{
    if k >= items.len() || k < 0 {
        Ok(Seq::empty())
    } else {
        let head: Result<Option<CalcView>, CssNumericConstructionError> = if is_nested(items[k]) {
            proof {
                lemma_seq_size_subrange(items, k, items.len() as int);
                assert(items.subrange(0, items.len() as int) =~= items);
                lemma_seq_size_subrange(items, 0, items.len() as int);
            }
            match parse_node_spec(items[k], root) {
                Ok(v) => Ok(Some(v)),
                Err(e) => Err(e),
            }
        } else {
            Ok(None)
        };
        match head {
            Err(e) => Err(e),
            Ok(h) => match ready_from(items, k + 1, root) {
                Err(e) => Err(e),
                Ok(rest) => Ok(seq![h] + rest),
            },
        }
    }
}

/// One component as a calculation node. Nested children are checked first, in order,
/// so the first failing component in that order is reported.
pub open spec fn parse_node_spec(c: CssComponentValue, root: CalculationRoot) -> Result<CalcView, CssNumericConstructionError>
    decreases tree_size(c), 0int, 0int,
{
    if !is_nested(c) {
        parse_token_spec(c, root)
    } else {
        let children = children_of(c);
        match ready_from(children, 0, root) {
            Err(e) => Err(e),
            Ok(ready) => {
                let base: Result<(CalcKind, CssNumericType, CssValueOrigin), CssNumericConstructionError> = match c {
                    CssComponentValue::Block { kind: CssBlockKind::Parenthesis, closing, .. } => match sequence_parse(children, 0, children.len() as int, ready, root) {
                        Ok(v) => Ok((CalcKind::Group(Box::new(v)), v.ty, closing)),
                        Err(e) => Err(e),
                    },
                    CssComponentValue::Function { name, closing, .. } => if same_ignoring_case(name@, "var"@) {
                        Err(fail(CssNumericConstructionErrorKind::SubstitutionRequired, Some(c.origin_of())))
                    } else {
                        match math_function_of(name@) {
                            None => Err(fail(CssNumericConstructionErrorKind::UnknownFunction, Some(c.origin_of()))),
                            Some(f) => match function_parse(f, children, ready, root, c.origin_of()) {
                                Ok((k, t)) => Ok((k, t, closing)),
                                Err(e) => Err(e),
                            },
                        }
                    },
                    _ => Err(fail(CssNumericConstructionErrorKind::MalformedExpression, Some(c.origin_of()))),
                };
                match base {
                    Ok((kind, ty, closing)) => Ok(CalcView { kind, ty: promote(ty, root), origin: c.origin_of(), closing: Some(closing) }),
                    Err(e) => Err(e),
                }
            },
        }
    }
}

/// One term of a sum node.
#[derive(Debug)]
struct SumEntry {
    operator: Option<CssCalculationSumOperator>,
    operator_origin: Option<CssValueOrigin>,
    expression: CssCalculationExpression,
}

/// One factor of a product node.
#[derive(Debug)]
struct ProductEntry {
    operator: Option<CssCalculationProductOperator>,
    operator_origin: Option<CssValueOrigin>,
    expression: CssCalculationExpression,
}

#[derive(Debug)]
enum NodeKind {
    Value(CssComponentValue),
    Constant(CssNumericConstant),
    Sum(Vec<SumEntry>),
    Product(Vec<ProductEntry>),
    Group(Box<CssCalculationExpression>),
    Function {
        function: CssMathFunction,
        args: Vec<Option<CssCalculationExpression>>,
        strategy: Option<CssRoundingStrategy>,
    },
}

/// A checked calculation node with its type, its origin and, for functions and
/// groups, the origin of its closing token.
#[derive(Debug)]
pub struct CssCalculationExpression {
    kind: NodeKind,
    ty: CssNumericType,
    origin: CssValueOrigin,
    closing: Option<CssValueOrigin>,
    components: Option<CssComponentValues>,
}

spec fn expr_view(e: CssCalculationExpression) -> CalcView
    decreases e,
{
    CalcView { kind: kind_view(e.kind), ty: e.ty, origin: e.origin, closing: e.closing }
}

spec fn kind_view(k: NodeKind) -> CalcKind
    decreases k,
{
    match k {
        NodeKind::Value(c) => CalcKind::Value(c),
        NodeKind::Constant(c) => CalcKind::Constant(c),
        NodeKind::Sum(v) => CalcKind::Sum(sum_view(v@)),
        NodeKind::Product(v) => CalcKind::Product(product_view(v@)),
        NodeKind::Group(b) => CalcKind::Group(Box::new(expr_view(*b))),
        NodeKind::Function { function, args, strategy } => CalcKind::Function(function, args_view(args@), strategy),
    }
}

spec fn sum_view(s: Seq<SumEntry>) -> Seq<(Option<CssCalculationSumOperator>, Option<CssValueOrigin>, CalcView)>
    decreases s,
{
    if s.len() == 0 {
        Seq::empty()
    } else {
        sum_view(s.drop_last()).push((s.last().operator, s.last().operator_origin, expr_view(s.last().expression)))
    }
}

spec fn product_view(s: Seq<ProductEntry>) -> Seq<(Option<CssCalculationProductOperator>, Option<CssValueOrigin>, CalcView)>
    decreases s,
{
    if s.len() == 0 {
        Seq::empty()
    } else {
        product_view(s.drop_last()).push((s.last().operator, s.last().operator_origin, expr_view(s.last().expression)))
    }
}

spec fn args_view(s: Seq<Option<CssCalculationExpression>>) -> Seq<Option<CalcView>>
    decreases s,
{
    if s.len() == 0 {
        Seq::empty()
    } else {
        args_view(s.drop_last()).push(
            match s.last() {
                Some(e) => Some(expr_view(e)),
                None => None,
            },
        )
    }
}

/// The first term of a sum has no operator; every later one has an operator and its
/// authored origin.
spec fn sum_entries_shaped(s: Seq<SumEntry>) -> bool {
    &&& s.len() >= 1
    &&& s[0].operator is None
    &&& s[0].operator_origin is None
    &&& forall|i: int| 1 <= i < s.len() ==> (#[trigger] s[i]).operator is Some && s[i].operator_origin is Some
}

/// The first factor of a product has no operator; every later one has an operator
/// and its authored origin.
spec fn product_entries_shaped(s: Seq<ProductEntry>) -> bool {
    &&& s.len() >= 1
    &&& s[0].operator is None
    &&& s[0].operator_origin is None
    &&& forall|i: int| 1 <= i < s.len() ==> (#[trigger] s[i]).operator is Some && s[i].operator_origin is Some
}

impl CssCalculationExpression {
    /// A leaf carries its token's origin and no closing origin; a sum or product has
    /// at least two operands, an operator before each but the first, and the first
    /// operand's origin; a function has as many arguments as it takes; a constant is a
    /// plain number.
    #[verifier::type_invariant]
    spec fn node_wf(self) -> bool {
        &&& self.kind matches NodeKind::Value(c) ==> self.origin == c.origin_of() && self.closing is None
        &&& self.kind matches NodeKind::Sum(v) ==> v@.len() >= 2 && sum_entries_shaped(v@)
            && self.origin == v@[0].expression.origin
        &&& self.kind matches NodeKind::Product(v) ==> v@.len() >= 2 && product_entries_shaped(v@)
            && self.origin == v@[0].expression.origin
        &&& self.kind matches NodeKind::Function { function, args, .. } ==> arity_ok(function, args@.len() as int)
        &&& self.kind is Constant ==> self.ty == number_type()
        &&& shaped(expr_view(self))
        &&& self.kind matches NodeKind::Group(b) ==> self.ty == b.ty
        &&& single_calc(self.kind) ==> self.ty == self.kind->args@[0]->Some_0.ty
    }

    /// The node as a mathematical value.
    pub closed spec fn calc_view(&self) -> CalcView {
        expr_view(*self)
    }

    /// The admitted component values, held by a root.
    pub closed spec fn components_view(&self) -> Option<Seq<CssComponentValue>> {
        match self.components {
            Some(v) => Some(v.items@),
            None => None,
        }
    }
}

spec fn opt_view(o: Option<CssCalculationExpression>) -> Option<CalcView> {
    match o {
        Some(e) => Some(expr_view(e)),
        None => None,
    }
}

/// Every pending nested result has a type the root's basis leaves unchanged.
spec fn ready_resolved(root: CalculationRoot, s: Seq<Option<CssCalculationExpression>>) -> bool {
    forall|k: int| 0 <= k < s.len() ==> ((#[trigger] s[k]) matches Some(e) ==> root_resolved(root, e.ty))
}

/// The pending nested results agree with their checked views on `[a, b)`.
spec fn ready_agrees(ex: Seq<Option<CssCalculationExpression>>, rs: Seq<Option<CalcView>>, a: int, b: int) -> bool {
    forall|k: int| #![trigger ex[k]] a <= k < b ==> opt_view(ex[k]) == rs[k]
}

/// Pending nested results outside `[a, b)` are untouched.
spec fn ready_kept(before: Seq<Option<CssCalculationExpression>>, after: Seq<Option<CssCalculationExpression>>, a: int, b: int) -> bool {
    &&& after.len() == before.len()
    &&& forall|k: int| #![trigger after[k]] 0 <= k < before.len() && !(a <= k < b) ==> after[k] == before[k]
}

spec fn outcome_matches(r: Result<(CssCalculationExpression, usize), CssNumericConstructionError>, s: ParseOutcome) -> bool {
    match r {
        Ok((e, j)) => s == ParseOutcome::Ok((expr_view(e), j as int)),
        Err(x) => s == ParseOutcome::Err(x),
    }
}

spec fn node_matches(r: Result<CssCalculationExpression, CssNumericConstructionError>, s: Result<CalcView, CssNumericConstructionError>) -> bool {
    match r {
        Ok(e) => s == Result::<CalcView, CssNumericConstructionError>::Ok(expr_view(e)),
        Err(x) => s == Result::<CalcView, CssNumericConstructionError>::Err(x),
    }
}

fn is_trivia(c: &CssComponentValue) -> (r: bool)
    ensures
        r == trivia(*c),
{
    matches!(c, CssComponentValue::Whitespace { .. })
}

fn is_nested_value(c: &CssComponentValue) -> (r: bool)
    ensures
        r == is_nested(*c),
{
    matches!(c, CssComponentValue::Function { .. } | CssComponentValue::Block { .. })
}

fn skip(items: &Vec<CssComponentValue>, i: usize, hi: usize) -> (r: usize)
    requires
        i <= hi <= items@.len(),
    ensures
        r == skip_spec(items@, i as int, hi as int),
        i <= r <= hi,
{
    let mut j = i;
    while j < hi && is_trivia(&items[j])
        invariant
            i <= j <= hi,
            hi <= items@.len(),
            skip_spec(items@, i as int, hi as int) == skip_spec(items@, j as int, hi as int),
        decreases hi - j,
    {
        j = j + 1;
    }
    j
}

proof fn lemma_skip_bounds(items: Seq<CssComponentValue>, i: int, hi: int)
    requires
        0 <= i <= hi <= items.len(),
    ensures
        i <= skip_spec(items, i, hi) <= hi,
        skip_spec(items, skip_spec(items, i, hi), hi) == skip_spec(items, i, hi),
        skip_spec(items, i, hi) < hi ==> !trivia(items[skip_spec(items, i, hi)]),
    decreases hi - i,
{
    if i < hi && trivia(items[i]) {
        lemma_skip_bounds(items, i + 1, hi);
    }
}

fn last_significant_exec(items: &Vec<CssComponentValue>, lo: usize, hi: usize) -> (r: Option<CssValueOrigin>)
    requires
        lo <= hi <= items@.len(),
    ensures
        r == last_significant(items@, lo as int, hi as int),
{
    let mut h = hi;
    while h > lo && is_trivia(&items[h - 1])
        invariant
            lo <= h <= hi,
            hi <= items@.len(),
            last_significant(items@, lo as int, hi as int) == last_significant(items@, lo as int, h as int),
        decreases h,
    {
        h = h - 1;
    }
    if h > lo {
        Some(*items[h - 1].origin())
    } else {
        None
    }
}

fn site_exec(items: &Vec<CssComponentValue>, lo: usize, hi: usize, i: usize) -> (r: Option<CssValueOrigin>)
    requires
        lo <= hi <= items@.len(),
    ensures
        r == site(items@, lo as int, hi as int, i as int),
{
    if lo <= i && i < hi {
        Some(*items[i].origin())
    } else {
        last_significant_exec(items, lo, hi)
    }
}

impl CssComponentValue {
    /// An equal copy of a token.
    pub fn clone_token(&self) -> (r: Self)
        requires
            !is_nested(*self),
        ensures
            r == *self,
    {
        match self {
            CssComponentValue::Number { representation, origin } => CssComponentValue::Number { representation: representation.clone(), origin: *origin },
            CssComponentValue::Percentage { representation, origin } => CssComponentValue::Percentage { representation: representation.clone(), origin: *origin },
            CssComponentValue::Dimension { representation, unit, origin } => CssComponentValue::Dimension {
                representation: representation.clone(),
                unit: unit.clone(),
                origin: *origin,
            },
            CssComponentValue::Ident { name, origin } => CssComponentValue::Ident { name: name.clone(), origin: *origin },
            CssComponentValue::Delim { value, origin } => CssComponentValue::Delim { value: *value, origin: *origin },
            CssComponentValue::Whitespace { origin } => CssComponentValue::Whitespace { origin: *origin },
            CssComponentValue::Comma { origin } => CssComponentValue::Comma { origin: *origin },
            _ => {
                proof {
                    assert(false);
                }
                CssComponentValue::Comma { origin: *self.origin() }
            },
        }
    }
}

fn constant_named(name: &str) -> (r: Option<CssNumericConstant>)
    ensures
        r == constant_of(name@),
{
    if crate::units::eq_ignore_ascii_case(name, "e") {
        Some(CssNumericConstant::E)
    } else if crate::units::eq_ignore_ascii_case(name, "pi") {
        Some(CssNumericConstant::Pi)
    } else if crate::units::eq_ignore_ascii_case(name, "infinity") {
        Some(CssNumericConstant::Infinity)
    } else if crate::units::eq_ignore_ascii_case(name, "-infinity") {
        Some(CssNumericConstant::NegativeInfinity)
    } else if crate::units::eq_ignore_ascii_case(name, "nan") {
        Some(CssNumericConstant::NaN)
    } else {
        None
    }
}

fn promote_type(t: CssNumericType, root: CalculationRoot) -> (r: CssNumericType)
    ensures
        r == promote(t, root),
{
    match root {
        CalculationRoot::LengthPercentage => {
            if t.is(CssNumericDimension::Percentage) {
                match t.hinted(CssNumericDimension::Length) {
                    Some(u) => u,
                    None => t,
                }
            } else {
                t
            }
        },
        _ => t,
    }
}

fn parse_token(c: &CssComponentValue, root: CalculationRoot) -> (r: Result<CssCalculationExpression, CssNumericConstructionError>)
    requires
        !is_nested(*c),
    ensures
        node_matches(r, parse_token_spec(*c, root)),
        r matches Ok(e) ==> root_resolved(root, e.ty),
{
    proof {
        reveal(parse_token_spec);
    }
    let origin = *c.origin();
    let (kind, ty) = match c {
        CssComponentValue::Number { .. } => (NodeKind::Value(c.clone_token()), CssNumericType::number()),
        CssComponentValue::Percentage { .. } => (
            NodeKind::Value(c.clone_token()),
            CssNumericType::dimension(CssNumericDimension::Percentage),
        ),
        CssComponentValue::Dimension { unit, .. } => match crate::units::unit_dimension(unit.as_str()) {
            Some(d) => (NodeKind::Value(c.clone_token()), CssNumericType::dimension(d)),
            None => {
                return Err(CssNumericConstructionError::at(CssNumericConstructionErrorKind::InvalidArgumentType, Some(origin)));
            },
        },
        CssComponentValue::Ident { name, .. } => match constant_named(name.as_str()) {
            Some(k) => (NodeKind::Constant(k), CssNumericType::number()),
            None => {
                return Err(CssNumericConstructionError::at(CssNumericConstructionErrorKind::InvalidArgumentType, Some(origin)));
            },
        },
        _ => {
            return Err(CssNumericConstructionError::at(CssNumericConstructionErrorKind::MalformedExpression, Some(origin)));
        },
    };
    proof {
        if kind is Constant {
            lemma_number_type();
            assert(number_type().powers()[6] != unit_powers(CssNumericDimension::Percentage)[6]);
        }
    }
    proof {
        lemma_number_type();
        assert(percent_free(ty) || ty == dimension_type(CssNumericDimension::Percentage));
        lemma_promote_token(ty, root);
    }
    let ty = promote_type(ty, root);
    Ok(CssCalculationExpression { kind, ty, origin, closing: None, components: None })
}

/// One value at position `i`; a nested component's checked result is taken from `ready`.
fn value(
    items: &Vec<CssComponentValue>,
    lo: usize,
    hi: usize,
    i: usize,
    ready: &mut Vec<Option<CssCalculationExpression>>,
    Ghost(rs): Ghost<Seq<Option<CalcView>>>,
    root: CalculationRoot,
) -> (r: Result<(CssCalculationExpression, usize), CssNumericConstructionError>)
    requires
        lo <= i <= hi <= items@.len(),
        old(ready)@.len() == items@.len(),
        rs.len() == items@.len(),
        ready_agrees(old(ready)@, rs, i as int, hi as int),
        ready_resolved(root, old(ready)@),
    ensures
        outcome_matches(r, value_parse(items@, lo as int, hi as int, i as int, rs, root)),
        final(ready)@.len() == old(ready)@.len(),
        ready_resolved(root, final(ready)@),
        r matches Ok((e, _)) ==> root_resolved(root, e.ty),
        r matches Ok((_, j)) ==> i < j <= hi && ready_kept(old(ready)@, final(ready)@, i as int, j as int),
{
    proof {
        reveal(value_parse);
    }
    let j = skip(items, i, hi);
    if j >= hi {
        return Err(CssNumericConstructionError::at(CssNumericConstructionErrorKind::MalformedExpression, site_exec(items, lo, hi, j)));
    }
    if is_nested_value(&items[j]) {
        let ghost before = ready@;
        let taken = ready[j].take();
        proof {
            assert(opt_view(old(ready)@[j as int]) == rs[j as int]);
            assert(before[j as int] == taken);
            assert(ready@ == before.update(j as int, None));
            assert forall|k: int| 0 <= k < ready@.len() implies ((#[trigger] ready@[k]) matches Some(e)
                ==> root_resolved(root, e.ty)) by {
                if k != j {
                    assert(ready@[k] == before[k]);
                }
            }
        }
        match taken {
            Some(e) => Ok((e, j + 1)),
            None => Err(CssNumericConstructionError::at(CssNumericConstructionErrorKind::MalformedExpression, Some(*items[j].origin()))),
        }
    } else {
        match parse_token(&items[j], root) {
            Ok(v) => Ok((v, j + 1)),
            Err(e) => Err(e),
        }
    }
}

proof fn lemma_product_view_push(s: Seq<ProductEntry>, x: ProductEntry)
    ensures
        product_view(s.push(x)) == product_view(s).push((x.operator, x.operator_origin, expr_view(x.expression))),
{
    assert(s.push(x).drop_last() =~= s);
}

proof fn lemma_product_view_len(s: Seq<ProductEntry>)
    ensures
        product_view(s).len() == s.len(),
    decreases s.len(),
{
    if s.len() > 0 {
        lemma_product_view_len(s.drop_last());
    }
}

proof fn lemma_sum_view_push(s: Seq<SumEntry>, x: SumEntry)
    ensures
        sum_view(s.push(x)) == sum_view(s).push((x.operator, x.operator_origin, expr_view(x.expression))),
{
    assert(s.push(x).drop_last() =~= s);
}

/// Entries with an operator exactly after the first, over shaped operands, make a
/// shaped sum.
proof fn lemma_sum_view_shaped(s: Seq<SumEntry>)
    requires
        forall|k: int| 0 <= k < s.len() ==> ((#[trigger] s[k]).operator is Some <==> k > 0) && shaped(expr_view(s[k].expression)),
    ensures
        sum_shaped(sum_view(s)),
    decreases s.len(),
{
    if s.len() > 0 {
        let d = s.drop_last();
        assert forall|k: int| 0 <= k < d.len() implies ((#[trigger] d[k]).operator is Some <==> k > 0) && shaped(expr_view(d[k].expression)) by {
            assert(d[k] == s[k]);
        }
        lemma_sum_view_shaped(d);
        lemma_sum_view_len(s);
        lemma_sum_view_push(d, s.last());
        assert(d.push(s.last()) =~= s);
        assert(sum_view(s).drop_last() =~= sum_view(d));
        assert(s.last() == s[s.len() - 1]);
    }
}

/// Factors with an operator exactly after the first, over shaped operands, make a
/// shaped product.
proof fn lemma_product_view_shaped(s: Seq<ProductEntry>)
    requires
        forall|k: int| 0 <= k < s.len() ==> ((#[trigger] s[k]).operator is Some <==> k > 0) && shaped(expr_view(s[k].expression)),
    ensures
        product_shaped(product_view(s)),
    decreases s.len(),
{
    if s.len() > 0 {
        let d = s.drop_last();
        assert forall|k: int| 0 <= k < d.len() implies ((#[trigger] d[k]).operator is Some <==> k > 0) && shaped(expr_view(d[k].expression)) by {
            assert(d[k] == s[k]);
        }
        lemma_product_view_shaped(d);
        lemma_product_view_len(s);
        lemma_product_view_push(d, s.last());
        assert(d.push(s.last()) =~= s);
        assert(product_view(s).drop_last() =~= product_view(d));
        assert(s.last() == s[s.len() - 1]);
    }
}

proof fn lemma_sum_view_len(s: Seq<SumEntry>)
    ensures
        sum_view(s).len() == s.len(),
    decreases s.len(),
{
    if s.len() > 0 {
        lemma_sum_view_len(s.drop_last());
    }
}

fn hints_conflict(a: CssNumericType, b: CssNumericType) -> (r: bool)
    ensures
        r == (a.hint_of() is Some && b.hint_of() is Some && a.hint_of() != b.hint_of()),
{
    match (a.percent_hint(), b.percent_hint()) {
        (Some(x), Some(y)) => x != y,
        _ => false,
    }
}

/// Values joined by `*` and `/` from position `i`.
fn product(
    items: &Vec<CssComponentValue>,
    lo: usize,
    hi: usize,
    i: usize,
    ready: &mut Vec<Option<CssCalculationExpression>>,
    Ghost(rs): Ghost<Seq<Option<CalcView>>>,
    root: CalculationRoot,
) -> (r: Result<(CssCalculationExpression, usize), CssNumericConstructionError>)
    requires
        lo <= i <= hi <= items@.len(),
        old(ready)@.len() == items@.len(),
        rs.len() == items@.len(),
        ready_agrees(old(ready)@, rs, i as int, hi as int),
        ready_resolved(root, old(ready)@),
    ensures
        outcome_matches(r, product_parse(items@, lo as int, hi as int, i as int, rs, root)),
        final(ready)@.len() == old(ready)@.len(),
        ready_resolved(root, final(ready)@),
        r matches Ok((e, _)) ==> root_resolved(root, e.ty),
        r matches Ok((_, j)) ==> i < j <= hi && ready_kept(old(ready)@, final(ready)@, i as int, j as int),
{
    proof {
        reveal(product_parse);
    }
    let (first, j0) = match value(items, lo, hi, i, ready, Ghost(rs), root) {
        Ok(p) => p,
        Err(e) => {
            return Err(e);
        },
    };
    let mut j = j0;
    let mut ty = first.ty;
    let origin = first.origin;
    let ghost fv = expr_view(first);
    let mut factors: Vec<ProductEntry> = Vec::new();
    proof {
        use_type_invariant(&first);
    }
    factors.push(ProductEntry { operator: None, operator_origin: None, expression: first });
    proof {
        lemma_product_view_push(Seq::empty(), factors@[0]);
        assert(Seq::<ProductEntry>::empty().push(factors@[0]) =~= factors@);
    }
    loop
        invariant
            lo <= i < j <= hi <= items@.len(),
            ready@.len() == items@.len(),
            rs.len() == items@.len(),
            ready_agrees(ready@, rs, j as int, hi as int),
            ready_kept(old(ready)@, ready@, i as int, j as int),
            factors@.len() >= 1,
            origin == product_view(factors@)[0].2.origin,
            product_entries_shaped(factors@),
            origin == factors@[0].expression.origin,
            forall|q: int| 0 <= q < factors@.len() ==> shaped(expr_view(#[trigger] factors@[q].expression)),
            ready_resolved(root, ready@),
            root_resolved(root, ty),
            forall|q: int| 0 <= q < factors@.len() ==> root_resolved(root, (#[trigger] factors@[q]).expression.ty),
            product_parse(items@, lo as int, hi as int, i as int, rs, root) == product_more(
                items@, lo as int, hi as int, j as int, rs, root, ty, product_view(factors@),
            ),
        ensures
            lo <= i < j <= hi <= items@.len(),
            ready@.len() == items@.len(),
            ready_kept(old(ready)@, ready@, i as int, j as int),
            factors@.len() >= 1,
            origin == product_view(factors@)[0].2.origin,
            product_entries_shaped(factors@),
            origin == factors@[0].expression.origin,
            forall|q: int| 0 <= q < factors@.len() ==> shaped(expr_view(#[trigger] factors@[q].expression)),
            ready_resolved(root, ready@),
            root_resolved(root, ty),
            forall|q: int| 0 <= q < factors@.len() ==> root_resolved(root, (#[trigger] factors@[q]).expression.ty),
            product_parse(items@, lo as int, hi as int, i as int, rs, root) == ParseOutcome::Ok(
                (product_node(product_view(factors@), ty), j as int),
            ),
        decreases hi - j,
    {
        let k = skip(items, j, hi);
        let is_op = k < hi && match &items[k] {
            CssComponentValue::Delim { value, .. } => *value == '*' || *value == '/',
            _ => false,
        };
        if !is_op {
            break;
        }
        let divide = match &items[k] {
            CssComponentValue::Delim { value, .. } => *value == '/',
            _ => false,
        };
        let op = if divide {
            CssCalculationProductOperator::Divide
        } else {
            CssCalculationProductOperator::Multiply
        };
        let m = skip(items, k + 1, hi);
        let right_site = if m < hi {
            Some(*items[m].origin())
        } else {
            None
        };
        let ghost before = ready@;
        let (rv, n) = match value(items, lo, hi, m, ready, Ghost(rs), root) {
            Ok(p) => p,
            Err(e) => {
                return Err(e);
            },
        };
        if hints_conflict(ty, rv.ty) {
            return Err(CssNumericConstructionError::at(CssNumericConstructionErrorKind::IncompatibleTypes, right_site));
        }
        let t = match ty.product(rv.ty, divide) {
            Some(t) => t,
            None => {
                return Err(CssNumericConstructionError::component(
                    CssComponentValueError::new(CssComponentValueErrorKind::CapacityOverflow, *items[m].origin()),
                ));
            },
        };
        proof {
            if root_hint(root) is Some {
                lemma_arithmetic_percent_free(ty, rv.ty, divide);
            }
        }
        let entry = ProductEntry { operator: Some(op), operator_origin: Some(*items[k].origin()), expression: rv };
        proof {
            lemma_product_view_push(factors@, entry);
            lemma_product_view_len(factors@);
        }
        proof {
            use_type_invariant(&entry.expression);
        }
        factors.push(entry);
        ty = t;
        j = n;
    }
    proof {
        lemma_product_view_len(factors@);
    }
    if factors.len() == 1 {
        let ghost fs = factors@;
        let only = factors.pop().unwrap();
        proof {
            assert(fs =~= factors@.push(only));
            lemma_product_view_push(factors@, only);
            assert(factors@ =~= Seq::<ProductEntry>::empty());
        }
        Ok((only.expression, j))
    } else {
        proof {
            lemma_product_view_shaped(factors@);
        }
        Ok((CssCalculationExpression { kind: NodeKind::Product(factors), ty, origin, closing: None, components: None }, j))
    }
}

/// Products joined by `+` and `-` from position `i`.
fn sum(
    items: &Vec<CssComponentValue>,
    lo: usize,
    hi: usize,
    i: usize,
    ready: &mut Vec<Option<CssCalculationExpression>>,
    Ghost(rs): Ghost<Seq<Option<CalcView>>>,
    root: CalculationRoot,
) -> (r: Result<(CssCalculationExpression, usize), CssNumericConstructionError>)
    requires
        lo <= i <= hi <= items@.len(),
        old(ready)@.len() == items@.len(),
        rs.len() == items@.len(),
        ready_agrees(old(ready)@, rs, i as int, hi as int),
        ready_resolved(root, old(ready)@),
    ensures
        outcome_matches(r, sum_parse(items@, lo as int, hi as int, i as int, rs, root)),
        final(ready)@.len() == old(ready)@.len(),
        ready_resolved(root, final(ready)@),
        r matches Ok((e, _)) ==> root_resolved(root, e.ty),
        r matches Ok((_, j)) ==> i < j <= hi && ready_kept(old(ready)@, final(ready)@, i as int, j as int),
{
    proof {
        reveal(sum_parse);
    }
    let (first, j0) = match product(items, lo, hi, i, ready, Ghost(rs), root) {
        Ok(p) => p,
        Err(e) => {
            return Err(e);
        },
    };
    let mut j = j0;
    let mut ty = first.ty;
    let origin = first.origin;
    let mut terms: Vec<SumEntry> = Vec::new();
    proof {
        use_type_invariant(&first);
    }
    terms.push(SumEntry { operator: None, operator_origin: None, expression: first });
    proof {
        lemma_sum_view_push(Seq::empty(), terms@[0]);
        assert(Seq::<SumEntry>::empty().push(terms@[0]) =~= terms@);
    }
    loop
        invariant
            lo <= i < j <= hi <= items@.len(),
            ready@.len() == items@.len(),
            rs.len() == items@.len(),
            ready_agrees(ready@, rs, j as int, hi as int),
            ready_kept(old(ready)@, ready@, i as int, j as int),
            terms@.len() >= 1,
            origin == sum_view(terms@)[0].2.origin,
            sum_entries_shaped(terms@),
            origin == terms@[0].expression.origin,
            forall|q: int| 0 <= q < terms@.len() ==> shaped(expr_view(#[trigger] terms@[q].expression)),
            ready_resolved(root, ready@),
            root_resolved(root, ty),
            forall|q: int| 0 <= q < terms@.len() ==> root_resolved(root, (#[trigger] terms@[q]).expression.ty),
            sum_parse(items@, lo as int, hi as int, i as int, rs, root) == sum_more(
                items@, lo as int, hi as int, j as int, rs, root, ty, sum_view(terms@),
            ),
        ensures
            lo <= i < j <= hi <= items@.len(),
            ready@.len() == items@.len(),
            ready_kept(old(ready)@, ready@, i as int, j as int),
            terms@.len() >= 1,
            origin == sum_view(terms@)[0].2.origin,
            sum_entries_shaped(terms@),
            origin == terms@[0].expression.origin,
            forall|q: int| 0 <= q < terms@.len() ==> shaped(expr_view(#[trigger] terms@[q].expression)),
            ready_resolved(root, ready@),
            root_resolved(root, ty),
            forall|q: int| 0 <= q < terms@.len() ==> root_resolved(root, (#[trigger] terms@[q]).expression.ty),
            sum_parse(items@, lo as int, hi as int, i as int, rs, root) == ParseOutcome::Ok(
                (sum_node(sum_view(terms@), ty), j as int),
            ),
        decreases hi - j,
    {
        let k = skip(items, j, hi);
        let is_op = k < hi && match &items[k] {
            CssComponentValue::Delim { value, .. } => *value == '+' || *value == '-',
            _ => false,
        };
        if !is_op {
            break;
        }
        let subtract = match &items[k] {
            CssComponentValue::Delim { value, .. } => *value == '-',
            _ => false,
        };
        let op = if subtract {
            CssCalculationSumOperator::Subtract
        } else {
            CssCalculationSumOperator::Add
        };
        if k == j {
            return Err(CssNumericConstructionError::at(CssNumericConstructionErrorKind::MalformedExpression, site_exec(items, lo, hi, k)));
        }
        let m = skip(items, k + 1, hi);
        if m == k + 1 {
            return Err(CssNumericConstructionError::at(CssNumericConstructionErrorKind::MalformedExpression, site_exec(items, lo, hi, k + 1)));
        }
        let right_site = if m < hi {
            Some(*items[m].origin())
        } else {
            None
        };
        let (rv, n) = match product(items, lo, hi, m, ready, Ghost(rs), root) {
            Ok(p) => p,
            Err(e) => {
                return Err(e);
            },
        };
        let t = match ty.add(rv.ty) {
            Some(t) => t,
            None => {
                return Err(CssNumericConstructionError::at(CssNumericConstructionErrorKind::IncompatibleTypes, right_site));
            },
        };
        proof {
            if root_hint(root) is Some {
                lemma_arithmetic_percent_free(ty, rv.ty, false);
            }
        }
        let entry = SumEntry { operator: Some(op), operator_origin: Some(*items[k].origin()), expression: rv };
        proof {
            lemma_sum_view_push(terms@, entry);
            lemma_sum_view_len(terms@);
        }
        proof {
            use_type_invariant(&entry.expression);
        }
        terms.push(entry);
        ty = t;
        j = n;
    }
    proof {
        lemma_sum_view_len(terms@);
    }
    if terms.len() == 1 {
        let ghost ts = terms@;
        let only = terms.pop().unwrap();
        proof {
            assert(ts =~= terms@.push(only));
            lemma_sum_view_push(terms@, only);
            assert(terms@ =~= Seq::<SumEntry>::empty());
        }
        Ok((only.expression, j))
    } else {
        proof {
            lemma_sum_view_shaped(terms@);
        }
        Ok((CssCalculationExpression { kind: NodeKind::Sum(terms), ty, origin, closing: None, components: None }, j))
    }
}

/// The whole of `items[lo..hi]` as one sum.
fn sequence(
    items: &Vec<CssComponentValue>,
    lo: usize,
    hi: usize,
    ready: &mut Vec<Option<CssCalculationExpression>>,
    Ghost(rs): Ghost<Seq<Option<CalcView>>>,
    root: CalculationRoot,
) -> (r: Result<CssCalculationExpression, CssNumericConstructionError>)
    requires
        lo <= hi <= items@.len(),
        old(ready)@.len() == items@.len(),
        rs.len() == items@.len(),
        ready_agrees(old(ready)@, rs, lo as int, hi as int),
        ready_resolved(root, old(ready)@),
    ensures
        node_matches(r, sequence_parse(items@, lo as int, hi as int, rs, root)),
        final(ready)@.len() == old(ready)@.len(),
        ready_resolved(root, final(ready)@),
        r matches Ok(e) ==> root_resolved(root, e.ty),
        r is Ok ==> ready_kept(old(ready)@, final(ready)@, lo as int, hi as int),
{
    proof {
        reveal(sequence_parse);
    }
    let (v, j) = match sum(items, lo, hi, lo, ready, Ghost(rs), root) {
        Ok(p) => p,
        Err(e) => {
            return Err(e);
        },
    };
    let k = skip(items, j, hi);
    if k != hi {
        return Err(CssNumericConstructionError::at(CssNumericConstructionErrorKind::MalformedExpression, site_exec(items, lo, hi, k)));
    }
    Ok(v)
}

spec fn segs_view(v: Seq<(usize, usize)>) -> Seq<(int, int)> {
    Seq::new(v.len(), |t: int| (v[t].0 as int, v[t].1 as int))
}

/// Argument ranges are ordered, disjoint and within the children.
proof fn lemma_segments_scan(items: Seq<CssComponentValue>, p: int, start: int)
    requires
        0 <= start <= p <= items.len(),
    ensures
        segments_scan(items, p, start).len() >= 1,
        segments_scan(items, p, start)[0].0 == start,
        forall|t: int| 0 <= t < segments_scan(items, p, start).len() ==> 0 <= #[trigger] segments_scan(items, p, start)[t].0
            <= segments_scan(items, p, start)[t].1 <= items.len(),
        forall|t: int| 0 <= t < segments_scan(items, p, start).len() - 1 ==> #[trigger] segments_scan(items, p, start)[t].1
            < segments_scan(items, p, start)[t + 1].0,
        forall|t: int| 0 <= t < segments_scan(items, p, start).len() ==> start <= #[trigger] segments_scan(items, p, start)[t].0,
    decreases items.len() - p,
{
    if p < items.len() {
        if items[p] is Comma {
            lemma_segments_scan(items, p + 1, p + 1);
        } else {
            lemma_segments_scan(items, p + 1, start);
        }
    }
}

fn segments(items: &Vec<CssComponentValue>) -> (r: Vec<(usize, usize)>)
    ensures
        segs_view(r@) == segments_scan(items@, 0, 0),
{
    let mut out: Vec<(usize, usize)> = Vec::new();
    let mut start: usize = 0;
    let mut p: usize = 0;
    proof {
        assert(segs_view(out@) + segments_scan(items@, 0, 0) =~= segments_scan(items@, 0, 0));
    }
    while p < items.len()
        invariant
            start <= p <= items@.len(),
            segments_scan(items@, 0, 0) == segs_view(out@) + segments_scan(items@, p as int, start as int),
        decreases items@.len() - p,
    {
        if matches!(&items[p], CssComponentValue::Comma { .. }) {
            proof {
                assert(segs_view(out@.push((start, p))) =~= segs_view(out@).push((start as int, p as int)));
                assert(segs_view(out@) + segments_scan(items@, p as int, start as int) =~= segs_view(out@.push((start, p)))
                    + segments_scan(items@, p + 1, p + 1));
            }
            out.push((start, p));
            start = p + 1;
        }
        p = p + 1;
    }
    proof {
        assert(segs_view(out@.push((start, items@.len() as usize))) =~= segs_view(out@) + segments_scan(items@, p as int, start as int));
    }
    out.push((start, items.len()));
    out
}

fn count_significant_exec(items: &Vec<CssComponentValue>, lo: usize, hi: usize) -> (r: usize)
    requires
        lo <= hi <= items@.len(),
    ensures
        r == count_significant(items@, lo as int, hi as int),
{
    let mut n: usize = 0;
    let mut k = lo;
    while k < hi
        invariant
            lo <= k <= hi <= items@.len(),
            n <= k - lo,
            count_significant(items@, lo as int, hi as int) == n + count_significant(items@, k as int, hi as int),
        decreases hi - k,
    {
        if !is_trivia(&items[k]) {
            n = n + 1;
        }
        k = k + 1;
    }
    n
}

proof fn lemma_significant_found(items: Seq<CssComponentValue>, lo: int, hi: int)
    requires
        0 <= lo <= hi <= items.len(),
        count_significant(items, lo, hi) > 0,
    ensures
        skip_spec(items, lo, hi) < hi,
    decreases hi - lo,
{
    if lo < hi && trivia(items[lo]) {
        lemma_significant_found(items, lo + 1, hi);
    }
}

fn ident_named(c: &CssComponentValue, name: &str) -> (r: bool)
    ensures
        r == ident_is(*c, name@),
{
    match c {
        CssComponentValue::Ident { name: n, .. } => crate::units::eq_ignore_ascii_case(n.as_str(), name),
        _ => false,
    }
}

fn strategy_named(c: &CssComponentValue) -> (r: Option<CssRoundingStrategy>)
    ensures
        r == strategy_of(*c),
{
    if ident_named(c, "nearest") {
        Some(CssRoundingStrategy::Nearest)
    } else if ident_named(c, "up") {
        Some(CssRoundingStrategy::Up)
    } else if ident_named(c, "down") {
        Some(CssRoundingStrategy::Down)
    } else if ident_named(c, "to-zero") {
        Some(CssRoundingStrategy::ToZero)
    } else {
        None
    }
}

fn arity_ok_exec(f: CssMathFunction, n: usize) -> (r: bool)
    ensures
        r == arity_ok(f, n as int),
{
    match f {
        CssMathFunction::Min | CssMathFunction::Max | CssMathFunction::Hypot => n >= 1,
        CssMathFunction::Clamp => n == 3,
        CssMathFunction::Round | CssMathFunction::Log => 1 <= n && n <= 2,
        CssMathFunction::Mod | CssMathFunction::Rem | CssMathFunction::Atan2 | CssMathFunction::Pow => n == 2,
        _ => n == 1,
    }
}

/// A prefix of results before the outcome of the rest.
spec fn prepend(p: Seq<Option<CalcView>>, r: Result<Seq<Option<CalcView>>, CssNumericConstructionError>) -> Result<Seq<Option<CalcView>>, CssNumericConstructionError> {
    match r {
        Ok(rest) => Ok(p + rest),
        Err(e) => Err(e),
    }
}

proof fn lemma_prepend_step(p: Seq<Option<CalcView>>, h: Option<CalcView>, r: Result<Seq<Option<CalcView>>, CssNumericConstructionError>)
    ensures
        prepend(p, match r {
            Err(e) => Err(e),
            Ok(rest) => Ok(seq![h] + rest),
        }) == prepend(p.push(h), r),
{
    match r {
        Ok(rest) => {
            assert(p + (seq![h] + rest) =~= p.push(h) + rest);
        },
        Err(_) => {},
    }
}

proof fn lemma_args_view_push(s: Seq<Option<CssCalculationExpression>>, x: Option<CssCalculationExpression>)
    ensures
        args_view(s.push(x)) == args_view(s).push(opt_view(x)),
{
    assert(s.push(x).drop_last() =~= s);
}

/// Shaped present arguments make shaped arguments.
proof fn lemma_args_view_shaped(s: Seq<Option<CssCalculationExpression>>)
    requires
        forall|k: int| 0 <= k < s.len() ==> ((#[trigger] s[k]) matches Some(e) ==> shaped(expr_view(e))),
    ensures
        args_shaped(args_view(s)),
    decreases s.len(),
{
    if s.len() > 0 {
        let d = s.drop_last();
        assert forall|k: int| 0 <= k < d.len() implies ((#[trigger] d[k]) matches Some(e) ==> shaped(expr_view(e))) by {
            assert(d[k] == s[k]);
        }
        lemma_args_view_shaped(d);
        lemma_args_view_push(d, s.last());
        assert(d.push(s.last()) =~= s);
        assert(args_view(s).drop_last() =~= args_view(d));
        assert(s.last() == s[s.len() - 1]);
    }
}

proof fn lemma_args_view_index(s: Seq<Option<CssCalculationExpression>>)
    ensures
        args_view(s).len() == s.len(),
        forall|i: int| 0 <= i < s.len() ==> #[trigger] args_view(s)[i] == opt_view(s[i]),
    decreases s.len(),
{
    if s.len() > 0 {
        lemma_args_view_index(s.drop_last());
    }
}

/// The types of the present arguments.
fn argument_types(args: &Vec<Option<CssCalculationExpression>>) -> (r: Vec<CssNumericType>)
    ensures
        r@ == types_of(args_view(args@)),
{
    let mut ts: Vec<CssNumericType> = Vec::new();
    let mut i: usize = 0;
    proof {
        lemma_args_view_index(args@);
        assert(args_view(args@).subrange(0, 0) =~= Seq::<Option<CalcView>>::empty());
    }
    while i < args.len()
        invariant
            i <= args@.len(),
            args_view(args@).len() == args@.len(),
            forall|k: int| 0 <= k < args@.len() ==> #[trigger] args_view(args@)[k] == opt_view(args@[k]),
            ts@ == types_of(args_view(args@).subrange(0, i as int)),
        decreases args@.len() - i,
    {
        proof {
            assert(args_view(args@).subrange(0, i + 1).drop_last() =~= args_view(args@).subrange(0, i as int));
        }
        match &args[i] {
            Some(e) => {
                ts.push(e.ty);
            },
            None => {},
        }
        i = i + 1;
    }
    proof {
        assert(args_view(args@).subrange(0, args@.len() as int) =~= args_view(args@));
    }
    ts
}

/// The argument types added left to right.
fn common_type_exec(ts: &Vec<CssNumericType>) -> (r: Option<CssNumericType>)
    ensures
        r == common_type(ts@),
{
    if ts.len() == 0 {
        return None;
    }
    let mut acc: Option<CssNumericType> = Some(ts[0]);
    let mut i: usize = 1;
    proof {
        assert(ts@.subrange(0, 1) =~= seq![ts@[0]]);
    }
    while i < ts.len()
        invariant
            1 <= i <= ts@.len(),
            acc == common_type(ts@.subrange(0, i as int)),
        decreases ts@.len() - i,
    {
        proof {
            assert(ts@.subrange(0, i + 1).drop_last() =~= ts@.subrange(0, i as int));
        }
        acc = match acc {
            Some(a) => a.add(ts[i]),
            None => None,
        };
        i = i + 1;
    }
    proof {
        assert(ts@.subrange(0, ts@.len() as int) =~= ts@);
    }
    acc
}

fn common_or_fail_exec(ts: &Vec<CssNumericType>, origin: CssValueOrigin) -> (r: Result<CssNumericType, CssNumericConstructionError>)
    ensures
        r == common_or_fail(ts@, origin),
{
    match common_type_exec(ts) {
        Some(t) => Ok(t),
        None => Err(CssNumericConstructionError::at(CssNumericConstructionErrorKind::IncompatibleTypes, Some(origin))),
    }
}

fn all_numbers(ts: &Vec<CssNumericType>) -> (r: bool)
    ensures
        r == !(exists|i: int| 0 <= i < ts@.len() && !all_zero(#[trigger] ts@[i].powers())),
{
    let mut i: usize = 0;
    while i < ts.len()
        invariant
            i <= ts@.len(),
            forall|k: int| 0 <= k < i ==> all_zero(#[trigger] ts@[k].powers()),
        decreases ts@.len() - i,
    {
        if !ts[i].is_number() {
            return false;
        }
        i = i + 1;
    }
    true
}

fn all_simple(ts: &Vec<CssNumericType>) -> (r: bool)
    ensures
        r == !(exists|i: int| 0 <= i < ts@.len() && !simple_type(#[trigger] ts@[i])),
{
    let mut i: usize = 0;
    while i < ts.len()
        invariant
            i <= ts@.len(),
            forall|k: int| 0 <= k < i ==> simple_type(#[trigger] ts@[k]),
        decreases ts@.len() - i,
    {
        if !ts[i].simple() {
            return false;
        }
        i = i + 1;
    }
    true
}

/// The result type of a math function over the argument types.
fn function_type_exec(f: CssMathFunction, n_args: usize, ts: &Vec<CssNumericType>, origin: CssValueOrigin) -> (r: Result<CssNumericType, CssNumericConstructionError>)
    requires
        ts@.len() >= 1,
    ensures
        r == function_type(f, n_args as int, ts@, origin),
{
    let invalid = CssNumericConstructionError::at(CssNumericConstructionErrorKind::InvalidArgumentType, Some(origin));
    match f {
        CssMathFunction::Calc | CssMathFunction::Abs => Ok(ts[0]),
        CssMathFunction::Min | CssMathFunction::Max | CssMathFunction::Clamp | CssMathFunction::Hypot
        | CssMathFunction::Mod | CssMathFunction::Rem => common_or_fail_exec(ts, origin),
        CssMathFunction::Round => {
            if n_args == 1 && !ts[0].is_number() {
                Err(invalid)
            } else {
                common_or_fail_exec(ts, origin)
            }
        },
        CssMathFunction::Sin | CssMathFunction::Cos | CssMathFunction::Tan => {
            if !ts[0].is_number() && !ts[0].is(CssNumericDimension::Angle) {
                Err(invalid)
            } else {
                Ok(CssNumericType::number().with_hint(ts[0].percent_hint()))
            }
        },
        CssMathFunction::Asin | CssMathFunction::Acos | CssMathFunction::Atan => {
            if !ts[0].is_number() {
                Err(invalid)
            } else {
                Ok(CssNumericType::dimension(CssNumericDimension::Angle).with_hint(ts[0].percent_hint()))
            }
        },
        CssMathFunction::Atan2 => match common_or_fail_exec(ts, origin) {
            Ok(t) => Ok(CssNumericType::dimension(CssNumericDimension::Angle).with_hint(t.percent_hint())),
            Err(e) => Err(e),
        },
        CssMathFunction::Pow | CssMathFunction::Sqrt | CssMathFunction::Log | CssMathFunction::Exp => {
            if !all_numbers(ts) {
                Err(invalid)
            } else {
                common_or_fail_exec(ts, origin)
            }
        },
        CssMathFunction::Sign => Ok(CssNumericType::number().with_hint(ts[0].percent_hint())),
    }
}

/// The argument in `items[lo..hi]`.
fn argument(
    items: &Vec<CssComponentValue>,
    lo: usize,
    hi: usize,
    idx: usize,
    ready: &mut Vec<Option<CssCalculationExpression>>,
    Ghost(rs): Ghost<Seq<Option<CalcView>>>,
    root: CalculationRoot,
    f: CssMathFunction,
    origin: CssValueOrigin,
) -> (r: Result<Option<CssCalculationExpression>, CssNumericConstructionError>)
    requires
        lo <= hi <= items@.len(),
        old(ready)@.len() == items@.len(),
        rs.len() == items@.len(),
        ready_agrees(old(ready)@, rs, lo as int, hi as int),
        ready_resolved(root, old(ready)@),
    ensures
        ready_resolved(root, final(ready)@),
        r matches Ok(Some(e)) ==> root_resolved(root, e.ty),
        match r {
            Ok(a) => arg_parse(items@, lo as int, hi as int, idx as int, rs, root, f, origin) == Result::<Option<CalcView>, CssNumericConstructionError>::Ok(opt_view(a)),
            Err(e) => arg_parse(items@, lo as int, hi as int, idx as int, rs, root, f, origin) == Result::<Option<CalcView>, CssNumericConstructionError>::Err(e),
        },
        final(ready)@.len() == old(ready)@.len(),
        r is Ok ==> ready_kept(old(ready)@, final(ready)@, lo as int, hi as int),
{
    proof {
        reveal(arg_parse);
    }
    let count = count_significant_exec(items, lo, hi);
    if count == 0 {
        return Err(CssNumericConstructionError::at(CssNumericConstructionErrorKind::Arity, Some(origin)));
    }
    proof {
        lemma_significant_found(items@, lo as int, hi as int);
    }
    let is_none = match f {
        CssMathFunction::Clamp => idx != 1 && count == 1 && ident_named(&items[skip(items, lo, hi)], "none"),
        _ => false,
    };
    if is_none {
        return Ok(None);
    }
    match sequence(items, lo, hi, ready, Ghost(rs), root) {
        Ok(v) => Ok(Some(v)),
        Err(e) => Err(e),
    }
}

spec fn function_matches(
    r: Result<(NodeKind, CssNumericType), CssNumericConstructionError>,
    s: Result<(CalcKind, CssNumericType), CssNumericConstructionError>,
) -> bool {
    match r {
        Ok((k, t)) => s == Result::<(CalcKind, CssNumericType), CssNumericConstructionError>::Ok((kind_view(k), t)),
        Err(e) => s == Result::<(CalcKind, CssNumericType), CssNumericConstructionError>::Err(e),
    }
}

/// The arguments of all ranges, in order.
fn arguments(
    items: &Vec<CssComponentValue>,
    segs: &Vec<(usize, usize)>,
    off: usize,
    n: usize,
    ready: &mut Vec<Option<CssCalculationExpression>>,
    Ghost(rs): Ghost<Seq<Option<CalcView>>>,
    Ghost(sv): Ghost<Seq<(int, int)>>,
    root: CalculationRoot,
    f: CssMathFunction,
    origin: CssValueOrigin,
) -> (r: Result<Vec<Option<CssCalculationExpression>>, CssNumericConstructionError>)
    requires
        n + off == segs@.len(),
        sv.len() == n,
        forall|t: int| 0 <= t < n ==> #[trigger] sv[t] == (segs@[t + off].0 as int, segs@[t + off].1 as int),
        forall|t: int| 0 <= t < n ==> 0 <= #[trigger] sv[t].0 <= sv[t].1 <= items@.len(),
        forall|t: int| 0 <= t < n - 1 ==> #[trigger] sv[t].1 < sv[t + 1].0,
        old(ready)@.len() == items@.len(),
        rs.len() == items@.len(),
        n > 0 ==> ready_agrees(old(ready)@, rs, sv[0].0, items@.len() as int),
        ready_resolved(root, old(ready)@),
    ensures
        ready_resolved(root, final(ready)@),
        r matches Ok(a) ==> forall|q: int| 0 <= q < a@.len() ==> ((#[trigger] a@[q]) matches Some(e) ==> root_resolved(root, e.ty)),
        match r {
            Ok(a) => args_parse(items@, sv, 0, rs, root, f, origin) == Result::<Seq<Option<CalcView>>, CssNumericConstructionError>::Ok(args_view(a@)) && a@.len() == n
                && forall|q: int| 0 <= q < a@.len() ==> ((#[trigger] a@[q]) matches Some(e) ==> shaped(expr_view(e))),
            Err(e) => args_parse(items@, sv, 0, rs, root, f, origin) == Result::<Seq<Option<CalcView>>, CssNumericConstructionError>::Err(e),
        },
{
    let total = segs.len();
    let mut args: Vec<Option<CssCalculationExpression>> = Vec::new();
    let mut idx: usize = 0;
    proof {
        assert(args_view(args@) =~= Seq::<Option<CalcView>>::empty());
        assert(prepend(args_view(args@), args_parse(items@, sv, 0, rs, root, f, origin)) == args_parse(items@, sv, 0, rs, root, f, origin)) by {
            match args_parse(items@, sv, 0, rs, root, f, origin) {
                Ok(rest) => {
                    assert(Seq::<Option<CalcView>>::empty() + rest =~= rest);
                },
                Err(_) => {},
            }
        }
    }
    while idx < n
        invariant
            n + off == segs@.len(),
            sv.len() == n,
            forall|t: int| 0 <= t < n ==> #[trigger] sv[t] == (segs@[t + off].0 as int, segs@[t + off].1 as int),
            forall|t: int| 0 <= t < n ==> 0 <= #[trigger] sv[t].0 <= sv[t].1 <= items@.len(),
            forall|t: int| 0 <= t < n - 1 ==> #[trigger] sv[t].1 < sv[t + 1].0,
            idx <= n,
            args@.len() == idx,
            ready@.len() == items@.len(),
            rs.len() == items@.len(),
            idx < n ==> ready_agrees(ready@, rs, sv[idx as int].0, items@.len() as int),
            args_parse(items@, sv, 0, rs, root, f, origin) == prepend(args_view(args@), args_parse(items@, sv, idx as int, rs, root, f, origin)),
            total == segs@.len(),
            forall|q: int| 0 <= q < args@.len() ==> ((#[trigger] args@[q]) matches Some(e) ==> shaped(expr_view(e))),
            ready_resolved(root, ready@),
            forall|q: int| 0 <= q < args@.len() ==> ((#[trigger] args@[q]) matches Some(e) ==> root_resolved(root, e.ty)),
        decreases n - idx,
    {
        assert(idx + off < segs@.len());
        let pos = idx + off;
        let lo = segs[pos].0;
        let hi = segs[pos].1;
        proof {
            assert(sv[idx as int] == (lo as int, hi as int));
        }
        let arg = match argument(items, lo, hi, idx, ready, Ghost(rs), root, f, origin) {
            Ok(a) => a,
            Err(e) => {
                return Err(e);
            },
        };
        proof {
            lemma_prepend_step(args_view(args@), opt_view(arg), args_parse(items@, sv, idx + 1, rs, root, f, origin));
            lemma_args_view_push(args@, arg);
            if idx + 1 < n {
                assert(sv[idx as int].1 < sv[idx + 1].0);
            }
        }
        match &arg {
            Some(e) => {
                proof {
                    use_type_invariant(e);
                }
            },
            None => {},
        }
        args.push(arg);
        idx = idx + 1;
    }
    proof {
        assert(args_view(args@) + Seq::<Option<CalcView>>::empty() =~= args_view(args@));
    }
    Ok(args)
}

/// A math function over its children, with checked nested results in `ready`.
#[verifier::spinoff_prover]
#[verifier::rlimit(100)]
fn parse_function(
    f: CssMathFunction,
    items: &Vec<CssComponentValue>,
    ready: &mut Vec<Option<CssCalculationExpression>>,
    Ghost(rs): Ghost<Seq<Option<CalcView>>>,
    root: CalculationRoot,
    origin: CssValueOrigin,
) -> (r: Result<(NodeKind, CssNumericType), CssNumericConstructionError>)
    requires
        old(ready)@.len() == items@.len(),
        rs.len() == items@.len(),
        ready_agrees(old(ready)@, rs, 0, items@.len() as int),
        ready_resolved(root, old(ready)@),
    ensures
        function_matches(r, function_parse(f, items@, rs, root, origin)),
        r matches Ok((k, t)) ==> root_resolved(root, t) && (single_calc(k) ==> t == k->args@[0]->Some_0.ty),
        r matches Ok((k, _)) ==> k is Function,
        r matches Ok((NodeKind::Function { function, args, .. }, _)) ==> arity_ok(function, args@.len() as int),
        r matches Ok((NodeKind::Function { args, .. }, _)) ==> args_shaped(args_view(args@)),
{
    proof {
        reveal(function_parse);
    }
    let segs = segments(items);
    proof {
        lemma_segments_scan(items@, 0, 0);
    }
    let ghost segs0 = segments_scan(items@, 0, 0);
    let strategy = match f {
        CssMathFunction::Round => {
            let lo = segs[0].0;
            let hi = segs[0].1;
            if count_significant_exec(items, lo, hi) == 1 {
                proof {
                    lemma_significant_found(items@, lo as int, hi as int);
                }
                strategy_named(&items[skip(items, lo, hi)])
            } else {
                None
            }
        },
        _ => None,
    };
    let off: usize = if strategy.is_some() {
        1
    } else {
        0
    };
    let ghost sv = if strategy is Some {
        segs0.drop_first()
    } else {
        segs0
    };
    let n = segs.len() - off;
    if !arity_ok_exec(f, n) {
        return Err(CssNumericConstructionError::at(CssNumericConstructionErrorKind::Arity, Some(origin)));
    }
    proof {
        assert forall|t: int| 0 <= t < n implies #[trigger] sv[t] == (segs@[t + off].0 as int, segs@[t + off].1 as int) by {
            assert(segs0[t + off] == segs_view(segs@)[t + off]);
        }
        assert forall|t: int| 0 <= t < n implies 0 <= #[trigger] sv[t].0 <= sv[t].1 <= items@.len() by {
            assert(sv[t] == segs0[t + off]);
        }
        assert forall|t: int| 0 <= t < n - 1 implies #[trigger] sv[t].1 < sv[t + 1].0 by {
            assert(sv[t] == segs0[t + off]);
            assert(sv[t + 1] == segs0[t + 1 + off]);
        }
    }
    let args = match arguments(items, &segs, off, n, ready, Ghost(rs), Ghost(sv), root, f, origin) {
        Ok(a) => a,
        Err(e) => {
            return Err(e);
        },
    };
    proof {
        lemma_args_view_shaped(args@);
    }
    finish_function(f, args, strategy, origin, Ghost(root))
}

/// A function node over checked arguments.
fn finish_function(
    f: CssMathFunction,
    args: Vec<Option<CssCalculationExpression>>,
    strategy: Option<CssRoundingStrategy>,
    origin: CssValueOrigin,
    Ghost(root): Ghost<CalculationRoot>,
) -> (r: Result<(NodeKind, CssNumericType), CssNumericConstructionError>)
    ensures
        function_matches(r, function_finish(f, args_view(args@), strategy, origin)),
        r matches Ok((k, _)) ==> k is Function,
        r matches Ok((NodeKind::Function { function, args: a, .. }, _)) ==> function == f && a@ == args@,
        (forall|q: int| 0 <= q < args@.len() ==> ((#[trigger] args@[q]) matches Some(e) ==> root_resolved(root, e.ty)))
            ==> (r matches Ok((k, t)) ==> root_resolved(root, t) && (single_calc(k) ==> t == k->args@[0]->Some_0.ty)),
{
    proof {
        reveal(function_finish);
    }
    let ts = argument_types(&args);
    if ts.len() == 0 {
        return Err(CssNumericConstructionError::at(CssNumericConstructionErrorKind::Arity, Some(origin)));
    }
    proof {
        lemma_args_view_index(args@);
    }
    proof {
        if forall|q: int| 0 <= q < args@.len() ==> ((#[trigger] args@[q]) matches Some(e) ==> root_resolved(root, e.ty)) {
            assert forall|i: int| 0 <= i < args_view(args@).len() implies ((#[trigger] args_view(args@)[i]) matches Some(v) ==> root_resolved(root, v.ty)) by {
                assert(args_view(args@)[i] == opt_view(args@[i]));
                assert(args@[i] matches Some(e) ==> root_resolved(root, e.ty));
            }
            lemma_types_of_resolved(args_view(args@), root);
            lemma_function_type_resolved(f, args@.len() as int, ts@, origin, root);
        }
        if f is Calc && args@.len() == 1 && args@[0] is Some {
            let only = args_view(args@);
            assert(only.drop_last() =~= Seq::<Option<CalcView>>::empty());
            assert(only[0] == opt_view(args@[0]));
            assert(types_of(only.drop_last()) =~= Seq::<CssNumericType>::empty());
            assert(ts@[0] == args@[0]->Some_0.ty);
        }
    }
    let out = match function_type_exec(f, args.len(), &ts, origin) {
        Ok(t) => t,
        Err(e) => {
            return Err(e);
        },
    };
    let is_calc = match f {
        CssMathFunction::Calc => true,
        _ => false,
    };
    if !out.simple() || (!is_calc && !all_simple(&ts)) {
        return Err(CssNumericConstructionError::at(CssNumericConstructionErrorKind::InvalidArgumentType, Some(origin)));
    }
    Ok((NodeKind::Function { function: f, args, strategy }, out))
}

spec fn opt_views(s: Seq<Option<CssCalculationExpression>>) -> Seq<Option<CalcView>> {
    Seq::new(s.len(), |k: int| opt_view(s[k]))
}

/// The checked nested children of `items`, in order.
fn ready_list(items: &Vec<CssComponentValue>, root: CalculationRoot) -> (r: Result<Vec<Option<CssCalculationExpression>>, CssNumericConstructionError>)
    ensures
        match r {
            Ok(v) => v@.len() == items@.len() && ready_from(items@, 0, root) == Result::<Seq<Option<CalcView>>, CssNumericConstructionError>::Ok(opt_views(v@))
                && ready_resolved(root, v@),
            Err(e) => ready_from(items@, 0, root) == Result::<Seq<Option<CalcView>>, CssNumericConstructionError>::Err(e),
        },
    decreases seq_size(items@), 1nat,
{
    let mut out: Vec<Option<CssCalculationExpression>> = Vec::new();
    let mut k: usize = 0;
    proof {
        assert(prepend(opt_views(out@), ready_from(items@, 0, root)) == ready_from(items@, 0, root)) by {
            match ready_from(items@, 0, root) {
                Ok(rest) => {
                    assert(opt_views(out@) + rest =~= rest);
                },
                Err(_) => {},
            }
        }
    }
    while k < items.len()
        invariant
            k <= items@.len(),
            out@.len() == k,
            ready_from(items@, 0, root) == prepend(opt_views(out@), ready_from(items@, k as int, root)),
            ready_resolved(root, out@),
        decreases items@.len() - k,
    {
        let next = if is_nested_value(&items[k]) {
            proof {
                lemma_seq_size_subrange(items@, k as int, items@.len() as int);
                lemma_seq_size_subrange(items@, 0, items@.len() as int);
                assert(items@.subrange(0, items@.len() as int) =~= items@);
            }
            match parse_node(&items[k], root) {
                Ok(v) => Some(v),
                Err(e) => {
                    return Err(e);
                },
            }
        } else {
            None
        };
        proof {
            lemma_prepend_step(opt_views(out@), opt_view(next), ready_from(items@, k + 1, root));
            assert(opt_views(out@.push(next)) =~= opt_views(out@).push(opt_view(next)));
        }
        out.push(next);
        k = k + 1;
    }
    proof {
        assert(opt_views(out@) + Seq::<Option<CalcView>>::empty() =~= opt_views(out@));
    }
    Ok(out)
}

/// One component as a calculation node; nested children are checked first, in order.
fn parse_node(c: &CssComponentValue, root: CalculationRoot) -> (r: Result<CssCalculationExpression, CssNumericConstructionError>)
    ensures
        node_matches(r, parse_node_spec(*c, root)),
        r matches Ok(e) ==> root_resolved(root, e.ty),
    decreases tree_size(*c), 0nat,
{
    if !is_nested_value(c) {
        return parse_token(c, root);
    }
    match c {
        CssComponentValue::Function { name, values, origin, closing, .. } => {
            let mut ready = match ready_list(values, root) {
                Ok(v) => v,
                Err(e) => {
                    return Err(e);
                },
            };
            let ghost rs = opt_views(ready@);
            if crate::units::eq_ignore_ascii_case(name.as_str(), "var") {
                return Err(CssNumericConstructionError::at(CssNumericConstructionErrorKind::SubstitutionRequired, Some(*origin)));
            }
            let f = match CssMathFunction::parse(name.as_str()) {
                Some(f) => f,
                None => {
                    return Err(CssNumericConstructionError::at(CssNumericConstructionErrorKind::UnknownFunction, Some(*origin)));
                },
            };
            let (kind, ty) = match parse_function(f, values, &mut ready, Ghost(rs), root, *origin) {
                Ok(p) => p,
                Err(e) => {
                    return Err(e);
                },
            };
            proof {
                lemma_promote_resolved(ty, root);
            }
            let ty = promote_type(ty, root);
            Ok(CssCalculationExpression { kind, ty, origin: *origin, closing: Some(*closing), components: None })
        },
        CssComponentValue::Block { kind, values, origin, closing, .. } => {
            let mut ready = match ready_list(values, root) {
                Ok(v) => v,
                Err(e) => {
                    return Err(e);
                },
            };
            let ghost rs = opt_views(ready@);
            let paren = match kind {
                CssBlockKind::Parenthesis => true,
                _ => false,
            };
            if !paren {
                return Err(CssNumericConstructionError::at(CssNumericConstructionErrorKind::MalformedExpression, Some(*origin)));
            }
            let v = match sequence(values, 0, values.len(), &mut ready, Ghost(rs), root) {
                Ok(v) => v,
                Err(e) => {
                    return Err(e);
                },
            };
            proof {
                lemma_promote_resolved(v.ty, root);
            }
            let ty = promote_type(v.ty, root);
            proof {
                use_type_invariant(&v);
            }
            Ok(CssCalculationExpression { kind: NodeKind::Group(Box::new(v)), ty, origin: *origin, closing: Some(*closing), components: None })
        },
        _ => {
            proof {
                assert(false);
            }
            parse_token(c, root)
        },
    }
}

/// Canonical characters of a literal token.
pub open spec fn token_size(c: CssComponentValue) -> nat {
    match c {
        CssComponentValue::Number { representation, .. } => representation@.len(),
        CssComponentValue::Percentage { representation, .. } => representation@.len() + 1,
        CssComponentValue::Dimension { representation, unit, .. } => representation@.len() + unit@.len(),
        _ => 0,
    }
}

/// The ` + ` or ` * ` separators between `n` operands.
pub open spec fn separators(n: nat) -> nat {
    if n == 0 {
        0
    } else {
        3 * (n - 1) as nat
    }
}

/// The number of `none` arguments.
pub open spec fn none_count(args: Seq<Option<CalcView>>) -> nat
    decreases args.len(),
{
    if args.len() == 0 {
        0
    } else {
        none_count(args.drop_last()) + if args.last() is None { 1nat } else { 0nat }
    }
}

/// Canonical characters of a function's own text: name, parentheses, argument
/// separators, `none` keywords and a rounding strategy with its separator.
pub open spec fn function_own_size(f: CssMathFunction, args: Seq<Option<CalcView>>, strategy: Option<CssRoundingStrategy>) -> nat {
    function_name(f)@.len() + 2 + (if args.len() == 0 { 0nat } else { 2 * (args.len() - 1) as nat }) + 4 * none_count(args)
        + match strategy {
        Some(st) => strategy_name(st)@.len() + 2,
        None => 0nat,
    }
}

/// The length of a node's canonical serialization.
pub open spec fn canonical_size(v: CalcView) -> nat
    decreases v,
{
    match v.kind {
        CalcKind::Value(c) => token_size(c),
        CalcKind::Constant(k) => constant_name(k)@.len(),
        CalcKind::Group(b) => 2 + canonical_size(*b),
        CalcKind::Sum(terms) => separators(terms.len()) + sum_terms_size(terms),
        CalcKind::Product(factors) => separators(factors.len()) + product_terms_size(factors),
        CalcKind::Function(f, args, strategy) => function_own_size(f, args, strategy) + args_size(args),
    }
}

pub open spec fn sum_terms_size(s: Seq<(Option<CssCalculationSumOperator>, Option<CssValueOrigin>, CalcView)>) -> nat
    decreases s,
{
    if s.len() == 0 {
        0
    } else {
        sum_terms_size(s.drop_last()) + canonical_size(s.last().2)
    }
}

pub open spec fn product_terms_size(s: Seq<(Option<CssCalculationProductOperator>, Option<CssValueOrigin>, CalcView)>) -> nat
    decreases s,
{
    if s.len() == 0 {
        0
    } else {
        product_terms_size(s.drop_last()) + canonical_size(s.last().2)
    }
}

pub open spec fn args_size(s: Seq<Option<CalcView>>) -> nat
    decreases s,
{
    if s.len() == 0 {
        0
    } else {
        args_size(s.drop_last()) + match s.last() {
            Some(v) => canonical_size(v),
            None => 0nat,
        }
    }
}

/// Every sum and product in a node has its operators where the canonical text puts
/// them: none before the first operand, one before each later operand.
pub open spec fn shaped(v: CalcView) -> bool
    decreases v,
{
    match v.kind {
        CalcKind::Value(_) => true,
        CalcKind::Constant(_) => true,
        CalcKind::Group(b) => shaped(*b),
        CalcKind::Sum(terms) => sum_shaped(terms),
        CalcKind::Product(factors) => product_shaped(factors),
        CalcKind::Function(_, args, _) => args_shaped(args),
    }
}

pub open spec fn sum_shaped(s: Seq<(Option<CssCalculationSumOperator>, Option<CssValueOrigin>, CalcView)>) -> bool
    decreases s,
{
    if s.len() == 0 {
        true
    } else {
        sum_shaped(s.drop_last()) && (s.last().0 is Some <==> s.len() > 1) && shaped(s.last().2)
    }
}

pub open spec fn product_shaped(s: Seq<(Option<CssCalculationProductOperator>, Option<CssValueOrigin>, CalcView)>) -> bool
    decreases s,
{
    if s.len() == 0 {
        true
    } else {
        product_shaped(s.drop_last()) && (s.last().0 is Some <==> s.len() > 1) && shaped(s.last().2)
    }
}

pub open spec fn args_shaped(s: Seq<Option<CalcView>>) -> bool
    decreases s,
{
    if s.len() == 0 {
        true
    } else {
        args_shaped(s.drop_last()) && match s.last() {
            Some(a) => shaped(a),
            None => true,
        }
    }
}

proof fn lemma_sum_size_text(s: Seq<(Option<CssCalculationSumOperator>, Option<CssValueOrigin>, CalcView)>)
    requires
        sum_shaped(s),
    ensures
        sum_terms_size(s) + separators(s.len()) == sum_terms_text(s).len(),
    decreases s,
{
    if s.len() > 0 {
        lemma_sum_size_text(s.drop_last());
        lemma_size_is_text_len(s.last().2);
        reveal_strlit(" + ");
        reveal_strlit(" - ");
        assert(sum_operator_text(s.last().0).len() == if s.len() > 1 { 3int } else { 0int });
    }
}

proof fn lemma_product_size_text(s: Seq<(Option<CssCalculationProductOperator>, Option<CssValueOrigin>, CalcView)>)
    requires
        product_shaped(s),
    ensures
        product_terms_size(s) + separators(s.len()) == product_terms_text(s).len(),
    decreases s,
{
    if s.len() > 0 {
        lemma_product_size_text(s.drop_last());
        lemma_size_is_text_len(s.last().2);
        reveal_strlit(" * ");
        reveal_strlit(" / ");
        assert(product_operator_text(s.last().0).len() == if s.len() > 1 { 3int } else { 0int });
    }
}

proof fn lemma_args_size_text(s: Seq<Option<CalcView>>)
    requires
        args_shaped(s),
    ensures
        args_size(s) + (if s.len() == 0 { 0nat } else { 2 * (s.len() - 1) as nat }) + 4 * none_count(s)
            == args_text(s).len(),
    decreases s,
{
    if s.len() > 0 {
        lemma_args_size_text(s.drop_last());
        reveal_strlit(", ");
        reveal_strlit("none");
        match s.last() {
            Some(a) => {
                lemma_size_is_text_len(a);
            },
            None => {},
        }
    }
}

/// The canonical size of a node is the length of its canonical text.
pub proof fn lemma_size_is_text_len(v: CalcView)
    requires
        shaped(v),
    ensures
        canonical_size(v) == canonical_text(v).len(),
    decreases v,
{
    reveal_strlit("(");
    reveal_strlit(")");
    reveal_strlit("%");
    reveal_strlit(", ");
    match v.kind {
        CalcKind::Value(c) => {},
        CalcKind::Constant(k) => {},
        CalcKind::Group(b) => {
            lemma_size_is_text_len(*b);
        },
        CalcKind::Sum(terms) => {
            lemma_sum_size_text(terms);
        },
        CalcKind::Product(factors) => {
            lemma_product_size_text(factors);
        },
        CalcKind::Function(f, args, strategy) => {
            lemma_args_size_text(args);
        },
    }
}

/// `acc` plus `size` if that stays within `limit`.
pub open spec fn within(acc: int, size: int, limit: int) -> Option<usize> {
    if acc + size <= limit {
        Some((acc + size) as usize)
    } else {
        None
    }
}

fn add_within(acc: usize, amount: usize, limit: usize) -> (r: Option<usize>)
    requires
        acc <= limit,
    ensures
        r == within(acc as int, amount as int, limit as int),
{
    match acc.checked_add(amount) {
        Some(total) => if total <= limit {
            Some(total)
        } else {
            None
        },
        None => None,
    }
}

fn token_len(c: &CssComponentValue) -> (r: Option<usize>)
    ensures
        r matches Some(n) ==> n == token_size(*c),
        r is None ==> token_size(*c) > usize::MAX,
{
    match c {
        CssComponentValue::Number { representation, .. } => Some(representation.unicode_len()),
        CssComponentValue::Percentage { representation, .. } => representation.unicode_len().checked_add(1),
        CssComponentValue::Dimension { representation, unit, .. } => representation.unicode_len().checked_add(unit.unicode_len()),
        _ => Some(0),
    }
}

impl CssCalculationExpression {
    /// `acc` plus this node's canonical length, when that stays within `limit`.
    #[verifier::rlimit(40)]
    fn grow(&self, acc: usize, limit: usize) -> (r: Option<usize>)
        requires
            acc <= limit,
        ensures
            r == within(acc as int, canonical_size(expr_view(*self)) as int, limit as int),
        decreases self,
    {
        match &self.kind {
            NodeKind::Value(c) => match token_len(c) {
                Some(n) => add_within(acc, n, limit),
                None => None,
            },
            NodeKind::Constant(k) => add_within(acc, k.name().unicode_len(), limit),
            NodeKind::Group(b) => match add_within(acc, 2, limit) {
                Some(a) => b.grow(a, limit),
                None => None,
            },
            NodeKind::Sum(terms) => {
                proof {
                    lemma_sum_view_len(terms@);
                    lemma_sum_prefix_le(terms@, 0);
                    assert(canonical_size(expr_view(*self)) == separators(terms@.len()) + sum_terms_size(sum_view(terms@)));
                }
                let own = match terms.len().checked_sub(1) {
                    Some(k) => k.checked_mul(3),
                    None => Some(0),
                };
                let mut cur = match own {
                    Some(o) => match add_within(acc, o, limit) {
                        Some(a) => a,
                        None => {
                            return None;
                        },
                    },
                    None => {
                        return None;
                    },
                };
                let ghost sv = sum_view(terms@);
                proof {
                    lemma_sum_view_len(terms@);
                    assert(sum_view(terms@.subrange(0, 0)) =~= Seq::empty());
                }
                let mut i: usize = 0;
                while i < terms.len()
                    invariant
                        i <= terms@.len(),
                        acc <= limit,
                        cur <= limit,
                        cur == acc + separators(terms@.len()) + sum_terms_size(sum_view(terms@.subrange(0, i as int))),
                        self.kind == NodeKind::Sum(*terms),
                        canonical_size(expr_view(*self)) == separators(terms@.len()) + sum_terms_size(sum_view(terms@)),
                    decreases terms@.len() - i,
                {
                    proof {
                        assert(terms@.subrange(0, i + 1) =~= terms@.subrange(0, i as int).push(terms@[i as int]));
                        lemma_sum_size_push(terms@.subrange(0, i as int), terms@[i as int]);
                    }
                    let ghost before = cur;
                    let ghost size = canonical_size(expr_view(terms@[i as int].expression));
                    let step = terms[i].expression.grow(cur, limit);
                    proof {
                        assert(sum_terms_size(sum_view(terms@.subrange(0, i + 1))) == sum_terms_size(sum_view(terms@.subrange(0, i as int))) + size);
                    }
                    cur = match step {
                        Some(a) => a,
                        None => {
                            proof {
                                lemma_sum_prefix_le(terms@, i as int + 1);
                                assert(before + size > limit);
                            }
                            return None;
                        },
                    };
                    assert(cur == before + size);
                    i = i + 1;
                }
                proof {
                    assert(terms@.subrange(0, terms@.len() as int) =~= terms@);
                }
                Some(cur)
            },
            NodeKind::Product(factors) => {
                proof {
                    lemma_product_view_len(factors@);
                    lemma_product_prefix_le(factors@, 0);
                    assert(canonical_size(expr_view(*self)) == separators(factors@.len()) + product_terms_size(product_view(factors@)));
                }
                let own = match factors.len().checked_sub(1) {
                    Some(k) => k.checked_mul(3),
                    None => Some(0),
                };
                let mut cur = match own {
                    Some(o) => match add_within(acc, o, limit) {
                        Some(a) => a,
                        None => {
                            return None;
                        },
                    },
                    None => {
                        return None;
                    },
                };
                proof {
                    assert(product_view(factors@.subrange(0, 0)) =~= Seq::empty());
                }
                let mut i: usize = 0;
                while i < factors.len()
                    invariant
                        i <= factors@.len(),
                        acc <= limit,
                        cur <= limit,
                        cur == acc + separators(factors@.len()) + product_terms_size(product_view(factors@.subrange(0, i as int))),
                        self.kind == NodeKind::Product(*factors),
                        canonical_size(expr_view(*self)) == separators(factors@.len()) + product_terms_size(product_view(factors@)),
                    decreases factors@.len() - i,
                {
                    proof {
                        assert(factors@.subrange(0, i + 1) =~= factors@.subrange(0, i as int).push(factors@[i as int]));
                        lemma_product_size_push(factors@.subrange(0, i as int), factors@[i as int]);
                    }
                    let step = factors[i].expression.grow(cur, limit);
                    cur = match step {
                        Some(a) => a,
                        None => {
                            proof {
                                lemma_product_prefix_le(factors@, i as int + 1);
                            }
                            return None;
                        },
                    };
                    i = i + 1;
                }
                proof {
                    assert(factors@.subrange(0, factors@.len() as int) =~= factors@);
                }
                Some(cur)
            },
            NodeKind::Function { function, args, strategy } => {
                proof {
                    lemma_args_view_index(args@);
                    lemma_args_prefix_le(args@, 0);
                    assert(canonical_size(expr_view(*self)) == function_own_size(*function, args_view(args@), *strategy) + args_size(args_view(args@)));
                }
                let mut cur = match function_own_len(*function, args, *strategy) {
                    Some(o) => match add_within(acc, o, limit) {
                        Some(a) => a,
                        None => {
                            return None;
                        },
                    },
                    None => {
                        return None;
                    },
                };
                proof {
                    assert(args_view(args@.subrange(0, 0)) =~= Seq::empty());
                }
                let mut i: usize = 0;
                while i < args.len()
                    invariant
                        i <= args@.len(),
                        acc <= limit,
                        cur <= limit,
                        cur == acc + function_own_size(*function, args_view(args@), *strategy) + args_size(args_view(args@.subrange(0, i as int))),
                        self.kind == (NodeKind::Function { function: *function, args: *args, strategy: *strategy }),
                        canonical_size(expr_view(*self)) == function_own_size(*function, args_view(args@), *strategy) + args_size(args_view(args@)),
                    decreases args@.len() - i,
                {
                    proof {
                        assert(args@.subrange(0, i + 1) =~= args@.subrange(0, i as int).push(args@[i as int]));
                        lemma_args_size_push(args@.subrange(0, i as int), args@[i as int]);
                    }
                    match &args[i] {
                        Some(e) => {
                            cur = match e.grow(cur, limit) {
                                Some(a) => a,
                                None => {
                                    proof {
                                        lemma_args_prefix_le(args@, i as int + 1);
                                    }
                                    return None;
                                },
                            };
                        },
                        None => {},
                    }
                    i = i + 1;
                }
                proof {
                    assert(args@.subrange(0, args@.len() as int) =~= args@);
                }
                Some(cur)
            },
        }
    }
}

/// The canonical length of a function's own text.
fn function_own_len(f: CssMathFunction, args: &Vec<Option<CssCalculationExpression>>, strategy: Option<CssRoundingStrategy>) -> (r: Option<usize>)
    ensures
        r matches Some(n) ==> n == function_own_size(f, args_view(args@), strategy),
        r is None ==> function_own_size(f, args_view(args@), strategy) > usize::MAX,
{
    proof {
        lemma_args_view_index(args@);
        assert(args_view(args@.subrange(0, 0)) =~= Seq::empty());
    }
    let mut nones: usize = 0;
    let mut i: usize = 0;
    while i < args.len()
        invariant
            i <= args@.len(),
            nones <= i,
            nones == none_count(args_view(args@.subrange(0, i as int))),
        decreases args@.len() - i,
    {
        proof {
            assert(args@.subrange(0, i + 1) =~= args@.subrange(0, i as int).push(args@[i as int]));
            lemma_args_view_push(args@.subrange(0, i as int), args@[i as int]);
            assert(args_view(args@.subrange(0, i as int)).push(opt_view(args@[i as int])).drop_last() =~= args_view(args@.subrange(0, i as int)));
        }
        if args[i].is_none() {
            nones = nones + 1;
        }
        i = i + 1;
    }
    proof {
        assert(args@.subrange(0, args@.len() as int) =~= args@);
    }
    let separators = match args.len().checked_sub(1) {
        Some(k) => k.checked_mul(2),
        None => Some(0),
    };
    let words = nones.checked_mul(4);
    let strategy_len: Option<usize> = match strategy {
        Some(st) => st.name().unicode_len().checked_add(2),
        None => Some(0),
    };
    let name_len = f.name().unicode_len();
    match (separators, words, strategy_len) {
        (Some(sep), Some(w), Some(strategy_len)) => match name_len.checked_add(2) {
            Some(a) => match a.checked_add(sep) {
                Some(b) => match b.checked_add(w) {
                    Some(c) => c.checked_add(strategy_len),
                    None => None,
                },
                None => None,
            },
            None => None,
        },
        _ => None,
    }
}

proof fn lemma_product_size_push(s: Seq<ProductEntry>, x: ProductEntry)
    ensures
        product_terms_size(product_view(s.push(x))) == product_terms_size(product_view(s)) + canonical_size(expr_view(x.expression)),
{
    lemma_product_view_push(s, x);
    let t = (x.operator, x.operator_origin, expr_view(x.expression));
    assert(product_view(s).push(t).drop_last() =~= product_view(s));
}

proof fn lemma_product_prefix_le(s: Seq<ProductEntry>, i: int)
    requires
        0 <= i <= s.len(),
    ensures
        product_terms_size(product_view(s.subrange(0, i))) <= product_terms_size(product_view(s)),
    decreases s.len() - i,
{
    if i < s.len() {
        lemma_product_prefix_le(s, i + 1);
        assert(s.subrange(0, i + 1) =~= s.subrange(0, i).push(s[i]));
        lemma_product_size_push(s.subrange(0, i), s[i]);
    } else {
        assert(s.subrange(0, i) =~= s);
    }
}

proof fn lemma_args_size_push(s: Seq<Option<CssCalculationExpression>>, x: Option<CssCalculationExpression>)
    ensures
        args_size(args_view(s.push(x))) == args_size(args_view(s)) + match x {
            Some(e) => canonical_size(expr_view(e)),
            None => 0nat,
        },
{
    lemma_args_view_push(s, x);
    assert(args_view(s).push(opt_view(x)).drop_last() =~= args_view(s));
}

proof fn lemma_args_prefix_le(s: Seq<Option<CssCalculationExpression>>, i: int)
    requires
        0 <= i <= s.len(),
    ensures
        args_size(args_view(s.subrange(0, i))) <= args_size(args_view(s)),
    decreases s.len() - i,
{
    if i < s.len() {
        lemma_args_prefix_le(s, i + 1);
        assert(s.subrange(0, i + 1) =~= s.subrange(0, i).push(s[i]));
        lemma_args_size_push(s.subrange(0, i), s[i]);
    } else {
        assert(s.subrange(0, i) =~= s);
    }
}

proof fn lemma_sum_size_push(s: Seq<SumEntry>, x: SumEntry)
    ensures
        sum_terms_size(sum_view(s.push(x))) == sum_terms_size(sum_view(s)) + canonical_size(expr_view(x.expression)),
{
    lemma_sum_view_push(s, x);
    let t = (x.operator, x.operator_origin, expr_view(x.expression));
    assert(sum_view(s).push(t).drop_last() =~= sum_view(s));
}

proof fn lemma_sum_prefix_le(s: Seq<SumEntry>, i: int)
    requires
        0 <= i <= s.len(),
    ensures
        sum_terms_size(sum_view(s.subrange(0, i))) <= sum_terms_size(sum_view(s)),
    decreases s.len() - i,
{
    if i < s.len() {
        lemma_sum_prefix_le(s, i + 1);
        assert(s.subrange(0, i + 1) =~= s.subrange(0, i).push(s[i]));
        lemma_sum_size_push(s.subrange(0, i), s[i]);
    } else {
        assert(s.subrange(0, i) =~= s);
    }
}

/// The first function or block whose closing token the source did not supply,
/// searching a component before its children and the children from the last.
pub open spec fn first_unclosed_tree(c: CssComponentValue) -> Option<CssValueOrigin>
    decreases tree_size(c), 0int, 0int,
{
    match c {
        CssComponentValue::Function { closed, values, origin, .. } => if !closed {
            Some(origin)
        } else {
            first_unclosed_in(values@, values@.len() as int)
        },
        CssComponentValue::Block { closed, values, origin, .. } => if !closed {
            Some(origin)
        } else {
            first_unclosed_in(values@, values@.len() as int)
        },
        _ => None,
    }
}

/// The first unclosed component among `items[0..k]`, searching from the last.
pub open spec fn first_unclosed_in(items: Seq<CssComponentValue>, k: int) -> Option<CssValueOrigin>
    decreases seq_size(items), 1int, k,
{
    if k <= 0 || k > items.len() {
        None
    } else {
        proof {
            lemma_seq_size_subrange(items, k - 1, items.len() as int);
            assert(items.subrange(0, items.len() as int) =~= items);
            lemma_seq_size_subrange(items, 0, items.len() as int);
        }
        match first_unclosed_tree(items[k - 1]) {
            Some(o) => Some(o),
            None => first_unclosed_in(items, k - 1),
        }
    }
}

fn unclosed_tree(c: &CssComponentValue) -> (r: Option<CssValueOrigin>)
    ensures
        r == first_unclosed_tree(*c),
    decreases tree_size(*c), 0nat,
{
    match c {
        CssComponentValue::Function { closed, values, origin, .. } => if !*closed {
            Some(*origin)
        } else {
            unclosed_in(values)
        },
        CssComponentValue::Block { closed, values, origin, .. } => if !*closed {
            Some(*origin)
        } else {
            unclosed_in(values)
        },
        _ => None,
    }
}

fn unclosed_in(items: &Vec<CssComponentValue>) -> (r: Option<CssValueOrigin>)
    ensures
        r == first_unclosed_in(items@, items@.len() as int),
    decreases seq_size(items@), 1nat,
{
    let mut k = items.len();
    while k > 0
        invariant
            k <= items@.len(),
            first_unclosed_in(items@, items@.len() as int) == first_unclosed_in(items@, k as int),
        decreases k,
    {
        proof {
            lemma_seq_size_subrange(items@, k - 1, items@.len() as int);
            assert(items@.subrange(0, items@.len() as int) =~= items@);
            lemma_seq_size_subrange(items@, 0, items@.len() as int);
        }
        match unclosed_tree(&items[k - 1]) {
            Some(o) => {
                return Some(o);
            },
            None => {},
        }
        k = k - 1;
    }
    None
}

/// The text of a number token.
pub open spec fn number_text(c: CssComponentValue) -> Seq<char> {
    match c {
        CssComponentValue::Number { representation, .. } => representation@,
        _ => Seq::empty(),
    }
}

/// A number spelled without a fraction or an exponent.
pub open spec fn is_integer_text(s: Seq<char>) -> bool {
    forall|k: int| 0 <= k < s.len() ==> #[trigger] s[k] != '.' && s[k] != 'e' && s[k] != 'E'
}

/// The position of the first exponent marker from `i` on, or the length.
pub open spec fn exponent_start(s: Seq<char>, i: int) -> int
    decreases s.len() - i,
{
    if i >= s.len() || i < 0 {
        s.len() as int
    } else if s[i] == 'e' || s[i] == 'E' {
        i
    } else {
        exponent_start(s, i + 1)
    }
}

pub open spec fn zero_char(c: char) -> bool {
    c == '+' || c == '-' || c == '.' || c == '0'
}

/// A number whose significand is zero, whatever its exponent.
pub open spec fn exact_zero_text(s: Seq<char>) -> bool {
    forall|k: int| 0 <= k < exponent_start(s, 0) ==> zero_char(#[trigger] s[k])
}

fn integer_text(s: &str) -> (r: bool)
    ensures
        r == is_integer_text(s@),
{
    let n = s.unicode_len();
    let mut i: usize = 0;
    while i < n
        invariant
            i <= n,
            n == s@.len(),
            forall|k: int| 0 <= k < i ==> #[trigger] s@[k] != '.' && s@[k] != 'e' && s@[k] != 'E',
        decreases n - i,
    {
        let c = s.get_char(i);
        if c == '.' || c == 'e' || c == 'E' {
            return false;
        }
        i = i + 1;
    }
    true
}

proof fn lemma_exponent_start(s: Seq<char>, i: int)
    requires
        0 <= i <= s.len(),
    ensures
        i <= exponent_start(s, i) <= s.len(),
        forall|k: int| i <= k < exponent_start(s, i) ==> #[trigger] s[k] != 'e' && s[k] != 'E',
        exponent_start(s, i) < s.len() ==> (s[exponent_start(s, i)] == 'e' || s[exponent_start(s, i)] == 'E'),
    decreases s.len() - i,
{
    if i < s.len() && !(s[i] == 'e' || s[i] == 'E') {
        lemma_exponent_start(s, i + 1);
    }
}

fn zero_text(s: &str) -> (r: bool)
    ensures
        r == exact_zero_text(s@),
{
    let n = s.unicode_len();
    let mut i: usize = 0;
    proof {
        lemma_exponent_start(s@, 0);
    }
    while i < n
        invariant
            i <= n,
            n == s@.len(),
            i <= exponent_start(s@, 0),
            0 <= exponent_start(s@, 0) <= n,
            forall|k: int| 0 <= k < exponent_start(s@, 0) ==> #[trigger] s@[k] != 'e' && s@[k] != 'E',
            exponent_start(s@, 0) < n ==> (s@[exponent_start(s@, 0)] == 'e' || s@[exponent_start(s@, 0)] == 'E'),
            forall|k: int| 0 <= k < i ==> zero_char(#[trigger] s@[k]),
        decreases n - i,
    {
        let c = s.get_char(i);
        if c == 'e' || c == 'E' {
            return true;
        }
        if !(c == '+' || c == '-' || c == '.' || c == '0') {
            return false;
        }
        i = i + 1;
    }
    true
}

/// Admission of component values that fit the limits: recovery and root checks, the
/// checked tree, the root's own adjustments and the canonical byte limit.
#[verifier::opaque]
pub open spec fn admit_spec(
    values: Seq<CssComponentValue>,
    root: CalculationRoot,
    limits: CssComponentValueLimits,
    strict: bool,
) -> Result<CalcView, CssNumericConstructionError> {
    let n = values.len() as int;
    if strict && first_unclosed_in(values, n) is Some {
        Err(fail(CssNumericConstructionErrorKind::RecoveredComponent, first_unclosed_in(values, n)))
    } else {
        let i = skip_spec(values, 0, n);
        if i >= n {
            Err(fail(CssNumericConstructionErrorKind::EmptyValue, None))
        } else {
            let j = skip_spec(values, i + 1, n);
            if j < n {
                Err(fail(CssNumericConstructionErrorKind::MultipleValues, Some(values[j].origin_of())))
            } else {
                let c = values[i];
                let literal = c is Number || c is Dimension || c is Percentage;
                let mismatch = fail(CssNumericConstructionErrorKind::RootDomainMismatch, Some(c.origin_of()));
                if !literal && !(c is Function) {
                    Err(mismatch)
                } else {
                    match parse_node_spec(c, root) {
                        Err(e) => Err(e),
                        Ok(v) => if root is Integer && literal && !(c is Number && is_integer_text(number_text(c))) {
                            Err(mismatch)
                        } else {
                            let w = if (root is Length || root is LengthPercentage) && c is Number && exact_zero_text(number_text(c)) {
                                CalcView { ty: dimension_type(CssNumericDimension::Length), ..v }
                            } else {
                                v
                            };
                            if !root_accepts(root, w.ty) {
                                Err(mismatch)
                            } else if canonical_size(w) > usize::MAX {
                                Err(component_failure(CssComponentValueError { kind: CssComponentValueErrorKind::CapacityOverflow, origin: c.origin_of() }))
                            } else if canonical_size(w) > limits.bytes() {
                                Err(component_failure(CssComponentValueError { kind: CssComponentValueErrorKind::ByteLimit, origin: c.origin_of() }))
                            } else {
                                Ok(w)
                            }
                        },
                    }
                }
            }
        }
    }
}

fn root_accepts_exec(root: CalculationRoot, t: CssNumericType) -> (r: bool)
    ensures
        r == root_accepts(root, t),
{
    let plain = t.percent_hint().is_none();
    match root {
        CalculationRoot::NamedDimensionOrNumber => plain && (t.is_number() || t.is(CssNumericDimension::Length)
            || t.is(CssNumericDimension::Angle) || t.is(CssNumericDimension::Time) || t.is(CssNumericDimension::Frequency)
            || t.is(CssNumericDimension::Resolution) || t.is(CssNumericDimension::Flex)),
        CalculationRoot::Number => t.is_number() && plain,
        CalculationRoot::Integer => t.is_number() && plain,
        CalculationRoot::Percentage => t.is(CssNumericDimension::Percentage) && plain,
        CalculationRoot::Length => t.is(CssNumericDimension::Length) && plain,
        CalculationRoot::LengthPercentage => t.is(CssNumericDimension::Length),
        CalculationRoot::Angle => t.is(CssNumericDimension::Angle) && plain,
        CalculationRoot::Time => t.is(CssNumericDimension::Time) && plain,
        CalculationRoot::Frequency => t.is(CssNumericDimension::Frequency) && plain,
        CalculationRoot::Resolution => t.is(CssNumericDimension::Resolution) && plain,
    }
}

/// A rejection for a component value over the resource limits.
pub open spec fn resource_rejection(r: Result<CssCalculationExpression, CssNumericConstructionError>) -> bool {
    match r {
        Ok(_) => false,
        Err(e) => e.error_kind() == CssNumericConstructionErrorKind::ResourceLimit && match e.error_source() {
            Some(cause) => limit_error(cause.kind) && e.error_origin() == Some(cause.origin),
            None => false,
        },
    }
}

/// The outcome of admission: resource limits are checked first, then `admit_spec`.
pub open spec fn construct_outcome(
    values: Seq<CssComponentValue>,
    root: CalculationRoot,
    limits: CssComponentValueLimits,
    strict: bool,
    r: Result<CssCalculationExpression, CssNumericConstructionError>,
) -> bool {
    &&& !fits(values, 0, 0, 0, limits) ==> resource_rejection(r)
    &&& !fits(values, 0, 0, 0, limits) ==> (walk_seq(values, 0, 0, 0, limits) matches Err(cause)
        && r == Err::<CssCalculationExpression, CssNumericConstructionError>(component_failure(cause)))
    &&& fits(values, 0, 0, 0, limits) ==> match r {
        Ok(e) => admit_spec(values, root, limits, strict) == Result::<CalcView, CssNumericConstructionError>::Ok(e.calc_view())
            && e.components_view() == Some(values),
        Err(x) => admit_spec(values, root, limits, strict) == Result::<CalcView, CssNumericConstructionError>::Err(x),
    }
}

/// Admits component values under a root context. With `strict`, a function or block
/// whose closing token was supplied by recovery is rejected.
pub fn construct_with_policy(
    values: CssComponentValues,
    root: CalculationRoot,
    limits: CssComponentValueLimits,
    strict: bool,
) -> (r: Result<CssCalculationExpression, CssNumericConstructionError>)
    ensures
        construct_outcome(values.items@, root, limits, strict, r),
{
    proof {
        reveal(admit_spec);
    }
    match values.validate_with_limits(limits) {
        Ok(()) => {},
        Err(e) => {
            return Err(CssNumericConstructionError::component(e));
        },
    }
    let n = values.items.len();
    if strict {
        match unclosed_in(&values.items) {
            Some(o) => {
                return Err(CssNumericConstructionError::at(CssNumericConstructionErrorKind::RecoveredComponent, Some(o)));
            },
            None => {},
        }
    }
    let i = skip(&values.items, 0, n);
    if i >= n {
        return Err(CssNumericConstructionError::at(CssNumericConstructionErrorKind::EmptyValue, None));
    }
    let j = skip(&values.items, i + 1, n);
    if j < n {
        return Err(CssNumericConstructionError::at(CssNumericConstructionErrorKind::MultipleValues, Some(*values.items[j].origin())));
    }
    let c = &values.items[i];
    let origin = *c.origin();
    let literal = matches!(c, CssComponentValue::Number { .. } | CssComponentValue::Dimension { .. } | CssComponentValue::Percentage { .. });
    let function = matches!(c, CssComponentValue::Function { .. });
    if !literal && !function {
        return Err(CssNumericConstructionError::at(CssNumericConstructionErrorKind::RootDomainMismatch, Some(origin)));
    }
    let mut result = match parse_node(c, root) {
        Ok(v) => v,
        Err(e) => {
            return Err(e);
        },
    };
    proof {
        use_type_invariant(&result);
    }
    let integer = match c {
        CssComponentValue::Number { representation, .. } => integer_text(representation.as_str()),
        _ => false,
    };
    let is_integer_root = matches!(root, CalculationRoot::Integer);
    if is_integer_root && literal && !integer {
        return Err(CssNumericConstructionError::at(CssNumericConstructionErrorKind::RootDomainMismatch, Some(origin)));
    }
    let zero = match c {
        CssComponentValue::Number { representation, .. } => zero_text(representation.as_str()),
        _ => false,
    };
    let length_root = matches!(root, CalculationRoot::Length | CalculationRoot::LengthPercentage);
    if length_root && zero {
        proof {
            reveal(parse_token_spec);
            assert(expr_view(result).kind == CalcKind::Value(*c));
            assert(result.kind is Value);
        }
        result.ty = CssNumericType::dimension(CssNumericDimension::Length);
    }
    if !root_accepts_exec(root, result.ty) {
        return Err(CssNumericConstructionError::at(CssNumericConstructionErrorKind::RootDomainMismatch, Some(origin)));
    }
    let size = match result.grow(0, usize::MAX) {
        Some(size) => size,
        None => {
            return Err(CssNumericConstructionError::component(
                CssComponentValueError::new(CssComponentValueErrorKind::CapacityOverflow, origin),
            ));
        },
    };
    if size > limits.max_css_bytes() {
        return Err(CssNumericConstructionError::component(
            CssComponentValueError::new(CssComponentValueErrorKind::ByteLimit, origin),
        ));
    }
    result.components = Some(values);
    Ok(result)
}

/// Admits component values under a root context, rejecting recovered closing tokens.
pub fn construct(
    values: CssComponentValues,
    root: CalculationRoot,
    limits: CssComponentValueLimits,
) -> (r: Result<CssCalculationExpression, CssNumericConstructionError>)
    ensures
        construct_outcome(values.items@, root, limits, true, r),
{
    construct_with_policy(values, root, limits, true)
}

/// Whether a number token is spelled as an integer.
#[derive(Clone, Copy, Debug, PartialEq, Eq, Structural)]
pub enum CssNumericTokenKind {
    Integer,
    Number,
}

/// The lexical number of a numeric token.
#[derive(Clone, Copy, Debug)]
pub struct CssNumericTokenRef<'a> {
    representation: &'a str,
    kind: CssNumericTokenKind,
}

impl<'a> CssNumericTokenRef<'a> {
    /// The lexical number of a number, percentage or dimension token.
    pub fn of_token(c: &'a CssComponentValue) -> (r: Self)
        ensures
            r.text() == representation_of(*c),
            r.kind_of() == if c is Number && is_integer_text(representation_of(*c)) {
                CssNumericTokenKind::Integer
            } else {
                CssNumericTokenKind::Number
            },
    {
        CssNumericLiteralRef { component: c, ty: CssNumericType::number() }.numeric()
    }

    pub closed spec fn text(&self) -> Seq<char> {
        self.representation@
    }

    pub closed spec fn kind_of(&self) -> CssNumericTokenKind {
        self.kind
    }

    pub fn representation(self) -> (r: &'a str)
        ensures
            r@ == self.text(),
    {
        self.representation
    }

    pub fn kind(self) -> (r: CssNumericTokenKind)
        ensures
            r == self.kind_of(),
    {
        self.kind
    }
}

/// The spelled number of a numeric token.
pub open spec fn representation_of(c: CssComponentValue) -> Seq<char> {
    match c {
        CssComponentValue::Number { representation, .. } => representation@,
        CssComponentValue::Percentage { representation, .. } => representation@,
        CssComponentValue::Dimension { representation, .. } => representation@,
        _ => Seq::empty(),
    }
}

/// The unit of a dimension token.
pub open spec fn unit_of(c: CssComponentValue) -> Option<Seq<char>> {
    match c {
        CssComponentValue::Dimension { unit, .. } => Some(unit@),
        _ => None,
    }
}

/// A checked exact lexical numeric leaf.
#[derive(Clone, Copy, Debug)]
pub struct CssNumericLiteralRef<'a> {
    component: &'a CssComponentValue,
    ty: CssNumericType,
}

impl<'a> CssNumericLiteralRef<'a> {
    pub closed spec fn token(&self) -> CssComponentValue {
        *self.component
    }

    pub closed spec fn type_of(&self) -> CssNumericType {
        self.ty
    }

    /// The unit identity, independent of its spelling.
    pub fn canonical_unit(self) -> (r: Option<CssNumericUnit>)
        ensures
            r == match unit_of(self.token()) {
                Some(u) => numeric_unit_of(u),
                None => None,
            },
    {
        match self.component {
            CssComponentValue::Dimension { unit, .. } => crate::units::numeric_unit(unit.as_str()),
            _ => None,
        }
    }

    pub fn numeric_type(self) -> (r: CssNumericType)
        ensures
            r == self.type_of(),
    {
        self.ty
    }

    /// The lexical number, with whether it is spelled as an integer.
    pub fn numeric(self) -> (r: CssNumericTokenRef<'a>)
        ensures
            r.text() == representation_of(self.token()),
            r.kind_of() == if self.token() is Number && is_integer_text(representation_of(self.token())) {
                CssNumericTokenKind::Integer
            } else {
                CssNumericTokenKind::Number
            },
    {
        let representation = self.representation();
        let integer = match self.component {
            CssComponentValue::Number { .. } => integer_text(representation),
            _ => false,
        };
        CssNumericTokenRef {
            representation,
            kind: if integer {
                CssNumericTokenKind::Integer
            } else {
                CssNumericTokenKind::Number
            },
        }
    }

    pub fn representation(self) -> (r: &'a str)
        ensures
            r@ == representation_of(self.token()),
    {
        match self.component {
            CssComponentValue::Number { representation, .. } => representation.as_str(),
            CssComponentValue::Percentage { representation, .. } => representation.as_str(),
            CssComponentValue::Dimension { representation, .. } => representation.as_str(),
            _ => {
                proof {
                    reveal_strlit("");
                }
                ""
            },
        }
    }

    pub fn unit(self) -> (r: Option<&'a str>)
        ensures
            match r {
                Some(u) => unit_of(self.token()) == Some(u@),
                None => unit_of(self.token()) is None,
            },
    {
        match self.component {
            CssComponentValue::Dimension { unit, .. } => Some(unit.as_str()),
            _ => None,
        }
    }

    pub fn origin(self) -> (r: &'a CssValueOrigin)
        ensures
            *r == self.token().origin_of(),
    {
        self.component.origin()
    }
}

/// A literal leaf, classified by its token.
#[derive(Clone, Copy, Debug)]
pub enum CssCalculationValueRef<'a> {
    Integer(CssNumericLiteralRef<'a>),
    Number(CssNumericLiteralRef<'a>),
    Percentage(CssNumericLiteralRef<'a>),
    Length(CssNumericLiteralRef<'a>),
    Angle(CssNumericLiteralRef<'a>),
    Time(CssNumericLiteralRef<'a>),
    Frequency(CssNumericLiteralRef<'a>),
    Resolution(CssNumericLiteralRef<'a>),
    Flex(CssNumericLiteralRef<'a>),
}

/// The leaf classes, in the order of `CssCalculationValueRef`.
#[derive(Clone, Copy, Debug, PartialEq, Eq, Structural)]
pub enum CssValueClass {
    Integer,
    Number,
    Percentage,
    Length,
    Angle,
    Time,
    Frequency,
    Resolution,
    Flex,
}

/// How a literal token is classified: integers apart from other numbers, dimensions by
/// the dimension of their unit.
pub open spec fn value_class(c: CssComponentValue) -> CssValueClass {
    match c {
        CssComponentValue::Number { representation, .. } => if is_integer_text(representation@) {
            CssValueClass::Integer
        } else {
            CssValueClass::Number
        },
        CssComponentValue::Percentage { .. } => CssValueClass::Percentage,
        CssComponentValue::Dimension { unit, .. } => match unit_dimension_of(unit@) {
            Some(CssNumericDimension::Length) => CssValueClass::Length,
            Some(CssNumericDimension::Angle) => CssValueClass::Angle,
            Some(CssNumericDimension::Time) => CssValueClass::Time,
            Some(CssNumericDimension::Frequency) => CssValueClass::Frequency,
            Some(CssNumericDimension::Resolution) => CssValueClass::Resolution,
            Some(CssNumericDimension::Flex) => CssValueClass::Flex,
            _ => CssValueClass::Number,
        },
        _ => CssValueClass::Number,
    }
}

impl<'a> CssCalculationValueRef<'a> {
    pub open spec fn literal_of(self) -> CssNumericLiteralRef<'a> {
        match self {
            CssCalculationValueRef::Integer(v) => v,
            CssCalculationValueRef::Number(v) => v,
            CssCalculationValueRef::Percentage(v) => v,
            CssCalculationValueRef::Length(v) => v,
            CssCalculationValueRef::Angle(v) => v,
            CssCalculationValueRef::Time(v) => v,
            CssCalculationValueRef::Frequency(v) => v,
            CssCalculationValueRef::Resolution(v) => v,
            CssCalculationValueRef::Flex(v) => v,
        }
    }

    pub open spec fn class_of(self) -> CssValueClass {
        match self {
            CssCalculationValueRef::Integer(_) => CssValueClass::Integer,
            CssCalculationValueRef::Number(_) => CssValueClass::Number,
            CssCalculationValueRef::Percentage(_) => CssValueClass::Percentage,
            CssCalculationValueRef::Length(_) => CssValueClass::Length,
            CssCalculationValueRef::Angle(_) => CssValueClass::Angle,
            CssCalculationValueRef::Time(_) => CssValueClass::Time,
            CssCalculationValueRef::Frequency(_) => CssValueClass::Frequency,
            CssCalculationValueRef::Resolution(_) => CssValueClass::Resolution,
            CssCalculationValueRef::Flex(_) => CssValueClass::Flex,
        }
    }

    pub fn literal(self) -> (r: CssNumericLiteralRef<'a>)
        ensures
            r == self.literal_of(),
    {
        match self {
            CssCalculationValueRef::Integer(v) => v,
            CssCalculationValueRef::Number(v) => v,
            CssCalculationValueRef::Percentage(v) => v,
            CssCalculationValueRef::Length(v) => v,
            CssCalculationValueRef::Angle(v) => v,
            CssCalculationValueRef::Time(v) => v,
            CssCalculationValueRef::Frequency(v) => v,
            CssCalculationValueRef::Resolution(v) => v,
            CssCalculationValueRef::Flex(v) => v,
        }
    }
}

proof fn lemma_sum_view_index(s: Seq<SumEntry>)
    ensures
        sum_view(s).len() == s.len(),
        forall|i: int| 0 <= i < s.len() ==> #[trigger] sum_view(s)[i] == (s[i].operator, s[i].operator_origin, expr_view(s[i].expression)),
    decreases s.len(),
{
    if s.len() > 0 {
        lemma_sum_view_index(s.drop_last());
    }
}

proof fn lemma_product_view_index(s: Seq<ProductEntry>)
    ensures
        product_view(s).len() == s.len(),
        forall|i: int| 0 <= i < s.len() ==> #[trigger] product_view(s)[i] == (s[i].operator, s[i].operator_origin, expr_view(s[i].expression)),
    decreases s.len(),
{
    if s.len() > 0 {
        lemma_product_view_index(s.drop_last());
    }
}

/// A borrowed constant node.
#[derive(Clone, Copy, Debug)]
pub struct CssCalculationConstantRef<'a> {
    node: &'a CssCalculationExpression,
}

impl<'a> CssCalculationConstantRef<'a> {
    #[verifier::type_invariant]
    spec fn is_constant(self) -> bool {
        self.node.kind is Constant
    }

    pub closed spec fn node_view(&self) -> CalcView {
        expr_view(*self.node)
    }

    pub fn value(self) -> (r: CssNumericConstant)
        ensures
            self.node_view().kind == CalcKind::Constant(r),
    {
        proof {
            use_type_invariant(&self);
        }
        match &self.node.kind {
            NodeKind::Constant(v) => *v,
            _ => {
                proof {
                    assert(false);
                }
                CssNumericConstant::E
            },
        }
    }

    pub fn origin(self) -> (r: &'a CssValueOrigin)
        ensures
            *r == self.node_view().origin,
    {
        &self.node.origin
    }

    /// A constant is a plain number: every exponent zero, no percentage hint.
    pub fn numeric_type(self) -> (r: CssNumericType)
        ensures
            r == self.node_view().ty,
            r == number_type(),
            all_zero(r.powers()),
            r.hint_of() is None,
    {
        proof {
            use_type_invariant(&self);
            use_type_invariant(self.node);
            lemma_number_type();
        }
        self.node.ty
    }
}

/// A borrowed sum node.
#[derive(Clone, Copy, Debug)]
pub struct CssCalculationSumRef<'a> {
    node: &'a CssCalculationExpression,
}

/// One borrowed term of a sum, with its operator and the operator's origin.
#[derive(Clone, Copy, Debug)]
pub struct CssCalculationSumTermRef<'a> {
    operator: Option<CssCalculationSumOperator>,
    expression: &'a CssCalculationExpression,
    operator_origin: Option<&'a CssValueOrigin>,
}

impl<'a> CssCalculationSumTermRef<'a> {
    pub closed spec fn operator_of(&self) -> Option<CssCalculationSumOperator> {
        self.operator
    }

    pub closed spec fn operator_origin_of(&self) -> Option<CssValueOrigin> {
        match self.operator_origin {
            Some(o) => Some(*o),
            None => None,
        }
    }

    pub closed spec fn expression_view(&self) -> CalcView {
        expr_view(*self.expression)
    }

    pub fn operator_origin(self) -> (r: Option<&'a CssValueOrigin>)
        ensures
            match r {
                Some(o) => self.operator_origin_of() == Some(*o),
                None => self.operator_origin_of() is None,
            },
    {
        self.operator_origin
    }

    pub fn operator(self) -> (r: Option<CssCalculationSumOperator>)
        ensures
            r == self.operator_of(),
    {
        self.operator
    }

    pub fn expression(self) -> (r: CssCalculationExpressionRef<'a>)
        ensures
            r.ref_view() == self.expression_view(),
            ref_shape(r, self.expression_view()),
    {
        self.expression.as_ref()
    }
}

impl<'a> CssCalculationSumRef<'a> {
    #[verifier::type_invariant]
    spec fn is_sum(self) -> bool {
        self.node.kind is Sum
    }

    pub closed spec fn node_view(&self) -> CalcView {
        expr_view(*self.node)
    }

    /// The terms of the sum.
    pub closed spec fn terms(&self) -> Seq<(Option<CssCalculationSumOperator>, Option<CssValueOrigin>, CalcView)> {
        match self.node_view().kind {
            CalcKind::Sum(t) => t,
            _ => Seq::empty(),
        }
    }

    /// The number of operands, at least two; the first has no operator, each later one
    /// has an operator and the origin of its authored delimiter.
    pub fn len(self) -> (r: usize)
        ensures
            r == self.terms().len(),
            r >= 2,
            self.terms()[0].0 is None && self.terms()[0].1 is None,
            forall|k: int| 1 <= k < r ==> (#[trigger] self.terms()[k]).0 is Some && self.terms()[k].1 is Some,
    {
        proof {
            use_type_invariant(&self);
            use_type_invariant(self.node);
        }
        match &self.node.kind {
            NodeKind::Sum(v) => {
                proof {
                    lemma_sum_view_index(v@);
                    assert forall|k: int| 1 <= k < v@.len() implies (#[trigger] self.terms()[k]).0 is Some
                        && self.terms()[k].1 is Some by {
                        assert(v@[k].operator is Some);
                    }
                }
                v.len()
            },
            _ => 0,
        }
    }

    /// A checked sum always has terms.
    pub fn is_empty(self) -> (r: bool)
        ensures
            !r,
    {
        false
    }

    /// The node's origin, which is that of its first operand.
    pub fn origin(self) -> (r: &'a CssValueOrigin)
        ensures
            *r == self.node_view().origin,
            *r == self.terms()[0].2.origin,
    {
        proof {
            use_type_invariant(&self);
            use_type_invariant(self.node);
            lemma_sum_view_index(self.node.kind->Sum_0@);
        }
        &self.node.origin
    }

    /// The term at position `i`: its operator (none for the first), the operator's
    /// origin and its expression.
    pub fn term(self, i: usize) -> (r: Option<CssCalculationSumTermRef<'a>>)
        ensures
            i < self.terms().len() ==> (r matches Some(t) && t.operator_of() == self.terms()[i as int].0
                && t.operator_origin_of() == self.terms()[i as int].1 && t.expression_view() == self.terms()[i as int].2),
            i >= self.terms().len() ==> r is None,
    {
        proof {
            use_type_invariant(&self);
        }
        match &self.node.kind {
            NodeKind::Sum(v) => {
                proof {
                    lemma_sum_view_index(v@);
                }
                if i < v.len() {
                    let entry = &v[i];
                    let operator_origin = match &entry.operator_origin {
                        Some(o) => Some(o),
                        None => None,
                    };
                    Some(CssCalculationSumTermRef { operator: entry.operator, expression: &entry.expression, operator_origin })
                } else {
                    None
                }
            },
            _ => None,
        }
    }
}

/// A borrowed product node.
#[derive(Clone, Copy, Debug)]
pub struct CssCalculationProductRef<'a> {
    node: &'a CssCalculationExpression,
}

/// One borrowed factor of a product, with its operator and the operator's origin.
#[derive(Clone, Copy, Debug)]
pub struct CssCalculationProductFactorRef<'a> {
    operator: Option<CssCalculationProductOperator>,
    expression: &'a CssCalculationExpression,
    operator_origin: Option<&'a CssValueOrigin>,
}

impl<'a> CssCalculationProductFactorRef<'a> {
    pub closed spec fn operator_of(&self) -> Option<CssCalculationProductOperator> {
        self.operator
    }

    pub closed spec fn operator_origin_of(&self) -> Option<CssValueOrigin> {
        match self.operator_origin {
            Some(o) => Some(*o),
            None => None,
        }
    }

    pub closed spec fn expression_view(&self) -> CalcView {
        expr_view(*self.expression)
    }

    pub fn operator_origin(self) -> (r: Option<&'a CssValueOrigin>)
        ensures
            match r {
                Some(o) => self.operator_origin_of() == Some(*o),
                None => self.operator_origin_of() is None,
            },
    {
        self.operator_origin
    }

    pub fn operator(self) -> (r: Option<CssCalculationProductOperator>)
        ensures
            r == self.operator_of(),
    {
        self.operator
    }

    pub fn expression(self) -> (r: CssCalculationExpressionRef<'a>)
        ensures
            r.ref_view() == self.expression_view(),
            ref_shape(r, self.expression_view()),
    {
        self.expression.as_ref()
    }
}

impl<'a> CssCalculationProductRef<'a> {
    #[verifier::type_invariant]
    spec fn is_product(self) -> bool {
        self.node.kind is Product
    }

    pub closed spec fn node_view(&self) -> CalcView {
        expr_view(*self.node)
    }

    /// The factors of the product.
    pub closed spec fn factors(&self) -> Seq<(Option<CssCalculationProductOperator>, Option<CssValueOrigin>, CalcView)> {
        match self.node_view().kind {
            CalcKind::Product(t) => t,
            _ => Seq::empty(),
        }
    }

    /// The number of operands, at least two; the first has no operator, each later one
    /// has an operator and the origin of its authored delimiter.
    pub fn len(self) -> (r: usize)
        ensures
            r == self.factors().len(),
            r >= 2,
            self.factors()[0].0 is None && self.factors()[0].1 is None,
            forall|k: int| 1 <= k < r ==> (#[trigger] self.factors()[k]).0 is Some && self.factors()[k].1 is Some,
    {
        proof {
            use_type_invariant(&self);
            use_type_invariant(self.node);
        }
        match &self.node.kind {
            NodeKind::Product(v) => {
                proof {
                    lemma_product_view_index(v@);
                    assert forall|k: int| 1 <= k < v@.len() implies (#[trigger] self.factors()[k]).0 is Some
                        && self.factors()[k].1 is Some by {
                        assert(v@[k].operator is Some);
                    }
                }
                v.len()
            },
            _ => 0,
        }
    }

    /// A checked product always has factors.
    pub fn is_empty(self) -> (r: bool)
        ensures
            !r,
    {
        false
    }

    /// The node's origin, which is that of its first operand.
    pub fn origin(self) -> (r: &'a CssValueOrigin)
        ensures
            *r == self.node_view().origin,
            *r == self.factors()[0].2.origin,
    {
        proof {
            use_type_invariant(&self);
            use_type_invariant(self.node);
            lemma_product_view_index(self.node.kind->Product_0@);
        }
        &self.node.origin
    }

    /// The factor at position `i`: its operator (none for the first), the operator's
    /// origin and its expression.
    pub fn factor(self, i: usize) -> (r: Option<CssCalculationProductFactorRef<'a>>)
        ensures
            i < self.factors().len() ==> (r matches Some(t) && t.operator_of() == self.factors()[i as int].0
                && t.operator_origin_of() == self.factors()[i as int].1 && t.expression_view() == self.factors()[i as int].2),
            i >= self.factors().len() ==> r is None,
    {
        proof {
            use_type_invariant(&self);
        }
        match &self.node.kind {
            NodeKind::Product(v) => {
                proof {
                    lemma_product_view_index(v@);
                }
                if i < v.len() {
                    let entry = &v[i];
                    let operator_origin = match &entry.operator_origin {
                        Some(o) => Some(o),
                        None => None,
                    };
                    Some(CssCalculationProductFactorRef { operator: entry.operator, expression: &entry.expression, operator_origin })
                } else {
                    None
                }
            },
            _ => None,
        }
    }
}

/// Whether a function node has the one present argument of `calc()`.
spec fn single_calc(k: NodeKind) -> bool {
    k matches NodeKind::Function { function, args, .. } && function is Calc && args@.len() == 1 && args@[0] is Some
}

/// A borrowed parenthesized group or nested `calc()`.
#[derive(Clone, Copy, Debug)]
pub struct CssCalculationUnaryRef<'a> {
    node: &'a CssCalculationExpression,
}

/// The single operand of a group or a nested `calc()`.
pub open spec fn operand_view(v: CalcView) -> CalcView {
    match v.kind {
        CalcKind::Group(b) => *b,
        CalcKind::Function(_, args, _) => args[0]->Some_0,
        _ => v,
    }
}

impl<'a> CssCalculationUnaryRef<'a> {
    #[verifier::type_invariant]
    spec fn is_unary(self) -> bool {
        self.node.kind is Group || single_calc(self.node.kind)
    }

    /// The node's numeric type, which is its operand's.
    fn operand_type(self) -> (r: CssNumericType)
        ensures
            r == self.node_view().ty,
            r == operand_view(self.node_view()).ty,
    {
        proof {
            use_type_invariant(&self);
            use_type_invariant(self.node);
        }
        match &self.node.kind {
            NodeKind::Function { args, .. } => {
                proof {
                    lemma_args_view_index(args@);
                    assert(args_view(args@)[0] == opt_view(args@[0]));
                    assert(operand_view(self.node_view()) == expr_view(args@[0]->Some_0));
                }
            },
            NodeKind::Group(b) => {
                proof {
                    assert(operand_view(self.node_view()) == expr_view(**b));
                }
            },
            _ => {},
        }
        self.node.ty
    }

    pub closed spec fn node_view(&self) -> CalcView {
        expr_view(*self.node)
    }

    pub fn origin(self) -> (r: &'a CssValueOrigin)
        ensures
            *r == self.node_view().origin,
    {
        &self.node.origin
    }

    pub fn operand(self) -> (r: CssCalculationExpressionRef<'a>)
        ensures
            r.ref_view() == operand_view(self.node_view()),
            ref_shape(r, operand_view(self.node_view())),
    {
        proof {
            use_type_invariant(&self);
        }
        match &self.node.kind {
            NodeKind::Group(b) => {
                let inner: &CssCalculationExpression = b;
                inner.as_ref()
            },
            NodeKind::Function { args, .. } => {
                proof {
                    lemma_args_view_index(args@);
                }
                match &args[0] {
                    Some(e) => e.as_ref(),
                    None => {
                        proof {
                            assert(false);
                        }
                        self.node.as_ref()
                    },
                }
            },
            _ => {
                proof {
                    assert(false);
                }
                self.node.as_ref()
            },
        }
    }
}

/// A borrowed math function node other than a single nested `calc()`.
#[derive(Clone, Copy, Debug)]
pub struct CssCalculationFunctionRef<'a> {
    node: &'a CssCalculationExpression,
}

impl<'a> CssCalculationFunctionRef<'a> {
    #[verifier::type_invariant]
    spec fn is_function(self) -> bool {
        self.node.kind is Function
    }

    pub closed spec fn node_view(&self) -> CalcView {
        expr_view(*self.node)
    }

    /// The arguments; an absent `clamp()` bound is `None`.
    pub closed spec fn arguments(&self) -> Seq<Option<CalcView>> {
        match self.node_view().kind {
            CalcKind::Function(_, args, _) => args,
            _ => Seq::empty(),
        }
    }

    pub fn origin(self) -> (r: &'a CssValueOrigin)
        ensures
            *r == self.node_view().origin,
    {
        &self.node.origin
    }

    pub fn function(self) -> (r: CssMathFunction)
        ensures
            self.node_view().kind matches CalcKind::Function(f, _, _) && f == r,
    {
        proof {
            use_type_invariant(&self);
        }
        match &self.node.kind {
            NodeKind::Function { function, .. } => *function,
            _ => {
                proof {
                    assert(false);
                }
                CssMathFunction::Calc
            },
        }
    }

    /// The number of arguments, as many as the function takes: three for `clamp()`,
    /// two for `mod()`, `rem()`, `atan2()` and `pow()`, one or two for `round()` (a
    /// rounding strategy is not counted) and `log()`, at least one for `min()`,
    /// `max()` and `hypot()`, and one for every other function.
    pub fn len(self) -> (r: usize)
        ensures
            r == self.arguments().len(),
            r >= 1,
            self.node_view().kind matches CalcKind::Function(f, _, _) && arity_ok(f, r as int),
    {
        proof {
            use_type_invariant(&self);
            use_type_invariant(self.node);
        }
        match &self.node.kind {
            NodeKind::Function { args, .. } => {
                proof {
                    lemma_args_view_index(args@);
                }
                args.len()
            },
            _ => 0,
        }
    }

    /// A checked function always has arguments.
    pub fn is_empty(self) -> (r: bool)
        ensures
            !r,
    {
        false
    }

    /// The argument at position `i`; `Some(None)` is an absent `clamp()` bound.
    pub fn argument(self, i: usize) -> (r: Option<Option<CssCalculationExpressionRef<'a>>>)
        ensures
            i >= self.arguments().len() ==> r is None,
            i < self.arguments().len() ==> match r {
                Some(Some(a)) => self.arguments()[i as int] == Some(a.ref_view()) && ref_shape(a, a.ref_view()),
                Some(None) => self.arguments()[i as int] is None,
                None => false,
            },
    {
        proof {
            use_type_invariant(&self);
        }
        match &self.node.kind {
            NodeKind::Function { args, .. } => {
                proof {
                    lemma_args_view_index(args@);
                }
                if i < args.len() {
                    match &args[i] {
                        Some(e) => Some(Some(e.as_ref())),
                        None => Some(None),
                    }
                } else {
                    None
                }
            },
            _ => None,
        }
    }

    pub fn rounding_strategy(self) -> (r: Option<CssRoundingStrategy>)
        ensures
            self.node_view().kind matches CalcKind::Function(_, _, s) && s == r,
    {
        proof {
            use_type_invariant(&self);
        }
        match &self.node.kind {
            NodeKind::Function { strategy, .. } => *strategy,
            _ => {
                proof {
                    assert(false);
                }
                None
            },
        }
    }
}

/// A borrowed calculation node, by kind.
#[derive(Clone, Copy, Debug)]
pub enum CssCalculationExpressionRef<'a> {
    Value(CssCalculationValueRef<'a>),
    Constant(CssCalculationConstantRef<'a>),
    Sum(CssCalculationSumRef<'a>),
    Product(CssCalculationProductRef<'a>),
    Group(CssCalculationUnaryRef<'a>),
    NestedCalc(CssCalculationUnaryRef<'a>),
    Function(CssCalculationFunctionRef<'a>),
}

/// Which borrowed kind a node is shown as.
pub open spec fn ref_shape(r: CssCalculationExpressionRef, v: CalcView) -> bool {
    match v.kind {
        CalcKind::Value(c) => r matches CssCalculationExpressionRef::Value(x) && x.class_of() == value_class(c),
        CalcKind::Constant(_) => r is Constant,
        CalcKind::Sum(_) => r is Sum,
        CalcKind::Product(_) => r is Product,
        CalcKind::Group(_) => r is Group,
        CalcKind::Function(f, args, _) => if f is Calc && args.len() == 1 && args[0] is Some {
            r is NestedCalc
        } else {
            r is Function
        },
    }
}

impl<'a> CssCalculationExpressionRef<'a> {
    /// The node shown.
    pub open spec fn ref_view(self) -> CalcView {
        match self {
            CssCalculationExpressionRef::Value(v) => CalcView {
                kind: CalcKind::Value(v.literal_of().token()),
                ty: v.literal_of().type_of(),
                origin: v.literal_of().token().origin_of(),
                closing: None,
            },
            CssCalculationExpressionRef::Constant(v) => v.node_view(),
            CssCalculationExpressionRef::Sum(v) => v.node_view(),
            CssCalculationExpressionRef::Product(v) => v.node_view(),
            CssCalculationExpressionRef::Group(v) => v.node_view(),
            CssCalculationExpressionRef::NestedCalc(v) => v.node_view(),
            CssCalculationExpressionRef::Function(v) => v.node_view(),
        }
    }

    /// The node's origin; a sum's or product's is that of its first operand.
    pub fn origin(self) -> (r: &'a CssValueOrigin)
        ensures
            *r == self.ref_view().origin,
            self matches CssCalculationExpressionRef::Sum(s) ==> *r == s.terms()[0].2.origin,
            self matches CssCalculationExpressionRef::Product(p) ==> *r == p.factors()[0].2.origin,
    {
        match self {
            CssCalculationExpressionRef::Value(v) => v.literal().origin(),
            CssCalculationExpressionRef::Constant(v) => v.origin(),
            CssCalculationExpressionRef::Sum(v) => v.origin(),
            CssCalculationExpressionRef::Product(v) => v.origin(),
            CssCalculationExpressionRef::Group(v) => v.origin(),
            CssCalculationExpressionRef::NestedCalc(v) => v.origin(),
            CssCalculationExpressionRef::Function(v) => v.origin(),
        }
    }

    /// The node's numeric type; a constant's is the plain number type, and a group's
    /// or nested `calc()`'s is that of its operand.
    pub fn numeric_type(self) -> (r: CssNumericType)
        ensures
            r == self.ref_view().ty,
            self is Constant ==> r == number_type(),
            self matches CssCalculationExpressionRef::Group(u) ==> r == operand_view(u.node_view()).ty,
            self matches CssCalculationExpressionRef::NestedCalc(u) ==> r == operand_view(u.node_view()).ty,
    {
        match self {
            CssCalculationExpressionRef::Value(v) => v.literal().numeric_type(),
            CssCalculationExpressionRef::Constant(v) => v.numeric_type(),
            CssCalculationExpressionRef::Sum(v) => v.node.ty,
            CssCalculationExpressionRef::Product(v) => v.node.ty,
            CssCalculationExpressionRef::Group(v) => v.operand_type(),
            CssCalculationExpressionRef::NestedCalc(v) => v.operand_type(),
            CssCalculationExpressionRef::Function(v) => v.node.ty,
        }
    }
}

fn classify_literal<'a>(c: &'a CssComponentValue, ty: CssNumericType) -> (r: CssCalculationValueRef<'a>)
    ensures
        r.literal_of().token() == *c,
        r.literal_of().type_of() == ty,
        r.class_of() == value_class(*c),
{
    let v = CssNumericLiteralRef { component: c, ty };
    match c {
        CssComponentValue::Number { representation, .. } => if integer_text(representation.as_str()) {
            CssCalculationValueRef::Integer(v)
        } else {
            CssCalculationValueRef::Number(v)
        },
        CssComponentValue::Percentage { .. } => CssCalculationValueRef::Percentage(v),
        CssComponentValue::Dimension { unit, .. } => match crate::units::unit_dimension(unit.as_str()) {
            Some(CssNumericDimension::Length) => CssCalculationValueRef::Length(v),
            Some(CssNumericDimension::Angle) => CssCalculationValueRef::Angle(v),
            Some(CssNumericDimension::Time) => CssCalculationValueRef::Time(v),
            Some(CssNumericDimension::Frequency) => CssCalculationValueRef::Frequency(v),
            Some(CssNumericDimension::Resolution) => CssCalculationValueRef::Resolution(v),
            Some(CssNumericDimension::Flex) => CssCalculationValueRef::Flex(v),
            _ => CssCalculationValueRef::Number(v),
        },
        _ => CssCalculationValueRef::Number(v),
    }
}

impl CssCalculationExpression {
    /// The node borrowed by kind.
    pub fn as_ref(&self) -> (r: CssCalculationExpressionRef<'_>)
        ensures
            r.ref_view() == self.calc_view(),
            ref_shape(r, self.calc_view()),
    {
        proof {
            use_type_invariant(self);
        }
        match &self.kind {
            NodeKind::Value(c) => CssCalculationExpressionRef::Value(classify_literal(c, self.ty)),
            NodeKind::Constant(_) => CssCalculationExpressionRef::Constant(CssCalculationConstantRef { node: self }),
            NodeKind::Sum(_) => CssCalculationExpressionRef::Sum(CssCalculationSumRef { node: self }),
            NodeKind::Product(_) => CssCalculationExpressionRef::Product(CssCalculationProductRef { node: self }),
            NodeKind::Group(_) => CssCalculationExpressionRef::Group(CssCalculationUnaryRef { node: self }),
            NodeKind::Function { function, args, .. } => {
                proof {
                    lemma_args_view_index(args@);
                }
                let nested = match function {
                    CssMathFunction::Calc => args.len() == 1 && args[0].is_some(),
                    _ => false,
                };
                if nested {
                    CssCalculationExpressionRef::NestedCalc(CssCalculationUnaryRef { node: self })
                } else {
                    CssCalculationExpressionRef::Function(CssCalculationFunctionRef { node: self })
                }
            },
        }
    }

    /// The classified result type.
    pub fn result_type(&self) -> (r: CssCalculationType)
        ensures
            r == classify(self.calc_view().ty),
    {
        CssCalculationType::from_numeric(self.ty)
    }

    pub fn numeric_type(&self) -> (r: CssNumericType)
        ensures
            r == self.calc_view().ty,
    {
        self.ty
    }

    pub fn origin(&self) -> (r: &CssValueOrigin)
        ensures
            *r == self.calc_view().origin,
    {
        &self.origin
    }
}

/// The root context a calculation type's tag stands for.
pub open spec fn root_of(tag: u8) -> CalculationRoot {
    if tag == 1 {
        CalculationRoot::Number
    } else if tag == 2 {
        CalculationRoot::Integer
    } else if tag == 3 {
        CalculationRoot::Percentage
    } else if tag == 4 {
        CalculationRoot::Length
    } else if tag == 5 {
        CalculationRoot::LengthPercentage
    } else if tag == 6 {
        CalculationRoot::Angle
    } else if tag == 7 {
        CalculationRoot::Time
    } else if tag == 8 {
        CalculationRoot::Frequency
    } else {
        CalculationRoot::Resolution
    }
}

/// A checked calculation admitted under the root context its tag stands for, owning
/// its component values.
#[derive(Debug)]
pub struct CssCalculation<const ROOT: u8> {
    expression: CssCalculationExpression,
}

pub type CssNumberCalculation = CssCalculation<1>;

pub type CssIntegerCalculation = CssCalculation<2>;

pub type CssPercentageCalculation = CssCalculation<3>;

pub type CssLengthCalculation = CssCalculation<4>;

pub type CssLengthPercentageCalculation = CssCalculation<5>;

pub type CssAngleCalculation = CssCalculation<6>;

pub type CssTimeCalculation = CssCalculation<7>;

pub type CssFrequencyCalculation = CssCalculation<8>;

pub type CssResolutionCalculation = CssCalculation<9>;

impl<const ROOT: u8> CssCalculation<ROOT> {
    #[verifier::type_invariant]
    spec fn owns_components(self) -> bool {
        self.expression.components is Some
    }

    /// The checked root node.
    pub closed spec fn calculation(&self) -> CssCalculationExpression {
        self.expression
    }

    /// The root context of this calculation type.
    pub fn root_context() -> (r: CalculationRoot)
        ensures
            r == root_of(ROOT),
    {
        if ROOT == 1 {
            CalculationRoot::Number
        } else if ROOT == 2 {
            CalculationRoot::Integer
        } else if ROOT == 3 {
            CalculationRoot::Percentage
        } else if ROOT == 4 {
            CalculationRoot::Length
        } else if ROOT == 5 {
            CalculationRoot::LengthPercentage
        } else if ROOT == 6 {
            CalculationRoot::Angle
        } else if ROOT == 7 {
            CalculationRoot::Time
        } else if ROOT == 8 {
            CalculationRoot::Frequency
        } else {
            CalculationRoot::Resolution
        }
    }

    fn from_admitted(r: Result<CssCalculationExpression, CssNumericConstructionError>) -> (out: Result<Self, CssNumericConstructionError>)
        requires
            r matches Ok(e) ==> e.components_view() is Some,
        ensures
            match out {
                Ok(s) => r == Result::<CssCalculationExpression, CssNumericConstructionError>::Ok(s.calculation()),
                Err(e) => r == Result::<CssCalculationExpression, CssNumericConstructionError>::Err(e),
            },
    {
        match r {
            Ok(expression) => Ok(Self { expression }),
            Err(e) => Err(e),
        }
    }

    /// Admits component values under this type's root with explicit limits.
    pub fn try_from_components_with_limits(values: CssComponentValues, limits: CssComponentValueLimits) -> (r: Result<Self, CssNumericConstructionError>)
        ensures
            match r {
                Ok(s) => construct_outcome(values.items@, root_of(ROOT), limits, true, Ok(s.calculation())),
                Err(e) => construct_outcome(values.items@, root_of(ROOT), limits, true, Err(e)),
            },
    {
        let ghost items = values.items@;
        let admitted = construct(values, Self::root_context(), limits);
        proof {
            if fits(items, 0, 0, 0, limits) && admitted is Ok {
                assert(admitted->Ok_0.components_view() == Some(items));
            }
        }
        Self::from_admitted(admitted)
    }

    /// Admits component values under this type's root with the default limits.
    pub fn try_from_components(values: CssComponentValues) -> (r: Result<Self, CssNumericConstructionError>)
        ensures
            match r {
                Ok(s) => construct_outcome(values.items@, root_of(ROOT), default_limits(), true, Ok(s.calculation())),
                Err(e) => construct_outcome(values.items@, root_of(ROOT), default_limits(), true, Err(e)),
            },
    {
        Self::try_from_components_with_limits(values, CssComponentValueLimits::default())
    }

    pub fn expression(&self) -> (r: CssCalculationExpressionRef<'_>)
        ensures
            r.ref_view() == self.calculation().calc_view(),
            ref_shape(r, self.calculation().calc_view()),
    {
        self.expression.as_ref()
    }

    pub fn result_type(&self) -> (r: CssCalculationType)
        ensures
            r == classify(self.calculation().calc_view().ty),
    {
        self.expression.result_type()
    }

    pub fn numeric_type(&self) -> (r: CssNumericType)
        ensures
            r == self.calculation().calc_view().ty,
    {
        self.expression.numeric_type()
    }

    /// The admitted component values.
    pub fn components(&self) -> (r: &CssComponentValues)
        ensures
            self.calculation().components_view() == Some(r.items@),
    {
        proof {
            use_type_invariant(self);
        }
        self.expression.components.as_ref().unwrap()
    }

    pub fn origin(&self) -> (r: &CssValueOrigin)
        ensures
            *r == self.calculation().calc_view().origin,
    {
        self.expression.origin()
    }
}

impl CssCalculation<2> {
    /// Whether the integer comes from a math function and is rounded when resolved.
    pub fn requires_rounding(&self) -> (r: bool)
        ensures
            r == (self.calculation().calc_view().kind is Function),
    {
        matches!(self.expression.kind, NodeKind::Function { .. })
    }
}

/// Texts that differ in length, or in a character ignoring ASCII case, are different names.
proof fn lemma_differs(a: Seq<char>, b: Seq<char>, i: int)
    requires
        a.len() != b.len() || (0 <= i < a.len() && 0 <= i < b.len() && crate::units::lower_code(a[i]) != crate::units::lower_code(b[i])),
    ensures
        !same_ignoring_case(a, b),
{
}

proof fn lemma_function_from_same_case(a: Seq<char>, b: Seq<char>, i: int)
    requires
        same_ignoring_case(a, b),
    ensures
        function_from(a, i) == function_from(b, i),
    decreases 21 - i,
{
    if 0 <= i < 21 {
        lemma_same_case_shared(a, b, function_name(function_at(i))@);
        lemma_function_from_same_case(a, b, i + 1);
    }
}

/// A math function's name spelled in any ASCII case names that function, and no
/// other function shares it.
pub proof fn lemma_function_name_any_case(f: CssMathFunction, g: CssMathFunction, name: Seq<char>)
    requires
        same_ignoring_case(name, function_name(f)@),
    ensures
        math_function_of(name) == Some(f),
        g != f ==> function_name(g)@ != function_name(f)@,
{
    lemma_function_name_round_trip(f);
    lemma_function_name_round_trip(g);
    lemma_function_from_same_case(name, function_name(f)@, 0);
}

/// Each math function's own name spells it back.
pub proof fn lemma_function_name_round_trip(f: CssMathFunction)
    ensures
        math_function_of(function_name(f)@) == Some(f),
{
    reveal_strlit("calc");
    reveal_strlit("min");
    reveal_strlit("max");
    reveal_strlit("clamp");
    reveal_strlit("round");
    reveal_strlit("mod");
    reveal_strlit("rem");
    reveal_strlit("sin");
    reveal_strlit("cos");
    reveal_strlit("tan");
    reveal_strlit("asin");
    reveal_strlit("acos");
    reveal_strlit("atan");
    reveal_strlit("atan2");
    reveal_strlit("pow");
    reveal_strlit("sqrt");
    reveal_strlit("hypot");
    reveal_strlit("log");
    reveal_strlit("exp");
    reveal_strlit("abs");
    reveal_strlit("sign");
    reveal_with_fuel(function_from, 22);
    match f {
        CssMathFunction::Calc => {},
        CssMathFunction::Min => {
            lemma_differs("min"@, "calc"@, 0);
        },
        CssMathFunction::Max => {
            lemma_differs("max"@, "calc"@, 0);
            lemma_differs("max"@, "min"@, 1);
        },
        CssMathFunction::Clamp => {
            lemma_differs("clamp"@, "calc"@, 0);
            lemma_differs("clamp"@, "min"@, 0);
            lemma_differs("clamp"@, "max"@, 0);
        },
        CssMathFunction::Round => {
            lemma_differs("round"@, "calc"@, 0);
            lemma_differs("round"@, "min"@, 0);
            lemma_differs("round"@, "max"@, 0);
            lemma_differs("round"@, "clamp"@, 0);
        },
        CssMathFunction::Mod => {
            lemma_differs("mod"@, "calc"@, 0);
            lemma_differs("mod"@, "min"@, 1);
            lemma_differs("mod"@, "max"@, 1);
            lemma_differs("mod"@, "clamp"@, 0);
            lemma_differs("mod"@, "round"@, 0);
        },
        CssMathFunction::Rem => {
            lemma_differs("rem"@, "calc"@, 0);
            lemma_differs("rem"@, "min"@, 0);
            lemma_differs("rem"@, "max"@, 0);
            lemma_differs("rem"@, "clamp"@, 0);
            lemma_differs("rem"@, "round"@, 0);
            lemma_differs("rem"@, "mod"@, 0);
        },
        CssMathFunction::Sin => {
            lemma_differs("sin"@, "calc"@, 0);
            lemma_differs("sin"@, "min"@, 0);
            lemma_differs("sin"@, "max"@, 0);
            lemma_differs("sin"@, "clamp"@, 0);
            lemma_differs("sin"@, "round"@, 0);
            lemma_differs("sin"@, "mod"@, 0);
            lemma_differs("sin"@, "rem"@, 0);
        },
        CssMathFunction::Cos => {
            lemma_differs("cos"@, "calc"@, 0);
            lemma_differs("cos"@, "min"@, 0);
            lemma_differs("cos"@, "max"@, 0);
            lemma_differs("cos"@, "clamp"@, 0);
            lemma_differs("cos"@, "round"@, 0);
            lemma_differs("cos"@, "mod"@, 0);
            lemma_differs("cos"@, "rem"@, 0);
            lemma_differs("cos"@, "sin"@, 0);
        },
        CssMathFunction::Tan => {
            lemma_differs("tan"@, "calc"@, 0);
            lemma_differs("tan"@, "min"@, 0);
            lemma_differs("tan"@, "max"@, 0);
            lemma_differs("tan"@, "clamp"@, 0);
            lemma_differs("tan"@, "round"@, 0);
            lemma_differs("tan"@, "mod"@, 0);
            lemma_differs("tan"@, "rem"@, 0);
            lemma_differs("tan"@, "sin"@, 0);
            lemma_differs("tan"@, "cos"@, 0);
        },
        CssMathFunction::Asin => {
            lemma_differs("asin"@, "calc"@, 0);
            lemma_differs("asin"@, "min"@, 0);
            lemma_differs("asin"@, "max"@, 0);
            lemma_differs("asin"@, "clamp"@, 0);
            lemma_differs("asin"@, "round"@, 0);
            lemma_differs("asin"@, "mod"@, 0);
            lemma_differs("asin"@, "rem"@, 0);
            lemma_differs("asin"@, "sin"@, 0);
            lemma_differs("asin"@, "cos"@, 0);
            lemma_differs("asin"@, "tan"@, 0);
        },
        CssMathFunction::Acos => {
            lemma_differs("acos"@, "calc"@, 0);
            lemma_differs("acos"@, "min"@, 0);
            lemma_differs("acos"@, "max"@, 0);
            lemma_differs("acos"@, "clamp"@, 0);
            lemma_differs("acos"@, "round"@, 0);
            lemma_differs("acos"@, "mod"@, 0);
            lemma_differs("acos"@, "rem"@, 0);
            lemma_differs("acos"@, "sin"@, 0);
            lemma_differs("acos"@, "cos"@, 0);
            lemma_differs("acos"@, "tan"@, 0);
            lemma_differs("acos"@, "asin"@, 1);
        },
        CssMathFunction::Atan => {
            lemma_differs("atan"@, "calc"@, 0);
            lemma_differs("atan"@, "min"@, 0);
            lemma_differs("atan"@, "max"@, 0);
            lemma_differs("atan"@, "clamp"@, 0);
            lemma_differs("atan"@, "round"@, 0);
            lemma_differs("atan"@, "mod"@, 0);
            lemma_differs("atan"@, "rem"@, 0);
            lemma_differs("atan"@, "sin"@, 0);
            lemma_differs("atan"@, "cos"@, 0);
            lemma_differs("atan"@, "tan"@, 0);
            lemma_differs("atan"@, "asin"@, 1);
            lemma_differs("atan"@, "acos"@, 1);
        },
        CssMathFunction::Atan2 => {
            lemma_differs("atan2"@, "calc"@, 0);
            lemma_differs("atan2"@, "min"@, 0);
            lemma_differs("atan2"@, "max"@, 0);
            lemma_differs("atan2"@, "clamp"@, 0);
            lemma_differs("atan2"@, "round"@, 0);
            lemma_differs("atan2"@, "mod"@, 0);
            lemma_differs("atan2"@, "rem"@, 0);
            lemma_differs("atan2"@, "sin"@, 0);
            lemma_differs("atan2"@, "cos"@, 0);
            lemma_differs("atan2"@, "tan"@, 0);
            lemma_differs("atan2"@, "asin"@, 0);
            lemma_differs("atan2"@, "acos"@, 0);
            lemma_differs("atan2"@, "atan"@, 0);
        },
        CssMathFunction::Pow => {
            lemma_differs("pow"@, "calc"@, 0);
            lemma_differs("pow"@, "min"@, 0);
            lemma_differs("pow"@, "max"@, 0);
            lemma_differs("pow"@, "clamp"@, 0);
            lemma_differs("pow"@, "round"@, 0);
            lemma_differs("pow"@, "mod"@, 0);
            lemma_differs("pow"@, "rem"@, 0);
            lemma_differs("pow"@, "sin"@, 0);
            lemma_differs("pow"@, "cos"@, 0);
            lemma_differs("pow"@, "tan"@, 0);
            lemma_differs("pow"@, "asin"@, 0);
            lemma_differs("pow"@, "acos"@, 0);
            lemma_differs("pow"@, "atan"@, 0);
            lemma_differs("pow"@, "atan2"@, 0);
        },
        CssMathFunction::Sqrt => {
            lemma_differs("sqrt"@, "calc"@, 0);
            lemma_differs("sqrt"@, "min"@, 0);
            lemma_differs("sqrt"@, "max"@, 0);
            lemma_differs("sqrt"@, "clamp"@, 0);
            lemma_differs("sqrt"@, "round"@, 0);
            lemma_differs("sqrt"@, "mod"@, 0);
            lemma_differs("sqrt"@, "rem"@, 0);
            lemma_differs("sqrt"@, "sin"@, 0);
            lemma_differs("sqrt"@, "cos"@, 0);
            lemma_differs("sqrt"@, "tan"@, 0);
            lemma_differs("sqrt"@, "asin"@, 0);
            lemma_differs("sqrt"@, "acos"@, 0);
            lemma_differs("sqrt"@, "atan"@, 0);
            lemma_differs("sqrt"@, "atan2"@, 0);
            lemma_differs("sqrt"@, "pow"@, 0);
        },
        CssMathFunction::Hypot => {
            lemma_differs("hypot"@, "calc"@, 0);
            lemma_differs("hypot"@, "min"@, 0);
            lemma_differs("hypot"@, "max"@, 0);
            lemma_differs("hypot"@, "clamp"@, 0);
            lemma_differs("hypot"@, "round"@, 0);
            lemma_differs("hypot"@, "mod"@, 0);
            lemma_differs("hypot"@, "rem"@, 0);
            lemma_differs("hypot"@, "sin"@, 0);
            lemma_differs("hypot"@, "cos"@, 0);
            lemma_differs("hypot"@, "tan"@, 0);
            lemma_differs("hypot"@, "asin"@, 0);
            lemma_differs("hypot"@, "acos"@, 0);
            lemma_differs("hypot"@, "atan"@, 0);
            lemma_differs("hypot"@, "atan2"@, 0);
            lemma_differs("hypot"@, "pow"@, 0);
            lemma_differs("hypot"@, "sqrt"@, 0);
        },
        CssMathFunction::Log => {
            lemma_differs("log"@, "calc"@, 0);
            lemma_differs("log"@, "min"@, 0);
            lemma_differs("log"@, "max"@, 0);
            lemma_differs("log"@, "clamp"@, 0);
            lemma_differs("log"@, "round"@, 0);
            lemma_differs("log"@, "mod"@, 0);
            lemma_differs("log"@, "rem"@, 0);
            lemma_differs("log"@, "sin"@, 0);
            lemma_differs("log"@, "cos"@, 0);
            lemma_differs("log"@, "tan"@, 0);
            lemma_differs("log"@, "asin"@, 0);
            lemma_differs("log"@, "acos"@, 0);
            lemma_differs("log"@, "atan"@, 0);
            lemma_differs("log"@, "atan2"@, 0);
            lemma_differs("log"@, "pow"@, 0);
            lemma_differs("log"@, "sqrt"@, 0);
            lemma_differs("log"@, "hypot"@, 0);
        },
        CssMathFunction::Exp => {
            lemma_differs("exp"@, "calc"@, 0);
            lemma_differs("exp"@, "min"@, 0);
            lemma_differs("exp"@, "max"@, 0);
            lemma_differs("exp"@, "clamp"@, 0);
            lemma_differs("exp"@, "round"@, 0);
            lemma_differs("exp"@, "mod"@, 0);
            lemma_differs("exp"@, "rem"@, 0);
            lemma_differs("exp"@, "sin"@, 0);
            lemma_differs("exp"@, "cos"@, 0);
            lemma_differs("exp"@, "tan"@, 0);
            lemma_differs("exp"@, "asin"@, 0);
            lemma_differs("exp"@, "acos"@, 0);
            lemma_differs("exp"@, "atan"@, 0);
            lemma_differs("exp"@, "atan2"@, 0);
            lemma_differs("exp"@, "pow"@, 0);
            lemma_differs("exp"@, "sqrt"@, 0);
            lemma_differs("exp"@, "hypot"@, 0);
            lemma_differs("exp"@, "log"@, 0);
        },
        CssMathFunction::Abs => {
            lemma_differs("abs"@, "calc"@, 0);
            lemma_differs("abs"@, "min"@, 0);
            lemma_differs("abs"@, "max"@, 0);
            lemma_differs("abs"@, "clamp"@, 0);
            lemma_differs("abs"@, "round"@, 0);
            lemma_differs("abs"@, "mod"@, 0);
            lemma_differs("abs"@, "rem"@, 0);
            lemma_differs("abs"@, "sin"@, 0);
            lemma_differs("abs"@, "cos"@, 0);
            lemma_differs("abs"@, "tan"@, 0);
            lemma_differs("abs"@, "asin"@, 0);
            lemma_differs("abs"@, "acos"@, 0);
            lemma_differs("abs"@, "atan"@, 0);
            lemma_differs("abs"@, "atan2"@, 0);
            lemma_differs("abs"@, "pow"@, 0);
            lemma_differs("abs"@, "sqrt"@, 0);
            lemma_differs("abs"@, "hypot"@, 0);
            lemma_differs("abs"@, "log"@, 0);
            lemma_differs("abs"@, "exp"@, 0);
        },
        CssMathFunction::Sign => {
            lemma_differs("sign"@, "calc"@, 0);
            lemma_differs("sign"@, "min"@, 0);
            lemma_differs("sign"@, "max"@, 0);
            lemma_differs("sign"@, "clamp"@, 0);
            lemma_differs("sign"@, "round"@, 0);
            lemma_differs("sign"@, "mod"@, 0);
            lemma_differs("sign"@, "rem"@, 0);
            lemma_differs("sign"@, "sin"@, 0);
            lemma_differs("sign"@, "cos"@, 0);
            lemma_differs("sign"@, "tan"@, 0);
            lemma_differs("sign"@, "asin"@, 0);
            lemma_differs("sign"@, "acos"@, 0);
            lemma_differs("sign"@, "atan"@, 0);
            lemma_differs("sign"@, "atan2"@, 0);
            lemma_differs("sign"@, "pow"@, 0);
            lemma_differs("sign"@, "sqrt"@, 1);
            lemma_differs("sign"@, "hypot"@, 0);
            lemma_differs("sign"@, "log"@, 0);
            lemma_differs("sign"@, "exp"@, 0);
            lemma_differs("sign"@, "abs"@, 0);
        },
    }
}

/// An admitted calculation has a result type its root admits, and its canonical text
/// fits the byte limit.
pub proof fn lemma_admitted_within_root(
    values: Seq<CssComponentValue>,
    root: CalculationRoot,
    limits: CssComponentValueLimits,
    strict: bool,
)
    requires
        admit_spec(values, root, limits, strict) is Ok,
    ensures
        root_accepts(root, admit_spec(values, root, limits, strict)->Ok_0.ty),
        canonical_size(admit_spec(values, root, limits, strict)->Ok_0) <= limits.bytes(),
{
    reveal(admit_spec);
}

/// A strict admission never keeps a function or block whose closing token recovery
/// supplied.
pub proof fn lemma_strict_admission_rejects_recovery(
    values: Seq<CssComponentValue>,
    root: CalculationRoot,
    limits: CssComponentValueLimits,
)
    requires
        first_unclosed_in(values, values.len() as int) is Some,
    ensures
        admit_spec(values, root, limits, true) == Result::<CalcView, CssNumericConstructionError>::Err(
            fail(CssNumericConstructionErrorKind::RecoveredComponent, first_unclosed_in(values, values.len() as int)),
        ),
{
    reveal(admit_spec);
}

/// The separator tokens written before a summed operand.
pub open spec fn separator_tokens(op: CssCalculationSumOperator) -> Seq<CssComponentValue> {
    seq![
        CssComponentValue::Whitespace { origin: CssValueOrigin::Programmatic },
        CssComponentValue::Delim {
            value: if op is Subtract { '-' } else { '+' },
            origin: CssValueOrigin::Programmatic,
        },
        CssComponentValue::Whitespace { origin: CssValueOrigin::Programmatic },
    ]
}

/// The components of the operands joined by their separators, in order.
pub open spec fn summed_items(first: Seq<CssComponentValue>, rest: Seq<(CssCalculationSumOperator, Seq<CssComponentValue>)>) -> Seq<CssComponentValue>
    decreases rest.len(),
{
    if rest.len() == 0 {
        first
    } else {
        summed_items(first, rest.drop_last()) + separator_tokens(rest.last().0) + rest.last().1
    }
}

/// A programmatic `calc()` function around `items`, closed.
pub open spec fn calc_wrapper(c: CssComponentValue, items: Seq<CssComponentValue>) -> bool {
    c matches CssComponentValue::Function { name, values, origin, closing, closed } && name@ == "calc"@ && values@ == items
        && origin == CssValueOrigin::Programmatic && closing == CssValueOrigin::Programmatic && closed
}

impl<const ROOT: u8> CssCalculation<ROOT> {
    /// The admitted component values of a calculation.
    pub open spec fn items_of(self) -> Seq<CssComponentValue> {
        match self.calculation().components_view() {
            Some(v) => v,
            None => Seq::empty(),
        }
    }

    /// Gives up the calculation for its admitted component values.
    pub fn into_components(self) -> (r: CssComponentValues)
        ensures
            r.items@ == self.items_of(),
    {
        proof {
            use_type_invariant(&self);
        }
        let CssCalculation { expression } = self;
        let CssCalculationExpression { components, .. } = expression;
        components.unwrap()
    }
}

/// The operands' component values with their operators.
pub open spec fn operand_items(rest: Seq<(CssCalculationSumOperator, CssLengthPercentageCalculation)>) -> Seq<(CssCalculationSumOperator, Seq<CssComponentValue>)> {
    Seq::new(rest.len(), |i: int| (rest[i].0, rest[i].1.items_of()))
}

impl CssCalculation<5> {
    /// Assembles a symbolic sum inside a programmatic `calc()`, keeping every operand's
    /// component values, and admits it as a length-percentage under the limits. The
    /// first operand has no operator; a single operand still gets the wrapper.
    pub fn try_sum_with_limits(
        first: Self,
        rest: Vec<(CssCalculationSumOperator, Self)>,
        limits: CssComponentValueLimits,
    ) -> (r: Result<Self, CssNumericConstructionError>)
        ensures
            exists|c: CssComponentValue|
                #![trigger calc_wrapper(c, summed_items(first.items_of(), operand_items(rest@)))]
                calc_wrapper(c, summed_items(first.items_of(), operand_items(rest@))) && match r {
                    Ok(s) => construct_outcome(seq![c], CalculationRoot::LengthPercentage, limits, false, Ok(s.calculation())),
                    Err(e) => construct_outcome(seq![c], CalculationRoot::LengthPercentage, limits, false, Err(e)),
                },
    {
        let ghost first_items = first.items_of();
        let ghost all = operand_items(rest@);
        let mut items = first.into_components().items;
        let mut rest = rest;
        let ghost initial = rest@;
        let n = rest.len();
        let mut k: usize = 0;
        proof {
            assert(all.subrange(0, 0) =~= Seq::<(CssCalculationSumOperator, Seq<CssComponentValue>)>::empty());
            assert(initial.subrange(0, initial.len() as int) =~= initial);
        }
        while k < n
            invariant
                k <= n,
                n == initial.len(),
                all == operand_items(initial),
                rest@ == initial.subrange(k as int, n as int),
                items@ == summed_items(first_items, all.subrange(0, k as int)),
            decreases n - k,
        {
            let (op, value) = rest.remove(0);
            proof {
                assert(initial[k as int] == (op, value));
                assert(all[k as int] == (op, value.items_of()));
                assert(all.subrange(0, k + 1).drop_last() =~= all.subrange(0, k as int));
                assert(rest@ =~= initial.subrange(k + 1, n as int));
            }
            items.push(CssComponentValue::Whitespace { origin: CssValueOrigin::Programmatic });
            let delim = match op {
                CssCalculationSumOperator::Add => '+',
                CssCalculationSumOperator::Subtract => '-',
            };
            items.push(CssComponentValue::Delim { value: delim, origin: CssValueOrigin::Programmatic });
            items.push(CssComponentValue::Whitespace { origin: CssValueOrigin::Programmatic });
            let mut more = value.into_components().items;
            let ghost before = items@;
            items.append(&mut more);
            proof {
                assert(items@ =~= summed_items(first_items, all.subrange(0, k as int)) + separator_tokens(op) + all[k as int].1);
            }
            k = k + 1;
        }
        proof {
            assert(all.subrange(0, n as int) =~= all);
        }
        let function = CssComponentValue::Function {
            name: "calc".to_owned(),
            values: items,
            origin: CssValueOrigin::Programmatic,
            closing: CssValueOrigin::Programmatic,
            closed: true,
        };
        let ghost c = function;
        let mut outer: Vec<CssComponentValue> = Vec::new();
        outer.push(function);
        proof {
            assert(outer@ =~= seq![c]);
        }
        let admitted = construct_with_policy(CssComponentValues::new(outer), CalculationRoot::LengthPercentage, limits, false);
        proof {
            if fits(seq![c], 0, 0, 0, limits) && admitted is Ok {
                assert(admitted->Ok_0.components_view() == Some(seq![c]));
            }
        }
        let r = Self::from_admitted(admitted);
        proof {
            assert(calc_wrapper(c, summed_items(first_items, all)));
        }
        r
    }

    /// Assembles a symbolic sum under the default limits.
    pub fn try_sum(first: Self, rest: Vec<(CssCalculationSumOperator, Self)>) -> (r: Result<Self, CssNumericConstructionError>)
        ensures
            exists|c: CssComponentValue|
                #![trigger calc_wrapper(c, summed_items(first.items_of(), operand_items(rest@)))]
                calc_wrapper(c, summed_items(first.items_of(), operand_items(rest@))) && match r {
                    Ok(s) => construct_outcome(seq![c], CalculationRoot::LengthPercentage, default_limits(), false, Ok(s.calculation())),
                    Err(e) => construct_outcome(seq![c], CalculationRoot::LengthPercentage, default_limits(), false, Err(e)),
                },
    {
        Self::try_sum_with_limits(first, rest, CssComponentValueLimits::default())
    }
}

/// The decimal digits of a natural number, most significant first.
pub open spec fn digits_text(n: nat) -> Seq<char>
    decreases n,
{
    if n < 10 {
        seq![((48 + n) as u32) as char]
    } else {
        digits_text(n / 10).push(((48 + n % 10) as u32) as char)
    }
}

/// The decimal spelling of an integer, with a leading `-` when negative.
pub open spec fn decimal_text(v: int) -> Seq<char> {
    if v < 0 {
        seq!['-'] + digits_text((-v) as nat)
    } else {
        digits_text(v as nat)
    }
}

/// The one-character text of a decimal digit.
fn digit_text(d: u64) -> (r: &'static str)
    requires
        d < 10,
    ensures
        r@ == seq![((48 + d) as u32) as char],
{
    proof {
        reveal_strlit("0");
        reveal_strlit("1");
        reveal_strlit("2");
        reveal_strlit("3");
        reveal_strlit("4");
        reveal_strlit("5");
        reveal_strlit("6");
        reveal_strlit("7");
        reveal_strlit("8");
        reveal_strlit("9");
    }
    if d == 0 {
        "0"
    } else if d == 1 {
        "1"
    } else if d == 2 {
        "2"
    } else if d == 3 {
        "3"
    } else if d == 4 {
        "4"
    } else if d == 5 {
        "5"
    } else if d == 6 {
        "6"
    } else if d == 7 {
        "7"
    } else if d == 8 {
        "8"
    } else {
        "9"
    }
}

/// Appends the decimal digits of `n`, most significant first.
fn append_digits(out: &mut String, n: u64)
    ensures
        final(out)@ == old(out)@ + digits_text(n as nat),
    decreases n,
{
    if n >= 10 {
        append_digits(out, n / 10);
    }
    let d = digit_text(n % 10);
    out.append(d);
    proof {
        if n < 10 {
            assert(n % 10 == n);
        }
        assert(out@ =~= old(out)@ + digits_text(n as nat));
    }
}

/// The decimal spelling of an `i32`: the integer in base ten with a leading `-` when
/// negative.
fn integer_spelling(value: i32) -> (r: String)
    ensures
        r@ == decimal_text(value as int),
{
    let mut out = String::new();
    let magnitude: u64 = if value < 0 {
        proof {
            reveal_strlit("-");
        }
        out.append("-");
        (0i64 - value as i64) as u64
    } else {
        value as u64
    };
    append_digits(&mut out, magnitude);
    proof {
        assert(out@ =~= decimal_text(value as int));
    }
    out
}

/// Ten to the power `k`.
pub open spec fn ten_to(k: nat) -> nat
    decreases k,
{
    if k == 0 {
        1
    } else {
        10 * ten_to((k - 1) as nat)
    }
}

proof fn lemma_digits_text(n: nat, k: nat)
    requires
        n < ten_to(k),
        k >= 1,
    ensures
        digits_text(n).len() <= k,
        forall|i: int| 0 <= i < digits_text(n).len() ==> {
            let c = #[trigger] digits_text(n)[i];
            c != '.' && c != 'e' && c != 'E'
        },
    decreases n,
{
    if n >= 10 {
        assert(k >= 2) by {
            if k == 1 {
                assert(ten_to(1) == 10 * ten_to(0));
            }
        }
        assert(n / 10 < ten_to((k - 1) as nat)) by (nonlinear_arith)
            requires
                n < 10 * ten_to((k - 1) as nat),
        ;
        lemma_digits_text(n / 10, (k - 1) as nat);
        let d = digits_text(n / 10);
        assert forall|i: int| 0 <= i < digits_text(n).len() implies {
            let c = #[trigger] digits_text(n)[i];
            c != '.' && c != 'e' && c != 'E'
        } by {
            if i < d.len() {
                assert(digits_text(n)[i] == d[i]);
            }
        }
    }
}

impl CssCalculation<2> {
    /// The checked integer literal spelling `value`.
    #[verifier::rlimit(50)]
    pub fn literal(value: i32) -> (r: Self)
        ensures
            r.items_of().len() == 1,
            r.items_of()[0] matches CssComponentValue::Number { representation, origin } && representation@ == decimal_text(value as int)
                && origin == CssValueOrigin::Programmatic,
            admit_spec(r.items_of(), CalculationRoot::Integer, default_limits(), true) == Result::<
                CalcView,
                CssNumericConstructionError,
            >::Ok(r.calculation().calc_view()),
            r.calculation().calc_view() == (CalcView {
                kind: CalcKind::Value(r.items_of()[0]),
                ty: number_type(),
                origin: CssValueOrigin::Programmatic,
                closing: None,
            }),
    {
        let representation = integer_spelling(value);
        let token = CssComponentValue::Number { representation, origin: CssValueOrigin::Programmatic };
        let ghost c = token;
        let mut items: Vec<CssComponentValue> = Vec::new();
        items.push(token);
        proof {
            assert(items@ =~= seq![c]);
            let magnitude: nat = if value < 0 { (-(value as int)) as nat } else { value as nat };
            assert(ten_to(10) == 10_000_000_000) by {
                reveal_with_fuel(ten_to, 11);
            }
            lemma_digits_text(magnitude, 10);
            let text = decimal_text(value as int);
            assert(text.len() <= 11);
            assert(is_integer_text(text)) by {
                assert forall|i: int| 0 <= i < text.len() implies #[trigger] text[i] != '.' && text[i] != 'e' && text[i] != 'E' by {
                    if value < 0 {
                        if i > 0 {
                            assert(text[i] == digits_text(magnitude)[i - 1]);
                        }
                    } else {
                        assert(text[i] == digits_text(magnitude)[i]);
                    }
                }
            }
            assert(seq![c].drop_first() =~= Seq::<CssComponentValue>::empty());
            assert(fits(seq![c], 0, 0, 0, default_limits())) by {
                let empty = Seq::<CssComponentValue>::empty();
                assert(crate::components::seq_count(empty) == 0);
                assert(crate::components::seq_bytes(empty) == 0);
                assert(crate::components::seq_depth(empty) == 0);
                assert(crate::components::tree_count(c) == 1);
                assert(crate::components::tree_depth(c) == 0);
                crate::components::lemma_default_limits();
                assert(crate::components::tree_bytes(c) == text.len());
                assert(crate::components::seq_count(seq![c]) == 1);
                assert(crate::components::seq_bytes(seq![c]) == text.len());
                assert(crate::components::seq_depth(seq![c]) == 0);
            }
            reveal(admit_spec);
            reveal(parse_token_spec);
            crate::numeric_type::lemma_number_type();
            assert(first_unclosed_tree(c) is None);
            assert(first_unclosed_in(seq![c], 0) is None);
            assert(seq![c][0] == c);
            assert(first_unclosed_in(seq![c], 1) is None);
            assert(skip_spec(seq![c], 0, 1) == 0);
            assert(skip_spec(seq![c], 1, 1) == 1);
            let leaf = CalcView { kind: CalcKind::Value(c), ty: number_type(), origin: CssValueOrigin::Programmatic, closing: None };
            assert(promote(number_type(), CalculationRoot::Integer) == number_type());
            assert(parse_token_spec(c, CalculationRoot::Integer) == Result::<CalcView, CssNumericConstructionError>::Ok(leaf));
            assert(parse_node_spec(c, CalculationRoot::Integer) == Result::<CalcView, CssNumericConstructionError>::Ok(leaf));
            assert(root_accepts(CalculationRoot::Integer, number_type()));
            assert(canonical_size(leaf) == text.len());
            crate::components::lemma_default_limits();
            assert(number_text(c) == text);
            assert(admit_spec(seq![c], CalculationRoot::Integer, default_limits(), true) == Result::<
                CalcView,
                CssNumericConstructionError,
            >::Ok(leaf));
        }
        match Self::try_from_components(CssComponentValues::new(items)) {
            Ok(s) => s,
            Err(_) => vstd::pervasive::unreached(),
        }
    }
}

/// A character with ASCII upper case letters lowered.
pub open spec fn lower_char(c: char) -> char {
    if 'A' <= c <= 'Z' {
        ((c as u32) + 32) as char
    } else {
        c
    }
}

/// A text with ASCII upper case letters lowered, other characters unchanged.
pub open spec fn ascii_lowercase_text(s: Seq<char>) -> Seq<char> {
    Seq::new(s.len(), |i: int| lower_char(s[i]))
}

/// A copy of a text with ASCII letters in lower case, by the standard
/// `str::to_ascii_lowercase`, which maps `A` to `Z` onto `a` to `z` and leaves every
/// other character as it is.
#[verifier::external_body]
fn ascii_lowercase(s: &str) -> (r: String)
    ensures
        r@ == ascii_lowercase_text(s@),
{
    s.to_ascii_lowercase()
}

/// The canonical text of a literal token; a unit is written in lower case.
pub open spec fn token_text(c: CssComponentValue) -> Seq<char> {
    match c {
        CssComponentValue::Number { representation, .. } => representation@,
        CssComponentValue::Percentage { representation, .. } => representation@ + "%"@,
        CssComponentValue::Dimension { representation, unit, .. } => representation@ + ascii_lowercase_text(unit@),
        _ => Seq::empty(),
    }
}

pub open spec fn sum_operator_text(o: Option<CssCalculationSumOperator>) -> Seq<char> {
    match o {
        Some(CssCalculationSumOperator::Add) => " + "@,
        Some(CssCalculationSumOperator::Subtract) => " - "@,
        None => Seq::empty(),
    }
}

pub open spec fn product_operator_text(o: Option<CssCalculationProductOperator>) -> Seq<char> {
    match o {
        Some(CssCalculationProductOperator::Multiply) => " * "@,
        Some(CssCalculationProductOperator::Divide) => " / "@,
        None => Seq::empty(),
    }
}

pub open spec fn strategy_text(s: Option<CssRoundingStrategy>) -> Seq<char> {
    match s {
        Some(st) => strategy_name(st)@ + ", "@,
        None => Seq::empty(),
    }
}

/// The canonical serialization of a node: single spaces around binary operators,
/// `, ` between arguments, `none` for an absent bound.
pub open spec fn canonical_text(v: CalcView) -> Seq<char>
    decreases v,
{
    match v.kind {
        CalcKind::Value(c) => token_text(c),
        CalcKind::Constant(k) => constant_name(k)@,
        CalcKind::Group(b) => "("@ + canonical_text(*b) + ")"@,
        CalcKind::Sum(terms) => sum_terms_text(terms),
        CalcKind::Product(factors) => product_terms_text(factors),
        CalcKind::Function(f, args, strategy) => function_name(f)@ + "("@ + strategy_text(strategy) + args_text(args) + ")"@,
    }
}

pub open spec fn sum_terms_text(s: Seq<(Option<CssCalculationSumOperator>, Option<CssValueOrigin>, CalcView)>) -> Seq<char>
    decreases s,
{
    if s.len() == 0 {
        Seq::empty()
    } else {
        sum_terms_text(s.drop_last()) + sum_operator_text(s.last().0) + canonical_text(s.last().2)
    }
}

pub open spec fn product_terms_text(s: Seq<(Option<CssCalculationProductOperator>, Option<CssValueOrigin>, CalcView)>) -> Seq<char>
    decreases s,
{
    if s.len() == 0 {
        Seq::empty()
    } else {
        product_terms_text(s.drop_last()) + product_operator_text(s.last().0) + canonical_text(s.last().2)
    }
}

pub open spec fn args_text(s: Seq<Option<CalcView>>) -> Seq<char>
    decreases s,
{
    if s.len() == 0 {
        Seq::empty()
    } else {
        args_text(s.drop_last()) + (if s.len() > 1 {
            ", "@
        } else {
            Seq::empty()
        }) + match s.last() {
            Some(a) => canonical_text(a),
            None => "none"@,
        }
    }
}

/// The origin given to a closing parenthesis: the authored closing token's, or the
/// node's own where there is none.
pub open spec fn closing_or_origin(v: CalcView) -> CssValueOrigin {
    match v.closing {
        Some(o) => o,
        None => v.origin,
    }
}

/// The canonical text as pieces, each with the origin it is written for: a literal or
/// constant with its own origin; a group's parentheses with the block's origin and
/// closing origin; an operator with the origin of its authored delimiter; a function's
/// name and `(` with the function's origin and `)` with its closing origin. Separators
/// and keywords inside a function (`, `, a rounding strategy, `none`), whose tokens the
/// checked tree does not keep, carry the function's origin.
pub open spec fn canonical_pieces(v: CalcView) -> Seq<(Seq<char>, CssValueOrigin)>
    decreases v,
{
    match v.kind {
        CalcKind::Value(c) => seq![(token_text(c), v.origin)],
        CalcKind::Constant(k) => seq![(constant_name(k)@, v.origin)],
        CalcKind::Group(b) => seq![("("@, v.origin)] + canonical_pieces(*b) + seq![(")"@, closing_or_origin(v))],
        CalcKind::Sum(terms) => sum_pieces(terms),
        CalcKind::Product(factors) => product_pieces(factors),
        CalcKind::Function(f, args, strategy) => seq![(function_name(f)@ + "("@, v.origin)] + (match strategy {
            Some(st) => seq![(strategy_name(st)@, v.origin), (", "@, v.origin)],
            None => Seq::empty(),
        }) + args_pieces(args, v.origin) + seq![(")"@, closing_or_origin(v))],
    }
}

pub open spec fn operator_origin_or(o: Option<CssValueOrigin>, fallback: CssValueOrigin) -> CssValueOrigin {
    match o {
        Some(x) => x,
        None => fallback,
    }
}

pub open spec fn sum_pieces(s: Seq<(Option<CssCalculationSumOperator>, Option<CssValueOrigin>, CalcView)>) -> Seq<(Seq<char>, CssValueOrigin)>
    decreases s,
{
    if s.len() == 0 {
        Seq::empty()
    } else {
        sum_pieces(s.drop_last()) + (if s.last().0 is Some {
            seq![(sum_operator_text(s.last().0), operator_origin_or(s.last().1, s.last().2.origin))]
        } else {
            Seq::empty()
        }) + canonical_pieces(s.last().2)
    }
}

pub open spec fn product_pieces(s: Seq<(Option<CssCalculationProductOperator>, Option<CssValueOrigin>, CalcView)>) -> Seq<(Seq<char>, CssValueOrigin)>
    decreases s,
{
    if s.len() == 0 {
        Seq::empty()
    } else {
        product_pieces(s.drop_last()) + (if s.last().0 is Some {
            seq![(product_operator_text(s.last().0), operator_origin_or(s.last().1, s.last().2.origin))]
        } else {
            Seq::empty()
        }) + canonical_pieces(s.last().2)
    }
}

pub open spec fn args_pieces(s: Seq<Option<CalcView>>, origin: CssValueOrigin) -> Seq<(Seq<char>, CssValueOrigin)>
    decreases s,
{
    if s.len() == 0 {
        Seq::empty()
    } else {
        args_pieces(s.drop_last(), origin) + (if s.len() > 1 {
            seq![(", "@, origin)]
        } else {
            Seq::empty()
        }) + match s.last() {
            Some(a) => canonical_pieces(a),
            None => seq![("none"@, origin)],
        }
    }
}

/// The texts and origins of written pieces.
pub open spec fn pieces_view(s: Seq<(String, CssValueOrigin)>) -> Seq<(Seq<char>, CssValueOrigin)> {
    s.map_values(|p: (String, CssValueOrigin)| (p.0@, p.1))
}

/// The texts of pieces joined in order.
pub open spec fn pieces_text(s: Seq<(Seq<char>, CssValueOrigin)>) -> Seq<char>
    decreases s.len(),
{
    if s.len() == 0 {
        Seq::empty()
    } else {
        pieces_text(s.drop_last()) + s.last().0
    }
}

proof fn lemma_pieces_text_concat(a: Seq<(Seq<char>, CssValueOrigin)>, b: Seq<(Seq<char>, CssValueOrigin)>)
    ensures
        pieces_text(a + b) == pieces_text(a) + pieces_text(b),
    decreases b.len(),
{
    if b.len() == 0 {
        assert(a + b =~= a);
        assert(pieces_text(a) + pieces_text(b) =~= pieces_text(a));
    } else {
        lemma_pieces_text_concat(a, b.drop_last());
        assert((a + b).drop_last() =~= a + b.drop_last());
        assert((a + b).last() == b.last());
        assert(pieces_text(a) + pieces_text(b) =~= (pieces_text(a) + pieces_text(b.drop_last())) + b.last().0);
    }
}

proof fn lemma_pieces_text_one(x: (Seq<char>, CssValueOrigin))
    ensures
        pieces_text(seq![x]) == x.0,
{
    let s = seq![x];
    assert(s.drop_last() =~= Seq::<(Seq<char>, CssValueOrigin)>::empty());
    assert(pieces_text(s.drop_last()) == Seq::<char>::empty());
    assert(s.last() == x);
    assert(pieces_text(s) == pieces_text(s.drop_last()) + s.last().0);
    assert(Seq::<char>::empty() + x.0 =~= x.0);
}

proof fn lemma_sum_pieces_text(s: Seq<(Option<CssCalculationSumOperator>, Option<CssValueOrigin>, CalcView)>)
    ensures
        pieces_text(sum_pieces(s)) == sum_terms_text(s),
    decreases s,
{
    if s.len() > 0 {
        lemma_sum_pieces_text(s.drop_last());
        lemma_pieces_spell_text(s.last().2);
        let op = if s.last().0 is Some {
            seq![(sum_operator_text(s.last().0), operator_origin_or(s.last().1, s.last().2.origin))]
        } else {
            Seq::empty()
        };
        lemma_pieces_text_concat(sum_pieces(s.drop_last()), op);
        lemma_pieces_text_concat(sum_pieces(s.drop_last()) + op, canonical_pieces(s.last().2));
        if s.last().0 is Some {
            lemma_pieces_text_one(op[0]);
            assert(op =~= seq![op[0]]);
        } else {
            assert(pieces_text(op) =~= sum_operator_text(s.last().0));
        }
    }
}

proof fn lemma_product_pieces_text(s: Seq<(Option<CssCalculationProductOperator>, Option<CssValueOrigin>, CalcView)>)
    ensures
        pieces_text(product_pieces(s)) == product_terms_text(s),
    decreases s,
{
    if s.len() > 0 {
        lemma_product_pieces_text(s.drop_last());
        lemma_pieces_spell_text(s.last().2);
        let op = if s.last().0 is Some {
            seq![(product_operator_text(s.last().0), operator_origin_or(s.last().1, s.last().2.origin))]
        } else {
            Seq::empty()
        };
        lemma_pieces_text_concat(product_pieces(s.drop_last()), op);
        lemma_pieces_text_concat(product_pieces(s.drop_last()) + op, canonical_pieces(s.last().2));
        if s.last().0 is Some {
            lemma_pieces_text_one(op[0]);
            assert(op =~= seq![op[0]]);
        } else {
            assert(pieces_text(op) =~= product_operator_text(s.last().0));
        }
    }
}

proof fn lemma_args_pieces_text(s: Seq<Option<CalcView>>, origin: CssValueOrigin)
    ensures
        pieces_text(args_pieces(s, origin)) == args_text(s),
    decreases s,
{
    if s.len() > 0 {
        lemma_args_pieces_text(s.drop_last(), origin);
        let sep = if s.len() > 1 {
            seq![(", "@, origin)]
        } else {
            Seq::empty()
        };
        let last = match s.last() {
            Some(a) => canonical_pieces(a),
            None => seq![("none"@, origin)],
        };
        match s.last() {
            Some(a) => {
                lemma_pieces_spell_text(a);
            },
            None => {
                lemma_pieces_text_one(("none"@, origin));
            },
        }
        lemma_pieces_text_concat(args_pieces(s.drop_last(), origin), sep);
        lemma_pieces_text_concat(args_pieces(s.drop_last(), origin) + sep, last);
        if s.len() > 1 {
            lemma_pieces_text_one((", "@, origin));
        } else {
            assert(pieces_text(sep) =~= Seq::<char>::empty());
        }
    }
}

/// The pieces of a node, joined in order, spell its canonical text.
pub proof fn lemma_pieces_spell_text(v: CalcView)
    ensures
        pieces_text(canonical_pieces(v)) == canonical_text(v),
    decreases v,
{
    match v.kind {
        CalcKind::Value(c) => {
            lemma_pieces_text_one((token_text(c), v.origin));
        },
        CalcKind::Constant(k) => {
            lemma_pieces_text_one((constant_name(k)@, v.origin));
        },
        CalcKind::Group(b) => {
            lemma_pieces_spell_text(*b);
            let open = seq![("("@, v.origin)];
            let close = seq![(")"@, closing_or_origin(v))];
            lemma_pieces_text_one(open[0]);
            lemma_pieces_text_one(close[0]);
            lemma_pieces_text_concat(open, canonical_pieces(*b));
            lemma_pieces_text_concat(open + canonical_pieces(*b), close);
        },
        CalcKind::Sum(terms) => {
            lemma_sum_pieces_text(terms);
        },
        CalcKind::Product(factors) => {
            lemma_product_pieces_text(factors);
        },
        CalcKind::Function(f, args, strategy) => {
            let head = seq![(function_name(f)@ + "("@, v.origin)];
            let st = match strategy {
                Some(x) => seq![(strategy_name(x)@, v.origin), (", "@, v.origin)],
                None => Seq::empty(),
            };
            let close = seq![(")"@, closing_or_origin(v))];
            lemma_pieces_text_one(head[0]);
            lemma_pieces_text_one(close[0]);
            lemma_args_pieces_text(args, v.origin);
            match strategy {
                Some(x) => {
                    lemma_pieces_text_one(st[0]);
                    assert(st =~= seq![st[0]] + seq![st[1]]);
                    lemma_pieces_text_concat(seq![st[0]], seq![st[1]]);
                    lemma_pieces_text_one(st[1]);
                },
                None => {
                    assert(pieces_text(st) =~= Seq::<char>::empty());
                },
            }
            lemma_pieces_text_concat(head, st);
            lemma_pieces_text_concat(head + st, args_pieces(args, v.origin));
            lemma_pieces_text_concat(head + st + args_pieces(args, v.origin), close);
            assert(pieces_text(st) =~= strategy_text(strategy));
            assert(canonical_text(v) =~= function_name(f)@ + "("@ + strategy_text(strategy) + args_text(args) + ")"@);
            assert(pieces_text(canonical_pieces(v)) =~= canonical_text(v));
        },
    }
}

proof fn lemma_pieces_push(s: Seq<(String, CssValueOrigin)>, x: (String, CssValueOrigin))
    ensures
        pieces_view(s.push(x)) == pieces_view(s).push((x.0@, x.1)),
{
    assert(pieces_view(s.push(x)) =~= pieces_view(s).push((x.0@, x.1)));
}

fn push_piece(out: &mut Vec<(String, CssValueOrigin)>, text: &str, origin: CssValueOrigin)
    ensures
        pieces_view(final(out)@) == pieces_view(old(out)@).push((text@, origin)),
{
    let mut t = String::new();
    t.append(text);
    proof {
        assert(t@ =~= text@);
        lemma_pieces_push(out@, (t, origin));
    }
    out.push((t, origin));
}

impl CssCalculationExpression {
    /// Appends the canonical text of this node.
    #[verifier::spinoff_prover]
    #[verifier::rlimit(60)]
    fn write_canonical(&self, out: &mut String)
        ensures
            final(out)@ == old(out)@ + canonical_text(expr_view(*self)),
        decreases self,
    {
        match &self.kind {
            NodeKind::Value(c) => {
                match c {
                    CssComponentValue::Number { representation, .. } => {
                        out.append(representation.as_str());
                    },
                    CssComponentValue::Percentage { representation, .. } => {
                        out.append(representation.as_str());
                        out.append("%");
                    },
                    CssComponentValue::Dimension { representation, unit, .. } => {
                        out.append(representation.as_str());
                        let lower = ascii_lowercase(unit.as_str());
                        out.append(lower.as_str());
                    },
                    _ => {},
                }
                proof {
                    assert(final(out)@ =~= old(out)@ + canonical_text(expr_view(*self)));
                }
            },
            NodeKind::Constant(k) => {
                out.append(k.name());
            },
            NodeKind::Group(b) => {
                out.append("(");
                b.write_canonical(out);
                out.append(")");
                proof {
                    assert(final(out)@ =~= old(out)@ + canonical_text(expr_view(*self)));
                }
            },
            NodeKind::Sum(terms) => {
                let ghost start = out@;
                proof {
                    assert(sum_view(terms@.subrange(0, 0)) =~= Seq::empty());
                    assert(out@ =~= start + sum_terms_text(sum_view(terms@.subrange(0, 0))));
                }
                let mut i: usize = 0;
                while i < terms.len()
                    invariant
                        i <= terms@.len(),
                        out@ == start + sum_terms_text(sum_view(terms@.subrange(0, i as int))),
                        self.kind == NodeKind::Sum(*terms),
                    decreases terms@.len() - i,
                {
                    proof {
                        assert(terms@.subrange(0, i + 1) =~= terms@.subrange(0, i as int).push(terms@[i as int]));
                        lemma_sum_view_push(terms@.subrange(0, i as int), terms@[i as int]);
                        let pv = sum_view(terms@.subrange(0, i as int));
                        let t = (terms@[i as int].operator, terms@[i as int].operator_origin, expr_view(terms@[i as int].expression));
                        assert(pv.push(t).drop_last() =~= pv);
                    }
                    match terms[i].operator {
                        Some(CssCalculationSumOperator::Add) => out.append(" + "),
                        Some(CssCalculationSumOperator::Subtract) => out.append(" - "),
                        None => {},
                    }
                    proof {
                        assert(decreases_to!(*self => self.kind));
                        assert(decreases_to!(self.kind => self.kind->Sum_0));
                        assert(self.kind->Sum_0 == *terms);
                        assert(decreases_to!(*terms => terms[i as int]));
                        assert(decreases_to!(terms[i as int] => terms[i as int].expression));
                        assert(decreases_to!(*self => terms[i as int].expression));
                    }
                    terms[i].expression.write_canonical(out);
                    proof {
                        assert(out@ =~= start + sum_terms_text(sum_view(terms@.subrange(0, i + 1))));
                    }
                    i = i + 1;
                }
                proof {
                    assert(terms@.subrange(0, terms@.len() as int) =~= terms@);
                }
            },
            NodeKind::Product(factors) => {
                let ghost start = out@;
                proof {
                    assert(product_view(factors@.subrange(0, 0)) =~= Seq::empty());
                    assert(out@ =~= start + product_terms_text(product_view(factors@.subrange(0, 0))));
                }
                let mut i: usize = 0;
                while i < factors.len()
                    invariant
                        i <= factors@.len(),
                        out@ == start + product_terms_text(product_view(factors@.subrange(0, i as int))),
                        self.kind == NodeKind::Product(*factors),
                    decreases factors@.len() - i,
                {
                    proof {
                        assert(factors@.subrange(0, i + 1) =~= factors@.subrange(0, i as int).push(factors@[i as int]));
                        lemma_product_view_push(factors@.subrange(0, i as int), factors@[i as int]);
                        let pv = product_view(factors@.subrange(0, i as int));
                        let t = (factors@[i as int].operator, factors@[i as int].operator_origin, expr_view(factors@[i as int].expression));
                        assert(pv.push(t).drop_last() =~= pv);
                    }
                    match factors[i].operator {
                        Some(CssCalculationProductOperator::Multiply) => out.append(" * "),
                        Some(CssCalculationProductOperator::Divide) => out.append(" / "),
                        None => {},
                    }
                    proof {
                        assert(decreases_to!(*self => self.kind));
                        assert(decreases_to!(self.kind => self.kind->Product_0));
                        assert(self.kind->Product_0 == *factors);
                        assert(decreases_to!(*factors => factors[i as int]));
                        assert(decreases_to!(factors[i as int] => factors[i as int].expression));
                        assert(decreases_to!(*self => factors[i as int].expression));
                    }
                    factors[i].expression.write_canonical(out);
                    proof {
                        assert(out@ =~= start + product_terms_text(product_view(factors@.subrange(0, i + 1))));
                    }
                    i = i + 1;
                }
                proof {
                    assert(factors@.subrange(0, factors@.len() as int) =~= factors@);
                }
            },
            NodeKind::Function { function, args, strategy } => {
                let ghost start = out@;
                out.append(function.name());
                out.append("(");
                match strategy {
                    Some(st) => {
                        out.append(st.name());
                        out.append(", ");
                    },
                    None => {},
                }
                let ghost head = out@;
                proof {
                    assert(args_view(args@.subrange(0, 0)) =~= Seq::empty());
                    assert(out@ =~= head + args_text(args_view(args@.subrange(0, 0))));
                }
                let mut i: usize = 0;
                while i < args.len()
                    invariant
                        i <= args@.len(),
                        out@ == head + args_text(args_view(args@.subrange(0, i as int))),
                        self.kind == (NodeKind::Function { function: *function, args: *args, strategy: *strategy }),
                    decreases args@.len() - i,
                {
                    proof {
                        assert(args@.subrange(0, i + 1) =~= args@.subrange(0, i as int).push(args@[i as int]));
                        lemma_args_view_push(args@.subrange(0, i as int), args@[i as int]);
                        lemma_args_view_index(args@.subrange(0, i as int));
                        let pv = args_view(args@.subrange(0, i as int));
                        assert(pv.push(opt_view(args@[i as int])).drop_last() =~= pv);
                    }
                    if i > 0 {
                        out.append(", ");
                    }
                    proof {
                        assert(decreases_to!(*self => self.kind));
                        assert(decreases_to!(self.kind => self.kind->Function_args));
                        assert(self.kind->Function_args == *args);
                        assert(decreases_to!(*args => args[i as int]));
                    }
                    match &args[i] {
                        Some(e) => {
                            proof {
                                assert(decreases_to!(args[i as int] => args[i as int]->Some_0));
                            }
                            e.write_canonical(out)
                        },
                        None => out.append("none"),
                    }
                    proof {
                        assert(out@ =~= head + args_text(args_view(args@.subrange(0, i + 1))));
                    }
                    i = i + 1;
                }
                out.append(")");
                proof {
                    assert(args@.subrange(0, args@.len() as int) =~= args@);
                    assert(final(out)@ =~= old(out)@ + canonical_text(expr_view(*self)));
                }
            },
        }
    }

    /// Appends the canonical pieces of this node, each with its origin.
    #[verifier::spinoff_prover]
    #[verifier::rlimit(60)]
    fn write_pieces(&self, out: &mut Vec<(String, CssValueOrigin)>)
        ensures
            pieces_view(final(out)@) == pieces_view(old(out)@) + canonical_pieces(expr_view(*self)),
        decreases self,
    {
        let ghost start = pieces_view(out@);
        match &self.kind {
            NodeKind::Value(c) => {
                let mut t = String::new();
                match c {
                    CssComponentValue::Number { representation, .. } => {
                        t.append(representation.as_str());
                    },
                    CssComponentValue::Percentage { representation, .. } => {
                        t.append(representation.as_str());
                        t.append("%");
                    },
                    CssComponentValue::Dimension { representation, unit, .. } => {
                        t.append(representation.as_str());
                        let lower = ascii_lowercase(unit.as_str());
                        t.append(lower.as_str());
                    },
                    _ => {},
                }
                proof {
                    assert(t@ =~= token_text(*c));
                    lemma_pieces_push(out@, (t, self.origin));
                }
                out.push((t, self.origin));
                proof {
                    assert(pieces_view(out@) =~= start + canonical_pieces(expr_view(*self)));
                }
            },
            NodeKind::Constant(k) => {
                push_piece(out, k.name(), self.origin);
                proof {
                    assert(pieces_view(out@) =~= start + canonical_pieces(expr_view(*self)));
                }
            },
            NodeKind::Group(b) => {
                push_piece(out, "(", self.origin);
                b.write_pieces(out);
                let closing = match self.closing {
                    Some(o) => o,
                    None => self.origin,
                };
                push_piece(out, ")", closing);
                proof {
                    assert(pieces_view(out@) =~= start + canonical_pieces(expr_view(*self)));
                }
            },
            NodeKind::Sum(terms) => {
                proof {
                    assert(sum_view(terms@.subrange(0, 0)) =~= Seq::empty());
                    assert(pieces_view(out@) =~= start + sum_pieces(sum_view(terms@.subrange(0, 0))));
                }
                let mut i: usize = 0;
                while i < terms.len()
                    invariant
                        i <= terms@.len(),
                        pieces_view(out@) == start + sum_pieces(sum_view(terms@.subrange(0, i as int))),
                        self.kind == NodeKind::Sum(*terms),
                    decreases terms@.len() - i,
                {
                    proof {
                        assert(terms@.subrange(0, i + 1) =~= terms@.subrange(0, i as int).push(terms@[i as int]));
                        lemma_sum_view_push(terms@.subrange(0, i as int), terms@[i as int]);
                        let pv = sum_view(terms@.subrange(0, i as int));
                        let t = (terms@[i as int].operator, terms@[i as int].operator_origin, expr_view(terms@[i as int].expression));
                        assert(pv.push(t).drop_last() =~= pv);
                    }
                    let ghost mid = pieces_view(out@);
                    let fallback = terms[i].expression.origin;
                    let origin = match terms[i].operator_origin {
                        Some(o) => o,
                        None => fallback,
                    };
                    match terms[i].operator {
                        Some(CssCalculationSumOperator::Add) => push_piece(out, " + ", origin),
                        Some(CssCalculationSumOperator::Subtract) => push_piece(out, " - ", origin),
                        None => {},
                    }
                    proof {
                        assert(decreases_to!(*self => self.kind));
                        assert(decreases_to!(self.kind => self.kind->Sum_0));
                        assert(self.kind->Sum_0 == *terms);
                        assert(decreases_to!(*terms => terms[i as int]));
                        assert(decreases_to!(terms[i as int] => terms[i as int].expression));
                        assert(decreases_to!(*self => terms[i as int].expression));
                    }
                    terms[i].expression.write_pieces(out);
                    proof {
                        assert(pieces_view(out@) =~= start + sum_pieces(sum_view(terms@.subrange(0, i + 1))));
                    }
                    i = i + 1;
                }
                proof {
                    assert(terms@.subrange(0, terms@.len() as int) =~= terms@);
                }
            },
            NodeKind::Product(factors) => {
                proof {
                    assert(product_view(factors@.subrange(0, 0)) =~= Seq::empty());
                    assert(pieces_view(out@) =~= start + product_pieces(product_view(factors@.subrange(0, 0))));
                }
                let mut i: usize = 0;
                while i < factors.len()
                    invariant
                        i <= factors@.len(),
                        pieces_view(out@) == start + product_pieces(product_view(factors@.subrange(0, i as int))),
                        self.kind == NodeKind::Product(*factors),
                    decreases factors@.len() - i,
                {
                    proof {
                        assert(factors@.subrange(0, i + 1) =~= factors@.subrange(0, i as int).push(factors@[i as int]));
                        lemma_product_view_push(factors@.subrange(0, i as int), factors@[i as int]);
                        let pv = product_view(factors@.subrange(0, i as int));
                        let t = (factors@[i as int].operator, factors@[i as int].operator_origin, expr_view(factors@[i as int].expression));
                        assert(pv.push(t).drop_last() =~= pv);
                    }
                    let fallback = factors[i].expression.origin;
                    let origin = match factors[i].operator_origin {
                        Some(o) => o,
                        None => fallback,
                    };
                    match factors[i].operator {
                        Some(CssCalculationProductOperator::Multiply) => push_piece(out, " * ", origin),
                        Some(CssCalculationProductOperator::Divide) => push_piece(out, " / ", origin),
                        None => {},
                    }
                    proof {
                        assert(decreases_to!(*self => self.kind));
                        assert(decreases_to!(self.kind => self.kind->Product_0));
                        assert(self.kind->Product_0 == *factors);
                        assert(decreases_to!(*factors => factors[i as int]));
                        assert(decreases_to!(factors[i as int] => factors[i as int].expression));
                        assert(decreases_to!(*self => factors[i as int].expression));
                    }
                    factors[i].expression.write_pieces(out);
                    proof {
                        assert(pieces_view(out@) =~= start + product_pieces(product_view(factors@.subrange(0, i + 1))));
                    }
                    i = i + 1;
                }
                proof {
                    assert(factors@.subrange(0, factors@.len() as int) =~= factors@);
                }
            },
            NodeKind::Function { function, args, strategy } => {
                let mut head = String::new();
                head.append(function.name());
                head.append("(");
                proof {
                    assert(head@ =~= function_name(*function)@ + "("@);
                    lemma_pieces_push(out@, (head, self.origin));
                }
                out.push((head, self.origin));
                match strategy {
                    Some(st) => {
                        push_piece(out, st.name(), self.origin);
                        push_piece(out, ", ", self.origin);
                    },
                    None => {},
                }
                let ghost head_pieces = pieces_view(out@);
                proof {
                    assert(args_view(args@.subrange(0, 0)) =~= Seq::empty());
                    assert(pieces_view(out@) =~= head_pieces + args_pieces(args_view(args@.subrange(0, 0)), self.origin));
                }
                let mut i: usize = 0;
                while i < args.len()
                    invariant
                        i <= args@.len(),
                        pieces_view(out@) == head_pieces + args_pieces(args_view(args@.subrange(0, i as int)), self.origin),
                        self.kind == (NodeKind::Function { function: *function, args: *args, strategy: *strategy }),
                    decreases args@.len() - i,
                {
                    proof {
                        assert(args@.subrange(0, i + 1) =~= args@.subrange(0, i as int).push(args@[i as int]));
                        lemma_args_view_push(args@.subrange(0, i as int), args@[i as int]);
                        lemma_args_view_index(args@.subrange(0, i as int));
                        let pv = args_view(args@.subrange(0, i as int));
                        assert(pv.push(opt_view(args@[i as int])).drop_last() =~= pv);
                    }
                    if i > 0 {
                        push_piece(out, ", ", self.origin);
                    }
                    proof {
                        assert(decreases_to!(*self => self.kind));
                        assert(decreases_to!(self.kind => self.kind->Function_args));
                        assert(self.kind->Function_args == *args);
                        assert(decreases_to!(*args => args[i as int]));
                    }
                    match &args[i] {
                        Some(e) => {
                            proof {
                                assert(decreases_to!(args[i as int] => args[i as int]->Some_0));
                            }
                            e.write_pieces(out)
                        },
                        None => push_piece(out, "none", self.origin),
                    }
                    proof {
                        assert(pieces_view(out@) =~= head_pieces + args_pieces(args_view(args@.subrange(0, i + 1)), self.origin));
                    }
                    i = i + 1;
                }
                let closing = match self.closing {
                    Some(o) => o,
                    None => self.origin,
                };
                push_piece(out, ")", closing);
                proof {
                    assert(args@.subrange(0, args@.len() as int) =~= args@);
                    assert(pieces_view(out@) =~= start + canonical_pieces(expr_view(*self)));
                }
            },
        }
    }

    /// The canonical text of this node as pieces, each with the origin it is written for.
    pub fn to_css_pieces(&self) -> (r: Vec<(String, CssValueOrigin)>)
        ensures
            pieces_view(r@) == canonical_pieces(self.calc_view()),
    {
        let mut out: Vec<(String, CssValueOrigin)> = Vec::new();
        proof {
            assert(pieces_view(out@) =~= Seq::empty());
        }
        self.write_pieces(&mut out);
        proof {
            assert(pieces_view(out@) =~= canonical_pieces(self.calc_view()));
        }
        out
    }

    /// The canonical text of this node.
    pub fn to_css_fragment(&self) -> (r: String)
        ensures
            r@ == canonical_text(self.calc_view()),
            r@.len() == canonical_size(self.calc_view()),
    {
        proof {
            use_type_invariant(self);
            lemma_size_is_text_len(self.calc_view());
        }
        let mut out = String::new();
        self.write_canonical(&mut out);
        proof {
            assert(out@ =~= canonical_text(self.calc_view()));
        }
        out
    }
}

/// Only the first operand of a sum or product is written without an operator, at every
/// level of the tree, as admission builds them.
pub open spec fn well_operated(v: CalcView) -> bool
    decreases v,
{
    match v.kind {
        CalcKind::Value(_) => true,
        CalcKind::Constant(_) => true,
        CalcKind::Group(b) => well_operated(*b),
        CalcKind::Sum(t) => t.len() >= 1 && sum_operated(t),
        CalcKind::Product(t) => t.len() >= 1 && product_operated(t),
        CalcKind::Function(_, args, _) => args_operated(args),
    }
}

pub open spec fn sum_operated(t: Seq<(Option<CssCalculationSumOperator>, Option<CssValueOrigin>, CalcView)>) -> bool
    decreases t,
{
    if t.len() == 0 {
        true
    } else {
        sum_operated(t.drop_last()) && (t.last().0 is None <==> t.len() == 1) && well_operated(t.last().2)
    }
}

pub open spec fn product_operated(t: Seq<(Option<CssCalculationProductOperator>, Option<CssValueOrigin>, CalcView)>) -> bool
    decreases t,
{
    if t.len() == 0 {
        true
    } else {
        product_operated(t.drop_last()) && (t.last().0 is None <==> t.len() == 1) && well_operated(t.last().2)
    }
}

pub open spec fn args_operated(t: Seq<Option<CalcView>>) -> bool
    decreases t,
{
    if t.len() == 0 {
        true
    } else {
        args_operated(t.drop_last()) && match t.last() {
            Some(a) => well_operated(a),
            None => true,
        }
    }
}

/// The canonical length that admission checks against the byte limit is the length of
/// the canonical text.
pub proof fn lemma_canonical_text_len(v: CalcView)
    requires
        well_operated(v),
    ensures
        canonical_text(v).len() == canonical_size(v),
    decreases v,
{
    reveal_strlit("%");
    reveal_strlit("(");
    reveal_strlit(")");
    reveal_strlit(", ");
    match v.kind {
        CalcKind::Value(c) => {},
        CalcKind::Constant(_) => {},
        CalcKind::Group(b) => {
            lemma_canonical_text_len(*b);
        },
        CalcKind::Sum(t) => {
            lemma_sum_text_len(t);
        },
        CalcKind::Product(t) => {
            lemma_product_text_len(t);
        },
        CalcKind::Function(_, args, _) => {
            lemma_args_text_len(args);
        },
    }
}

proof fn lemma_sum_text_len(t: Seq<(Option<CssCalculationSumOperator>, Option<CssValueOrigin>, CalcView)>)
    requires
        sum_operated(t),
    ensures
        t.len() >= 1 ==> sum_terms_text(t).len() == sum_terms_size(t) + 3 * (t.len() - 1),
    decreases t,
{
    reveal_strlit(" + ");
    reveal_strlit(" - ");
    if t.len() > 0 {
        lemma_sum_text_len(t.drop_last());
        lemma_canonical_text_len(t.last().2);
        if t.len() == 1 {
            assert(sum_terms_text(t.drop_last()) =~= Seq::empty());
            assert(sum_terms_size(t.drop_last()) == 0);
        }
    }
}

proof fn lemma_product_text_len(t: Seq<(Option<CssCalculationProductOperator>, Option<CssValueOrigin>, CalcView)>)
    requires
        product_operated(t),
    ensures
        t.len() >= 1 ==> product_terms_text(t).len() == product_terms_size(t) + 3 * (t.len() - 1),
    decreases t,
{
    reveal_strlit(" * ");
    reveal_strlit(" / ");
    if t.len() > 0 {
        lemma_product_text_len(t.drop_last());
        lemma_canonical_text_len(t.last().2);
        if t.len() == 1 {
            assert(product_terms_text(t.drop_last()) =~= Seq::empty());
            assert(product_terms_size(t.drop_last()) == 0);
        }
    }
}

proof fn lemma_args_text_len(t: Seq<Option<CalcView>>)
    requires
        args_operated(t),
    ensures
        args_text(t).len() == args_size(t) + 4 * none_count(t) + if t.len() == 0 { 0 } else { 2 * (t.len() - 1) },
    decreases t,
{
    reveal_strlit(", ");
    reveal_strlit("none");
    if t.len() > 0 {
        lemma_args_text_len(t.drop_last());
        match t.last() {
            Some(a) => lemma_canonical_text_len(a),
            None => {},
        }
    }
}

/// Where numeric input comes from: authored text, whose recovered closing tokens are
/// admitted, or supplied component values, which must be complete.
#[derive(Clone, Copy, Debug, PartialEq, Eq, Structural)]
pub enum NumericInputKind {
    Parsed,
    Components,
}

/// Admits component values from the given kind of input under explicit limits.
pub fn admit_with_limits(
    input: NumericInputKind,
    values: CssComponentValues,
    root: CalculationRoot,
    limits: CssComponentValueLimits,
) -> (r: Result<CssCalculationExpression, CssNumericConstructionError>)
    ensures
        construct_outcome(values.items@, root, limits, input is Components, r),
{
    let strict = match input {
        NumericInputKind::Parsed => false,
        NumericInputKind::Components => true,
    };
    construct_with_policy(values, root, limits, strict)
}

/// Admits component values from the given kind of input under the default limits.
pub fn admit_input(input: NumericInputKind, values: CssComponentValues, root: CalculationRoot) -> (r: Result<
    CssCalculationExpression,
    CssNumericConstructionError,
>)
    ensures
        construct_outcome(values.items@, root, default_limits(), input is Components, r),
{
    admit_with_limits(input, values, root, CssComponentValueLimits::default())
}

} // verus!
