//! The CSS numeric type algebra: dimensional exponents with an optional
//! percentage basis, and the classified result types of calculations.

use vstd::prelude::*;

verus! {

/// A dimensional axis in the CSS numeric type algebra.
#[derive(Clone, Copy, Debug, PartialEq, Eq, Structural)]
pub enum CssNumericDimension {
    Length,
    Angle,
    Time,
    Frequency,
    Resolution,
    Flex,
    Percentage,
}

/// The number of dimensional axes.
pub const DIMENSION_COUNT: usize = 7;

impl CssNumericDimension {
    /// The axis position, in declaration order.
    pub open spec fn position(self) -> int {
        match self {
            CssNumericDimension::Length => 0,
            CssNumericDimension::Angle => 1,
            CssNumericDimension::Time => 2,
            CssNumericDimension::Frequency => 3,
            CssNumericDimension::Resolution => 4,
            CssNumericDimension::Flex => 5,
            CssNumericDimension::Percentage => 6,
        }
    }

    pub fn index(self) -> (r: usize)
        ensures
            r == self.position(),
    {
        match self {
            CssNumericDimension::Length => 0,
            CssNumericDimension::Angle => 1,
            CssNumericDimension::Time => 2,
            CssNumericDimension::Frequency => 3,
            CssNumericDimension::Resolution => 4,
            CssNumericDimension::Flex => 5,
            CssNumericDimension::Percentage => 6,
        }
    }

    /// The axis at a position below seven.
    pub fn at(i: usize) -> (r: Self)
        requires
            i < 7,
        ensures
            r.position() == i,
    {
        if i == 0 {
            CssNumericDimension::Length
        } else if i == 1 {
            CssNumericDimension::Angle
        } else if i == 2 {
            CssNumericDimension::Time
        } else if i == 3 {
            CssNumericDimension::Frequency
        } else if i == 4 {
            CssNumericDimension::Resolution
        } else if i == 5 {
            CssNumericDimension::Flex
        } else {
            CssNumericDimension::Percentage
        }
    }
}

/// Immutable dimensional exponents and the context's percentage hint. Values only come
/// from checked expressions.
#[derive(Clone, Copy, Debug, PartialEq, Eq, Structural)]
pub struct CssNumericType {
    length: i32,
    angle: i32,
    time: i32,
    frequency: i32,
    resolution: i32,
    flex: i32,
    percentage: i32,
    hint: Option<CssNumericDimension>,
}

/// The dimensionless type without a percentage hint.
pub closed spec fn number_type() -> CssNumericType {
    CssNumericType {
        length: 0,
        angle: 0,
        time: 0,
        frequency: 0,
        resolution: 0,
        flex: 0,
        percentage: 0,
        hint: None,
    }
}

/// A bare dimension without a percentage hint.
pub closed spec fn dimension_type(d: CssNumericDimension) -> CssNumericType {
    CssNumericType {
        length: if d is Length { 1 } else { 0 },
        angle: if d is Angle { 1 } else { 0 },
        time: if d is Time { 1 } else { 0 },
        frequency: if d is Frequency { 1 } else { 0 },
        resolution: if d is Resolution { 1 } else { 0 },
        flex: if d is Flex { 1 } else { 0 },
        percentage: if d is Percentage { 1 } else { 0 },
        hint: None,
    }
}

/// The exponents of a type, by axis position.
pub open spec fn all_zero(p: Seq<int>) -> bool {
    forall|i: int| 0 <= i < p.len() ==> p[i] == 0
}

/// One exponent equal to one, the others zero or one.
pub open spec fn single_unit(p: Seq<int>) -> bool {
    &&& forall|i: int| 0 <= i < p.len() ==> p[i] == 0 || p[i] == 1
    &&& exists|i: int| 0 <= i < p.len() && p[i] == 1 && forall|j: int|
        0 <= j < p.len() && j != i ==> p[j] == 0
}

/// The exponents of a bare dimension.
pub open spec fn unit_powers(d: CssNumericDimension) -> Seq<int> {
    Seq::new(7, |i: int| if i == d.position() {
        1int
    } else {
        0int
    })
}

pub open spec fn in_i32(x: int) -> bool {
    i32::MIN <= x <= i32::MAX
}

impl CssNumericType {
    pub closed spec fn powers(self) -> Seq<int> {
        seq![
            self.length as int,
            self.angle as int,
            self.time as int,
            self.frequency as int,
            self.resolution as int,
            self.flex as int,
            self.percentage as int,
        ]
    }

    pub closed spec fn hint_of(self) -> Option<CssNumericDimension> {
        self.hint
    }

    /// The same exponents under another percentage hint.
    pub closed spec fn with_hint_spec(self, h: Option<CssNumericDimension>) -> Self {
        CssNumericType { hint: h, ..self }
    }

    pub proof fn lemma_powers_len(self)
        ensures
            self.powers().len() == 7,
            forall|i: int| 0 <= i < 7 ==> in_i32(#[trigger] self.powers()[i]),
    {
    }

    /// Two types are equal exactly when exponents and hints agree.
    pub proof fn lemma_equal(self, other: Self)
        ensures
            (self == other) <==> (self.powers() == other.powers() && self.hint_of()
                == other.hint_of()),
    {
        if self.powers() == other.powers() {
            assert(self.powers()[0] == other.powers()[0]);
            assert(self.powers()[1] == other.powers()[1]);
            assert(self.powers()[2] == other.powers()[2]);
            assert(self.powers()[3] == other.powers()[3]);
            assert(self.powers()[4] == other.powers()[4]);
            assert(self.powers()[5] == other.powers()[5]);
            assert(self.powers()[6] == other.powers()[6]);
        }
    }

    /// The dimensionless type.
    pub fn number() -> (r: Self)
        ensures
            r == number_type(),
            all_zero(r.powers()),
            r.powers().len() == 7,
            r.hint_of() is None,
    {
        Self {
            length: 0,
            angle: 0,
            time: 0,
            frequency: 0,
            resolution: 0,
            flex: 0,
            percentage: 0,
            hint: None,
        }
    }

    /// A bare dimension.
    pub fn dimension(d: CssNumericDimension) -> (r: Self)
        ensures
            r == dimension_type(d),
            r.powers() == unit_powers(d),
            r.hint_of() is None,
    {
        let r = Self::number().with_power(d.index(), 1);
        proof {
            assert(r.powers() =~= unit_powers(d));
            assert(dimension_type(d).powers() =~= unit_powers(d));
            r.lemma_equal(dimension_type(d));
        }
        r
    }

    fn power_at(self, i: usize) -> (r: i32)
        requires
            i < 7,
        ensures
            r == self.powers()[i as int],
    {
        if i == 0 {
            self.length
        } else if i == 1 {
            self.angle
        } else if i == 2 {
            self.time
        } else if i == 3 {
            self.frequency
        } else if i == 4 {
            self.resolution
        } else if i == 5 {
            self.flex
        } else {
            self.percentage
        }
    }

    fn with_power(self, i: usize, v: i32) -> (r: Self)
        requires
            i < 7,
        ensures
            r.powers() == self.powers().update(i as int, v as int),
            r.hint_of() == self.hint_of(),
    {
        let mut r = self;
        if i == 0 {
            r.length = v;
        } else if i == 1 {
            r.angle = v;
        } else if i == 2 {
            r.time = v;
        } else if i == 3 {
            r.frequency = v;
        } else if i == 4 {
            r.resolution = v;
        } else if i == 5 {
            r.flex = v;
        } else {
            r.percentage = v;
        }
        proof {
            assert(r.powers() =~= self.powers().update(i as int, v as int));
        }
        r
    }

    pub(crate) fn with_hint(self, h: Option<CssNumericDimension>) -> (r: Self)
        ensures
            r == self.with_hint_spec(h),
            r.powers() == self.powers(),
            r.hint_of() == h,
    {
        let mut r = self;
        r.hint = h;
        r
    }

    /// Returns a dimensional exponent, including intermediate negative powers.
    pub fn exponent(self, d: CssNumericDimension) -> (r: i32)
        ensures
            r == self.powers()[d.position()],
    {
        self.power_at(d.index())
    }

    /// Returns the unresolved percentage basis.
    pub fn percent_hint(self) -> (r: Option<CssNumericDimension>)
        ensures
            r == self.hint_of(),
    {
        self.hint
    }

    /// Whether all exponents agree.
    pub fn same_powers(self, other: Self) -> (r: bool)
        ensures
            r == (self.powers() == other.powers()),
    {
        let r = self.length == other.length && self.angle == other.angle && self.time
            == other.time && self.frequency == other.frequency && self.resolution
            == other.resolution && self.flex == other.flex && self.percentage
            == other.percentage;
        proof {
            if !r {
                if self.length != other.length {
                    assert(self.powers()[0] != other.powers()[0]);
                } else if self.angle != other.angle {
                    assert(self.powers()[1] != other.powers()[1]);
                } else if self.time != other.time {
                    assert(self.powers()[2] != other.powers()[2]);
                } else if self.frequency != other.frequency {
                    assert(self.powers()[3] != other.powers()[3]);
                } else if self.resolution != other.resolution {
                    assert(self.powers()[4] != other.powers()[4]);
                } else if self.flex != other.flex {
                    assert(self.powers()[5] != other.powers()[5]);
                } else {
                    assert(self.powers()[6] != other.powers()[6]);
                }
            } else {
                assert(self.powers() =~= other.powers());
            }
        }
        r
    }

    /// Resolves the percentage exponent into the basis `h`.
    pub fn hinted(self, h: CssNumericDimension) -> (r: Option<Self>)
        ensures
            r == hinted_spec(self, h),
            r matches Some(v) ==> v.powers() == self.powers().update(
                h.position(),
                self.powers()[h.position()] + self.powers()[6],
            ).update(6, 0) && v.hint_of() == Some(h),
    {
        if let Some(old) = self.hint {
            if old != h {
                return None;
            }
        }
        let i = h.index();
        let sum = match self.power_at(i).checked_add(self.percentage) {
            Some(v) => v,
            None => {
                return None;
            },
        };
        let r = self.with_power(i, sum).with_power(6, 0).with_hint(Some(h));
        Some(r)
    }
}

/// The type after resolving percentages into the basis `h`, unless another basis is
/// already set or an exponent overflows.
pub open spec fn hinted_spec(t: CssNumericType, h: CssNumericDimension) -> Option<CssNumericType> {
    let sum = t.powers()[h.position()] + t.powers()[6];
    if (t.hint_of() matches Some(old) && old != h) || !in_i32(sum) {
        None
    } else {
        Some(
            choose|r: CssNumericType|
                r.powers() == t.powers().update(h.position(), sum).update(6, 0) && r.hint_of()
                    == Some(h),
        )
    }
}


/// Both types over one percentage basis, or `None` when their bases conflict.
pub open spec fn consistent_spec(a: CssNumericType, b: CssNumericType) -> Option<(CssNumericType, CssNumericType)> {
    match (a.hint_of(), b.hint_of()) {
        (Some(x), Some(y)) => if x != y {
            None
        } else {
            match hinted_spec(b, x) {
                Some(v) => Some((a, v)),
                None => None,
            }
        },
        (Some(h), None) => match hinted_spec(b, h) {
            Some(v) => Some((a, v)),
            None => None,
        },
        (None, Some(h)) => match hinted_spec(a, h) {
            Some(u) => Some((u, b)),
            None => None,
        },
        (None, None) => Some((a, b)),
    }
}

/// The first basis from position `d` on under which both types agree.
pub open spec fn add_search(x: CssNumericType, y: CssNumericType, d: int) -> Option<CssNumericType>
    decreases 6 - d,
{
    if d >= 6 || d < 0 {
        None
    } else {
        match (hinted_spec(x, dimension_at(d)), hinted_spec(y, dimension_at(d))) {
            (Some(u), Some(v)) => if u.powers() == v.powers() {
                Some(u)
            } else {
                add_search(x, y, d + 1)
            },
            _ => None,
        }
    }
}

pub open spec fn dimension_at(i: int) -> CssNumericDimension {
    if i == 0 {
        CssNumericDimension::Length
    } else if i == 1 {
        CssNumericDimension::Angle
    } else if i == 2 {
        CssNumericDimension::Time
    } else if i == 3 {
        CssNumericDimension::Frequency
    } else if i == 4 {
        CssNumericDimension::Resolution
    } else if i == 5 {
        CssNumericDimension::Flex
    } else {
        CssNumericDimension::Percentage
    }
}

/// The type of a sum, or `None` when the operands are incompatible.
pub open spec fn add_spec(a: CssNumericType, b: CssNumericType) -> Option<CssNumericType> {
    match consistent_spec(a, b) {
        None => None,
        Some((x, y)) => if x.powers() == y.powers() {
            Some(x)
        } else if x.hint_of() is None && (x.powers()[6] != 0 || y.powers()[6] != 0) {
            add_search(x, y, 0)
        } else {
            None
        },
    }
}

/// The type of a product (`divide` false) or quotient, or `None` when the bases conflict
/// or an exponent leaves `i32`.
pub open spec fn product_spec(a: CssNumericType, b: CssNumericType, divide: bool) -> Option<CssNumericType> {
    match consistent_spec(a, b) {
        None => None,
        Some((x, y)) => if forall|i: int| 0 <= i < 7 ==> in_i32(#[trigger] product_powers(x.powers(), y.powers(), divide)[i]) {
            Some(choose|t: CssNumericType| t.powers() == product_powers(x.powers(), y.powers(), divide) && t.hint_of() == x.hint_of())
        } else {
            None
        },
    }
}

/// The exponents of a product (`divide` false) or quotient.
pub open spec fn product_powers(x: Seq<int>, y: Seq<int>, divide: bool) -> Seq<int> {
    Seq::new(7, |i: int| if divide {
        x[i] - y[i]
    } else {
        x[i] + y[i]
    })
}

impl CssNumericType {
    /// Brings both types to one percentage basis.
    pub fn consistent(self, other: Self) -> (r: Option<(Self, Self)>)
        ensures
            r == consistent_spec(self, other),
    {
        match (self.hint, other.hint) {
            (Some(a), Some(b)) => {
                if a != b {
                    None
                } else {
                    match other.hinted(a) {
                        Some(v) => Some((self, v)),
                        None => None,
                    }
                }
            },
            (Some(h), None) => match other.hinted(h) {
                Some(v) => Some((self, v)),
                None => None,
            },
            (None, Some(h)) => match self.hinted(h) {
                Some(u) => Some((u, other)),
                None => None,
            },
            (None, None) => Some((self, other)),
        }
    }

    /// The type of `self + other`.
    pub fn add(self, other: Self) -> (r: Option<Self>)
        ensures
            r == add_spec(self, other),
    {
        let (a, b) = match self.consistent(other) {
            Some(pair) => pair,
            None => {
                return None;
            },
        };
        if a.same_powers(b) {
            return Some(a);
        }
        if a.hint.is_none() && (a.percentage != 0 || b.percentage != 0) {
            let mut d: usize = 0;
            while d < 6
                invariant
                    d <= 6,
                    add_search(a, b, 0) == add_search(a, b, d as int),
                    add_spec(self, other) == add_search(a, b, 0),
                decreases 6 - d,
            {
                let dimension = CssNumericDimension::at(d);
                proof {
                    assert(dimension == dimension_at(d as int));
                }
                let x = match a.hinted(dimension) {
                    Some(v) => v,
                    None => {
                        return None;
                    },
                };
                let y = match b.hinted(dimension) {
                    Some(v) => v,
                    None => {
                        return None;
                    },
                };
                if x.same_powers(y) {
                    return Some(x);
                }
                d = d + 1;
            }
        }
        None
    }

    /// The type of `self * other`, or of `self / other` when `divide` is set.
    pub fn product(self, other: Self, divide: bool) -> (r: Option<Self>)
        ensures
            r == product_spec(self, other, divide),
            r matches Some(t) ==> consistent_spec(self, other) matches Some((x, y)) && t.powers()
                == product_powers(x.powers(), y.powers(), divide) && t.hint_of() == x.hint_of(),
            r is None ==> (consistent_spec(self, other) is None || (consistent_spec(self, other) matches Some((x, y))
                && exists|i: int| 0 <= i < 7 && !in_i32(
                    #[trigger] product_powers(x.powers(), y.powers(), divide)[i],
                ))),
    {
        let (mut a, b) = match self.consistent(other) {
            Some(pair) => pair,
            None => {
                return None;
            },
        };
        let ghost x = a;
        let mut i: usize = 0;
        while i < 7
            invariant
                i <= 7,
                consistent_spec(self, other) == Some((x, b)),
                a.hint_of() == x.hint_of(),
                a.powers().len() == 7,
                forall|k: int|
                    0 <= k < i ==> #[trigger] a.powers()[k] == product_powers(
                        x.powers(),
                        b.powers(),
                        divide,
                    )[k],
                forall|k: int| i <= k < 7 ==> #[trigger] a.powers()[k] == x.powers()[k],
            decreases 7 - i,
        {
            let left = a.power_at(i);
            let right = b.power_at(i);
            let next = if divide {
                left.checked_sub(right)
            } else {
                left.checked_add(right)
            };
            match next {
                Some(v) => {
                    a = a.with_power(i, v);
                },
                None => {
                    proof {
                        assert(!in_i32(product_powers(x.powers(), b.powers(), divide)[i as int]));
                    }
                    return None;
                },
            }
            i = i + 1;
        }
        proof {
            assert(a.powers() =~= product_powers(x.powers(), b.powers(), divide));
            a.lemma_powers_len();
            lemma_product_in_range(a, x, b, divide);
            let t = choose|t: CssNumericType| t.powers() == product_powers(x.powers(), b.powers(), divide) && t.hint_of() == x.hint_of();
            assert(a.powers() == product_powers(x.powers(), b.powers(), divide) && a.hint_of() == x.hint_of());
            a.lemma_equal(t);
        }
        Some(a)
    }

    /// Dimensionless, or exactly one base dimension to the first power.
    pub fn simple(self) -> (r: bool)
        ensures
            r == (all_zero(self.powers()) || single_unit(self.powers())),
    {
        let mut ones: usize = 0;
        let mut zeros_or_ones = true;
        let mut all_zeros = true;
        let mut i: usize = 0;
        let ghost mut one_at: int = -1;
        while i < 7
            invariant
                i <= 7,
                ones <= i,
                self.powers().len() == 7,
                all_zeros == (forall|k: int| 0 <= k < i ==> self.powers()[k] == 0),
                zeros_or_ones == (forall|k: int| 0 <= k < i ==> self.powers()[k] == 0 || self.powers()[k] == 1),
                zeros_or_ones ==> (ones == 0 <==> forall|k: int| 0 <= k < i ==> self.powers()[k] == 0),
                zeros_or_ones && ones == 1 ==> 0 <= one_at < i && self.powers()[one_at] == 1 && forall|k: int|
                    0 <= k < i && k != one_at ==> self.powers()[k] == 0,
                zeros_or_ones && ones >= 2 ==> exists|a: int, b: int|
                    0 <= a < b < i && self.powers()[a] == 1 && self.powers()[b] == 1,
            decreases 7 - i,
        {
            let p = self.power_at(i);
            if p != 0 {
                all_zeros = false;
            }
            if p == 1 {
                if ones == 0 {
                    proof {
                        one_at = i as int;
                    }
                } else if ones == 1 {
                    proof {
                        if zeros_or_ones {
                            assert(self.powers()[one_at] == 1);
                            assert(self.powers()[i as int] == 1);
                        }
                    }
                }
                ones = ones + 1;
            } else if p != 0 {
                zeros_or_ones = false;
            }
            i = i + 1;
        }
        let r = all_zeros || (ones == 1 && zeros_or_ones);
        proof {
            if single_unit(self.powers()) && !all_zeros {
                let w = choose|w: int| 0 <= w < 7 && self.powers()[w] == 1 && forall|j: int|
                    0 <= j < 7 && j != w ==> self.powers()[j] == 0;
                if ones >= 2 {
                    let (a, b) = choose|a: int, b: int|
                        0 <= a < b < 7 && self.powers()[a] == 1 && self.powers()[b] == 1;
                    assert(a == w || b == w);
                }
                assert(ones != 0) by {
                    assert(self.powers()[w] != 0);
                }
            }
            if ones == 1 && zeros_or_ones {
                assert(single_unit(self.powers()));
            }
        }
        r
    }

    /// Dimensionless.
    pub fn is_number(self) -> (r: bool)
        ensures
            r == all_zero(self.powers()),
    {
        let r = self.length == 0 && self.angle == 0 && self.time == 0 && self.frequency == 0
            && self.resolution == 0 && self.flex == 0 && self.percentage == 0;
        proof {
            if r {
                assert(all_zero(self.powers()));
            } else {
                if self.length != 0 {
                    assert(self.powers()[0] != 0);
                } else if self.angle != 0 {
                    assert(self.powers()[1] != 0);
                } else if self.time != 0 {
                    assert(self.powers()[2] != 0);
                } else if self.frequency != 0 {
                    assert(self.powers()[3] != 0);
                } else if self.resolution != 0 {
                    assert(self.powers()[4] != 0);
                } else if self.flex != 0 {
                    assert(self.powers()[5] != 0);
                } else {
                    assert(self.powers()[6] != 0);
                }
            }
        }
        r
    }

    /// Exactly the dimension `d`, whatever the percentage basis.
    pub fn is(self, d: CssNumericDimension) -> (r: bool)
        ensures
            r == (self.powers() == unit_powers(d)),
    {
        self.same_powers(Self::dimension(d))
    }
}


/// Classified root types, with the complete algebra available for intermediate nodes.
#[derive(Clone, Copy, Debug, PartialEq, Eq, Structural)]
pub enum CssCalculationType {
    Number,
    Percentage,
    Length,
    LengthPercentage,
    Angle,
    AnglePercentage,
    Time,
    TimePercentage,
    Frequency,
    FrequencyPercentage,
    Resolution,
    Flex,
    Algebra(CssNumericType),
}

/// The classification of a numeric type.
pub open spec fn classify(t: CssNumericType) -> CssCalculationType {
    if t.hint_of() is None && all_zero(t.powers()) {
        CssCalculationType::Number
    } else if t.hint_of() is None && t.powers() == unit_powers(CssNumericDimension::Length) {
        CssCalculationType::Length
    } else if t.hint_of() is None && t.powers() == unit_powers(CssNumericDimension::Angle) {
        CssCalculationType::Angle
    } else if t.hint_of() is None && t.powers() == unit_powers(CssNumericDimension::Time) {
        CssCalculationType::Time
    } else if t.hint_of() is None && t.powers() == unit_powers(CssNumericDimension::Frequency) {
        CssCalculationType::Frequency
    } else if t.hint_of() is None && t.powers() == unit_powers(CssNumericDimension::Resolution) {
        CssCalculationType::Resolution
    } else if t.hint_of() is None && t.powers() == unit_powers(CssNumericDimension::Flex) {
        CssCalculationType::Flex
    } else if t.hint_of() is None && t.powers() == unit_powers(CssNumericDimension::Percentage) {
        CssCalculationType::Percentage
    } else if t.hint_of() == Some(CssNumericDimension::Length) && t.powers() == unit_powers(
        CssNumericDimension::Length,
    ) {
        CssCalculationType::LengthPercentage
    } else {
        CssCalculationType::Algebra(t)
    }
}

/// A dimension with a percentage basis of that same dimension.
pub open spec fn basis_type_ok(r: CssNumericType, d: CssNumericDimension) -> bool {
    r.powers() == unit_powers(d) && r.hint_of() == Some(d)
}

/// The numeric type a classification stands for.
pub open spec fn type_of_class(c: CssCalculationType, r: CssNumericType) -> bool {
    match c {
        CssCalculationType::Number => all_zero(r.powers()) && r.powers().len() == 7 && r.hint_of() is None,
        CssCalculationType::Percentage => r.powers() == unit_powers(CssNumericDimension::Percentage) && r.hint_of() is None,
        CssCalculationType::Length => r.powers() == unit_powers(CssNumericDimension::Length) && r.hint_of() is None,
        CssCalculationType::Angle => r.powers() == unit_powers(CssNumericDimension::Angle) && r.hint_of() is None,
        CssCalculationType::Time => r.powers() == unit_powers(CssNumericDimension::Time) && r.hint_of() is None,
        CssCalculationType::Frequency => r.powers() == unit_powers(CssNumericDimension::Frequency) && r.hint_of() is None,
        CssCalculationType::Resolution => r.powers() == unit_powers(CssNumericDimension::Resolution) && r.hint_of() is None,
        CssCalculationType::Flex => r.powers() == unit_powers(CssNumericDimension::Flex) && r.hint_of() is None,
        CssCalculationType::LengthPercentage => basis_type_ok(r, CssNumericDimension::Length),
        CssCalculationType::AnglePercentage => basis_type_ok(r, CssNumericDimension::Angle),
        CssCalculationType::TimePercentage => basis_type_ok(r, CssNumericDimension::Time),
        CssCalculationType::FrequencyPercentage => basis_type_ok(r, CssNumericDimension::Frequency),
        CssCalculationType::Algebra(t) => r == t,
    }
}

impl CssCalculationType {
    /// Classifies a numeric type.
    pub fn from_numeric(t: CssNumericType) -> (r: Self)
        ensures
            r == classify(t),
    {
        if t.percent_hint().is_none() {
            if t.is_number() {
                return CssCalculationType::Number;
            }
            if t.is(CssNumericDimension::Length) {
                return CssCalculationType::Length;
            }
            if t.is(CssNumericDimension::Angle) {
                return CssCalculationType::Angle;
            }
            if t.is(CssNumericDimension::Time) {
                return CssCalculationType::Time;
            }
            if t.is(CssNumericDimension::Frequency) {
                return CssCalculationType::Frequency;
            }
            if t.is(CssNumericDimension::Resolution) {
                return CssCalculationType::Resolution;
            }
            if t.is(CssNumericDimension::Flex) {
                return CssCalculationType::Flex;
            }
            if t.is(CssNumericDimension::Percentage) {
                return CssCalculationType::Percentage;
            }
        }
        if t.percent_hint() == Some(CssNumericDimension::Length) && t.is(CssNumericDimension::Length) {
            return CssCalculationType::LengthPercentage;
        }
        CssCalculationType::Algebra(t)
    }

    fn with_basis(d: CssNumericDimension) -> (r: CssNumericType)
        requires
            d != CssNumericDimension::Percentage,
        ensures
            basis_type_ok(r, d),
    {
        let base = CssNumericType::dimension(d);
        proof {
            base.lemma_powers_len();
            assert(base.powers()[6] == 0);
        }
        let r = base.hinted(d).unwrap();
        proof {
            assert(base.powers()[d.position()] == 1);
            assert(r.powers() =~= unit_powers(d));
        }
        r
    }

    /// The numeric type the classification stands for.
    pub fn numeric(self) -> (r: CssNumericType)
        ensures
            type_of_class(self, r),
    {
        match self {
            CssCalculationType::Number => CssNumericType::number(),
            CssCalculationType::Percentage => CssNumericType::dimension(CssNumericDimension::Percentage),
            CssCalculationType::Length => CssNumericType::dimension(CssNumericDimension::Length),
            CssCalculationType::Angle => CssNumericType::dimension(CssNumericDimension::Angle),
            CssCalculationType::Time => CssNumericType::dimension(CssNumericDimension::Time),
            CssCalculationType::Frequency => CssNumericType::dimension(CssNumericDimension::Frequency),
            CssCalculationType::Resolution => CssNumericType::dimension(CssNumericDimension::Resolution),
            CssCalculationType::Flex => CssNumericType::dimension(CssNumericDimension::Flex),
            CssCalculationType::LengthPercentage => Self::with_basis(CssNumericDimension::Length),
            CssCalculationType::AnglePercentage => Self::with_basis(CssNumericDimension::Angle),
            CssCalculationType::TimePercentage => Self::with_basis(CssNumericDimension::Time),
            CssCalculationType::FrequencyPercentage => Self::with_basis(CssNumericDimension::Frequency),
            CssCalculationType::Algebra(t) => t,
        }
    }

    /// Returns the exponent of one dimension.
    pub fn exponent(self, d: CssNumericDimension) -> (r: i32)
        ensures
            forall|t: CssNumericType| type_of_class(self, t) ==> r == t.powers()[d.position()],
    {
        let t = self.numeric();
        proof {
            assert forall|u: CssNumericType| type_of_class(self, u) implies t.powers()[d.position()]
                == u.powers()[d.position()] by {
                lemma_class_type_unique(self, t, u);
            }
        }
        t.exponent(d)
    }

    /// Returns the percentage basis retained by type checking.
    pub fn percent_hint(self) -> (r: Option<CssNumericDimension>)
        ensures
            forall|t: CssNumericType| type_of_class(self, t) ==> r == t.hint_of(),
    {
        let t = self.numeric();
        proof {
            assert forall|u: CssNumericType| type_of_class(self, u) implies t.hint_of() == u.hint_of() by {
                lemma_class_type_unique(self, t, u);
            }
        }
        t.percent_hint()
    }
}

/// Exponents of a stored type are in `i32`.
proof fn lemma_product_in_range(a: CssNumericType, x: CssNumericType, b: CssNumericType, divide: bool)
    requires
        a.powers() == product_powers(x.powers(), b.powers(), divide),
    ensures
        forall|i: int| 0 <= i < 7 ==> in_i32(#[trigger] product_powers(x.powers(), b.powers(), divide)[i]),
{
    a.lemma_powers_len();
    assert forall|i: int| 0 <= i < 7 implies in_i32(#[trigger] product_powers(x.powers(), b.powers(), divide)[i]) by {
        assert(a.powers()[i] == product_powers(x.powers(), b.powers(), divide)[i]);
    }
}

/// A classification stands for one numeric type.
pub proof fn lemma_class_type_unique(c: CssCalculationType, a: CssNumericType, b: CssNumericType)
    requires
        type_of_class(c, a),
        type_of_class(c, b),
    ensures
        a == b,
{
    a.lemma_powers_len();
    b.lemma_powers_len();
    a.lemma_equal(b);
    if c is Number {
        assert(a.powers() =~= b.powers());
    }
}

/// Classifying a numeric type and taking the type it stands for gives the type back.
pub proof fn lemma_classify_round_trip(t: CssNumericType)
    ensures
        type_of_class(classify(t), t),
{
    t.lemma_powers_len();
}

/// The type with the given exponents and hint, where they fit.
spec fn type_with_powers(p: Seq<int>, h: Option<CssNumericDimension>) -> CssNumericType {
    CssNumericType {
        length: p[0] as i32,
        angle: p[1] as i32,
        time: p[2] as i32,
        frequency: p[3] as i32,
        resolution: p[4] as i32,
        flex: p[5] as i32,
        percentage: p[6] as i32,
        hint: h,
    }
}

proof fn lemma_type_with_powers(p: Seq<int>, h: Option<CssNumericDimension>)
    requires
        p.len() == 7,
        forall|i: int| 0 <= i < 7 ==> in_i32(#[trigger] p[i]),
    ensures
        type_with_powers(p, h).powers() == p,
        type_with_powers(p, h).hint_of() == h,
{
    assert(in_i32(p[0]) && in_i32(p[1]) && in_i32(p[2]) && in_i32(p[3]) && in_i32(p[4]) && in_i32(p[5]) && in_i32(p[6]));
    assert(type_with_powers(p, h).powers() =~= p);
}

/// The dimensionless type has zero exponents and no hint.
pub proof fn lemma_number_type()
    ensures
        all_zero(number_type().powers()),
        number_type().powers().len() == 7,
        number_type().hint_of() is None,
{
}

/// A type whose percentages have been resolved into its hint: with a hint, the
/// percentage exponent is zero. Checked expressions only produce such types.
pub open spec fn percentages_resolved(t: CssNumericType) -> bool {
    t.hint_of() is Some ==> t.powers()[6] == 0
}

/// Resolving a resolved type into its own hint leaves it unchanged.
proof fn lemma_hinted_own(t: CssNumericType, h: CssNumericDimension)
    requires
        percentages_resolved(t),
        t.hint_of() == Some(h),
    ensures
        hinted_spec(t, h) == Some(t),
{
    t.lemma_powers_len();
    let sum = t.powers()[h.position()] + t.powers()[6];
    assert(t.powers().update(h.position(), sum).update(6, 0) =~= t.powers());
    let r = hinted_spec(t, h)->Some_0;
    t.lemma_equal(r);
}

/// A resolved type carries the basis it was resolved into.
proof fn lemma_hinted_hint(t: CssNumericType, h: CssNumericDimension)
    ensures
        hinted_spec(t, h) matches Some(r) ==> r.hint_of() == Some(h) && r.powers()[6] == 0,
{
    if hinted_spec(t, h) is Some {
        t.lemma_powers_len();
        let sum = t.powers()[h.position()] + t.powers()[6];
        let p = t.powers().update(h.position(), sum).update(6, 0);
        assert forall|i: int| 0 <= i < 7 implies in_i32(#[trigger] p[i]) by {
            if i != 6 && i != h.position() {
                assert(p[i] == t.powers()[i]);
            }
        }
        lemma_type_with_powers(p, Some(h));
    }
}

/// A type with no percentage left: its percentage exponent is zero.
pub open spec fn percent_free(t: CssNumericType) -> bool {
    t.powers()[6] == 0
}

proof fn lemma_add_search_percent_free(x: CssNumericType, y: CssNumericType, d: int)
    ensures
        add_search(x, y, d) matches Some(r) ==> percent_free(r),
    decreases 6 - d,
{
    if 0 <= d < 6 {
        lemma_hinted_hint(x, dimension_at(d));
        lemma_add_search_percent_free(x, y, d + 1);
    }
}

proof fn lemma_consistent_percent_free(a: CssNumericType, b: CssNumericType)
    requires
        percent_free(a),
        percent_free(b),
    ensures
        consistent_spec(a, b) matches Some((x, y)) ==> percent_free(x) && percent_free(y),
{
    if let Some(h) = a.hint_of() {
        lemma_hinted_hint(b, h);
    }
    if let Some(h) = b.hint_of() {
        lemma_hinted_hint(a, h);
    }
}

/// Sums and products of types without a percentage exponent have none.
pub proof fn lemma_arithmetic_percent_free(a: CssNumericType, b: CssNumericType, divide: bool)
    requires
        percent_free(a),
        percent_free(b),
    ensures
        add_spec(a, b) matches Some(r) ==> percent_free(r),
        product_spec(a, b, divide) matches Some(r) ==> percent_free(r),
{
    lemma_consistent_percent_free(a, b);
    if let Some((x, y)) = consistent_spec(a, b) {
        lemma_add_search_percent_free(x, y, 0);
        let pp = product_powers(x.powers(), y.powers(), divide);
        if forall|i: int| 0 <= i < 7 ==> in_i32(#[trigger] pp[i]) {
            lemma_type_with_powers(pp, x.hint_of());
            assert(pp[6] == 0);
        }
    }
}

/// A bare dimension has the unit exponents and no basis; a bare percentage takes any
/// basis, leaving no percentage exponent.
pub proof fn lemma_dimension_type_powers(d: CssNumericDimension, h: CssNumericDimension)
    ensures
        dimension_type(d).powers() == unit_powers(d),
        dimension_type(d).hint_of() is None,
        hinted_spec(dimension_type(CssNumericDimension::Percentage), h) is Some,
        hinted_spec(dimension_type(CssNumericDimension::Percentage), h) matches Some(r) ==> percent_free(r),
{
    assert(dimension_type(d).powers() =~= unit_powers(d));
    let p = dimension_type(CssNumericDimension::Percentage);
    assert(p.powers() =~= unit_powers(CssNumericDimension::Percentage));
    lemma_hinted_hint(p, h);
}

/// A basis replaces only the hint: the exponents stay.
pub proof fn lemma_with_hint(t: CssNumericType, h: Option<CssNumericDimension>)
    ensures
        t.with_hint_spec(h).powers() == t.powers(),
        t.with_hint_spec(h).hint_of() == h,
{
}

/// The plain number and angle types, under any basis, have no percentage exponent.
pub proof fn lemma_percent_free_number_types(h: Option<CssNumericDimension>)
    ensures
        percent_free(number_type().with_hint_spec(h)),
        percent_free(dimension_type(CssNumericDimension::Angle).with_hint_spec(h)),
        percent_free(number_type()),
{
}

/// Two types with equal exponents and hints are the same type.
proof fn lemma_same_type(a: CssNumericType, b: CssNumericType)
    requires
        a.powers() == b.powers(),
        a.hint_of() == b.hint_of(),
    ensures
        a == b,
{
    a.lemma_equal(b);
}

/// The search for a common basis does not depend on the order of the operands.
proof fn lemma_add_search_symmetric(x: CssNumericType, y: CssNumericType, d: int)
    ensures
        add_search(x, y, d) == add_search(y, x, d),
    decreases 6 - d,
{
    if 0 <= d < 6 {
        match (hinted_spec(x, dimension_at(d)), hinted_spec(y, dimension_at(d))) {
            (Some(u), Some(v)) => {
                lemma_hinted_hint(x, dimension_at(d));
                lemma_hinted_hint(y, dimension_at(d));
                if u.powers() == v.powers() {
                    lemma_same_type(u, v);
                } else {
                    lemma_add_search_symmetric(x, y, d + 1);
                }
            },
            _ => {},
        }
    }
}

/// Adding a resolved type to itself gives the same type.
pub proof fn lemma_add_idempotent(t: CssNumericType)
    requires
        percentages_resolved(t),
    ensures
        add_spec(t, t) == Some(t),
{
    if let Some(h) = t.hint_of() {
        lemma_hinted_own(t, h);
    }
}

/// Addition of resolved types is commutative: either order gives the same type, or
/// both are refused.
pub proof fn lemma_add_commutative(a: CssNumericType, b: CssNumericType)
    requires
        percentages_resolved(a),
        percentages_resolved(b),
    ensures
        add_spec(a, b) == add_spec(b, a),
{
    match (a.hint_of(), b.hint_of()) {
        (Some(x), Some(y)) => {
            if x == y {
                lemma_hinted_own(a, x);
                lemma_hinted_own(b, x);
                if a.powers() == b.powers() {
                    lemma_same_type(a, b);
                }
            }
        },
        (Some(h), None) => {
            lemma_hinted_hint(b, h);
            if let Some(v) = hinted_spec(b, h) {
                if a.powers() == v.powers() {
                    lemma_same_type(a, v);
                }
            }
        },
        (None, Some(h)) => {
            lemma_hinted_hint(a, h);
            if let Some(u) = hinted_spec(a, h) {
                if u.powers() == b.powers() {
                    lemma_same_type(u, b);
                }
            }
        },
        (None, None) => {
            if a.powers() == b.powers() {
                lemma_same_type(a, b);
            } else {
                lemma_add_search_symmetric(a, b, 0);
            }
        },
    }
}

/// Dividing a product by the same operand gives the first operand back, for types
/// without a percentage hint.
pub proof fn lemma_quotient_undoes_product(a: CssNumericType, b: CssNumericType)
    requires
        a.hint_of() is None,
        b.hint_of() is None,
        product_spec(a, b, false) is Some,
    ensures
        product_spec(product_spec(a, b, false)->Some_0, b, true) == Some(a),
{
    let pp = product_powers(a.powers(), b.powers(), false);
    let w = type_with_powers(pp, None);
    lemma_type_with_powers(pp, None);
    assert(w.powers() == pp && w.hint_of() == a.hint_of());
    let p = product_spec(a, b, false)->Some_0;
    a.lemma_powers_len();
    b.lemma_powers_len();
    p.lemma_powers_len();
    assert(p.powers() == product_powers(a.powers(), b.powers(), false));
    assert(product_powers(p.powers(), b.powers(), true) =~= a.powers());
    assert forall|i: int| 0 <= i < 7 implies in_i32(#[trigger] product_powers(p.powers(), b.powers(), true)[i]) by {
        assert(product_powers(p.powers(), b.powers(), true)[i] == a.powers()[i]);
    }
    let qq = product_powers(p.powers(), b.powers(), true);
    let w2 = type_with_powers(qq, None);
    lemma_type_with_powers(qq, None);
    assert(w2.powers() == qq && w2.hint_of() == p.hint_of());
    let q = product_spec(p, b, true)->Some_0;
    a.lemma_equal(q);
}

} // verus!

