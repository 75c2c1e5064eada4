//! Bounded, context-independent specified-value text.

use vstd::prelude::*;
use vstd::string::StringSliceAdditionalSpecFns;

verus! {

/// Resource policy for specified-value projection and serialization.
#[derive(Clone, Copy, Debug, PartialEq, Eq)]
pub struct CssSpecifiedValueSerializationLimits {
    max_input_nodes: usize,
    max_projection_nodes: usize,
    max_css_bytes: usize,
}

impl CssSpecifiedValueSerializationLimits {
    pub closed spec fn spec_max_input_nodes(self) -> usize {
        self.max_input_nodes
    }

    pub closed spec fn spec_max_projection_nodes(self) -> usize {
        self.max_projection_nodes
    }

    pub closed spec fn spec_max_css_bytes(self) -> usize {
        self.max_css_bytes
    }

    /// Sets independent limits. Zero is a valid limit.
    pub fn new(max_input_nodes: usize, max_projection_nodes: usize, max_css_bytes: usize) -> (r:
        Self)
        ensures
            r.spec_max_input_nodes() == max_input_nodes,
            r.spec_max_projection_nodes() == max_projection_nodes,
            r.spec_max_css_bytes() == max_css_bytes,
    {
        Self { max_input_nodes, max_projection_nodes, max_css_bytes }
    }

    pub fn max_input_nodes(self) -> (r: usize)
        ensures
            r == self.spec_max_input_nodes(),
    {
        self.max_input_nodes
    }

    pub fn max_projection_nodes(self) -> (r: usize)
        ensures
            r == self.spec_max_projection_nodes(),
    {
        self.max_projection_nodes
    }

    pub fn max_css_bytes(self) -> (r: usize)
        ensures
            r == self.spec_max_css_bytes(),
    {
        self.max_css_bytes
    }
}

impl Default for CssSpecifiedValueSerializationLimits {
    fn default() -> (r: Self)
        ensures
            r.spec_max_input_nodes() == 65_536,
            r.spec_max_projection_nodes() == 262_144,
            r.spec_max_css_bytes() == 1_048_576,
    {
        Self::new(65_536, 262_144, 1_048_576)
    }
}


/// The exhausted resource or unrepresentable capacity calculation.
#[derive(Clone, Copy, Debug, PartialEq, Eq)]
pub enum CssSpecifiedValueSerializationErrorKind {
    InputNodeLimit,
    ProjectionNodeLimit,
    ByteLimit,
    CapacityOverflow,
}

/// Atomic failure: no partial CSS is returned and the authored input is unchanged.
#[derive(Clone, Debug, PartialEq, Eq)]
pub struct CssSpecifiedValueSerializationError {
    pub kind: CssSpecifiedValueSerializationErrorKind,
}

impl CssSpecifiedValueSerializationError {
    pub fn new(kind: CssSpecifiedValueSerializationErrorKind) -> (r: Self)
        ensures
            r.kind == kind,
    {
        Self { kind }
    }

    pub fn kind(&self) -> (r: CssSpecifiedValueSerializationErrorKind)
        ensures
            r == self.kind,
    {
        self.kind
    }
}

pub type SerializationResult<T> = Result<T, CssSpecifiedValueSerializationError>;

/// Cumulative resource accounting shared by one projection and its output.
pub struct SpecifiedSerializationContext {
    pub limits: CssSpecifiedValueSerializationLimits,
    pub input_nodes: usize,
    pub projection_nodes: usize,
    pub bytes: usize,
}

/// What a charge of `amount` against a counter `used` bounded by `limit` yields:
/// the new total, or the error kind reported.
pub open spec fn charge_outcome(
    used: int,
    amount: int,
    limit: int,
    limit_kind: CssSpecifiedValueSerializationErrorKind,
) -> Result<int, CssSpecifiedValueSerializationErrorKind> {
    if used + amount > usize::MAX {
        Err(CssSpecifiedValueSerializationErrorKind::CapacityOverflow)
    } else if used + amount > limit {
        Err(limit_kind)
    } else {
        Ok(used + amount)
    }
}

impl SpecifiedSerializationContext {
    /// Every counter is within its limit.
    pub open spec fn wf(&self) -> bool {
        &&& self.input_nodes <= self.limits.spec_max_input_nodes()
        &&& self.projection_nodes <= self.limits.spec_max_projection_nodes()
        &&& self.bytes <= self.limits.spec_max_css_bytes()
    }

    pub fn new(limits: CssSpecifiedValueSerializationLimits) -> (r: Self)
        ensures
            r.limits == limits,
            r.input_nodes == 0,
            r.projection_nodes == 0,
            r.bytes == 0,
            r.wf(),
    {
        Self { limits, input_nodes: 0, projection_nodes: 0, bytes: 0 }
    }

    /// Charges derived projection storage; a failed charge leaves the counter unchanged.
    pub fn charge_projection(&mut self, amount: usize) -> (r: SerializationResult<()>)
        ensures
            final(self).limits == old(self).limits,
            final(self).input_nodes == old(self).input_nodes,
            final(self).bytes == old(self).bytes,
            match charge_outcome(
                old(self).projection_nodes as int,
                amount as int,
                old(self).limits.spec_max_projection_nodes() as int,
                CssSpecifiedValueSerializationErrorKind::ProjectionNodeLimit,
            ) {
                Ok(total) => r is Ok && final(self).projection_nodes == total,
                Err(kind) => r == Err::<(), _>(CssSpecifiedValueSerializationError { kind })
                    && final(self).projection_nodes == old(self).projection_nodes,
            },
    {
        match self.projection_nodes.checked_add(amount) {
            None => Err(CssSpecifiedValueSerializationError::new(
                CssSpecifiedValueSerializationErrorKind::CapacityOverflow,
            )),
            Some(total) => {
                if total > self.limits.max_projection_nodes() {
                    Err(CssSpecifiedValueSerializationError::new(
                        CssSpecifiedValueSerializationErrorKind::ProjectionNodeLimit,
                    ))
                } else {
                    self.projection_nodes = total;
                    Ok(())
                }
            },
        }
    }

    /// Charges visited input nodes; a failed charge leaves the counter unchanged.
    pub fn charge_input(&mut self, amount: usize) -> (r: SerializationResult<()>)
        ensures
            final(self).limits == old(self).limits,
            final(self).projection_nodes == old(self).projection_nodes,
            final(self).bytes == old(self).bytes,
            match charge_outcome(
                old(self).input_nodes as int,
                amount as int,
                old(self).limits.spec_max_input_nodes() as int,
                CssSpecifiedValueSerializationErrorKind::InputNodeLimit,
            ) {
                Ok(total) => r is Ok && final(self).input_nodes == total,
                Err(kind) => r == Err::<(), _>(CssSpecifiedValueSerializationError { kind })
                    && final(self).input_nodes == old(self).input_nodes,
            },
    {
        match self.input_nodes.checked_add(amount) {
            None => Err(CssSpecifiedValueSerializationError::new(
                CssSpecifiedValueSerializationErrorKind::CapacityOverflow,
            )),
            Some(total) => {
                if total > self.limits.max_input_nodes() {
                    Err(CssSpecifiedValueSerializationError::new(
                        CssSpecifiedValueSerializationErrorKind::InputNodeLimit,
                    ))
                } else {
                    self.input_nodes = total;
                    Ok(())
                }
            },
        }
    }

    /// Bytes that may still be appended to the shared output.
    pub fn remaining_bytes(&self) -> (r: usize)
        ensures
            r == if self.bytes <= self.limits.spec_max_css_bytes() {
                self.limits.spec_max_css_bytes() - self.bytes
            } else {
                0
            },
    {
        let max = self.limits.max_css_bytes();
        if self.bytes <= max {
            max - self.bytes
        } else {
            0
        }
    }

    /// Appends complete text to the shared output, or nothing when the byte budget is exceeded.
    pub fn append(&mut self, output: &mut String, text: &str) -> (r: SerializationResult<()>)
        ensures
            final(self).limits == old(self).limits,
            final(self).input_nodes == old(self).input_nodes,
            final(self).projection_nodes == old(self).projection_nodes,
            match charge_outcome(
                old(self).bytes as int,
                text.len() as int,
                old(self).limits.spec_max_css_bytes() as int,
                CssSpecifiedValueSerializationErrorKind::ByteLimit,
            ) {
                Ok(total) => r is Ok && final(self).bytes == total && final(output)@ == old(
                    output,
                )@ + text@,
                Err(kind) => r == Err::<(), _>(CssSpecifiedValueSerializationError { kind })
                    && final(self).bytes == old(self).bytes && final(output)@ == old(output)@,
            },
    {
        let amount = text.len();
        match self.bytes.checked_add(amount) {
            None => Err(CssSpecifiedValueSerializationError::new(
                CssSpecifiedValueSerializationErrorKind::CapacityOverflow,
            )),
            Some(total) => {
                if total > self.limits.max_css_bytes() {
                    Err(CssSpecifiedValueSerializationError::new(
                        CssSpecifiedValueSerializationErrorKind::ByteLimit,
                    ))
                } else {
                    self.bytes = total;
                    output.append(text);
                    Ok(())
                }
            },
        }
    }
}


/// Bytes read as characters one for one (ASCII text).
pub open spec fn ascii_chars(bytes: Seq<u8>) -> Seq<char> {
    bytes.map_values(|b: u8| b as char)
}

pub open spec fn all_ascii(bytes: Seq<u8>) -> bool {
    forall|i: int| 0 <= i < bytes.len() ==> #[trigger] bytes[i] < 128
}

/// `String::from_utf8`: ASCII bytes are valid UTF-8 and decode one character per byte.
#[verifier::external_body]
pub(crate) fn ascii_text(bytes: Vec<u8>) -> (text: String)
    requires
        all_ascii(bytes@),
    ensures
        text@ == ascii_chars(bytes@),
{
    String::from_utf8(bytes).unwrap()
}

/// ASCII spelling of decimal digit values.
pub open spec fn digit_text(digits: Seq<u8>) -> Seq<u8> {
    digits.map_values(|d: u8| (d + 48) as u8)
}

pub open spec fn zero_text(n: nat) -> Seq<u8> {
    Seq::new(n, |i: int| 48u8)
}

pub open spec fn is_digit_values(digits: Seq<u8>) -> bool {
    forall|i: int| 0 <= i < digits.len() ==> #[trigger] digits[i] < 10
}

/// Fixed (never exponential) notation of `digits * 10^exponent`, negated when requested;
/// an empty digit sequence is zero and is spelled without a sign.
pub open spec fn fixed_notation(digits: Seq<u8>, exponent: int, negative: bool) -> Seq<u8> {
    if digits.len() == 0 {
        seq![48u8]
    } else {
        let point = digits.len() + exponent;
        let body = if point <= 0 {
            seq![48u8, 46u8] + zero_text((-point) as nat) + digit_text(digits)
        } else if point < digits.len() {
            digit_text(digits.take(point)) + seq![46u8] + digit_text(digits.skip(point))
        } else {
            digit_text(digits) + zero_text((point - digits.len()) as nat)
        };
        if negative {
            seq![45u8] + body
        } else {
            body
        }
    }
}

/// The outcome of formatting: the text, or the error kind.
pub open spec fn format_outcome(digits: Seq<u8>, exponent: int, negative: bool, limit: int) -> Result<
    Seq<u8>,
    CssSpecifiedValueSerializationErrorKind,
> {
    let text = fixed_notation(digits, exponent, negative);
    if text.len() > limit {
        Err(CssSpecifiedValueSerializationErrorKind::ByteLimit)
    } else if text.len() > isize::MAX {
        Err(CssSpecifiedValueSerializationErrorKind::CapacityOverflow)
    } else {
        Ok(text)
    }
}

pub open spec fn string_outcome(
    r: SerializationResult<String>,
    expected: Result<Seq<u8>, CssSpecifiedValueSerializationErrorKind>,
) -> bool {
    match expected {
        Ok(text) => r is Ok && r->Ok_0@ == ascii_chars(text),
        Err(kind) => r is Err && r->Err_0.kind == kind,
    }
}

/// Fixed notation writes every digit, and at least one character.
pub proof fn lemma_fixed_notation_len(digits: Seq<u8>, exponent: int, negative: bool)
    ensures
        fixed_notation(digits, exponent, negative).len() >= digits.len(),
        fixed_notation(digits, exponent, negative).len() >= 1,
{
}

proof fn lemma_fixed_notation_ascii(digits: Seq<u8>, exponent: int, negative: bool)
    requires
        is_digit_values(digits),
    ensures
        all_ascii(fixed_notation(digits, exponent, negative)),
{
    let text = fixed_notation(digits, exponent, negative);
    assert forall|i: int| 0 <= i < text.len() implies #[trigger] text[i] < 128 by {
        if digits.len() != 0 {
            let point = digits.len() + exponent;
            if point > 0 && point < digits.len() {
                assert(digit_text(digits.take(point)) =~= digit_text(digits).take(point));
                assert(digit_text(digits.skip(point)) =~= digit_text(digits).skip(point));
            }
        }
    }
}

/// Writes `digits * 10^exponent` in fixed notation within `limit` bytes.
pub fn format_digits(digits: &Vec<u8>, exponent: i128, negative: bool, limit: usize) -> (r:
    SerializationResult<String>)
    requires
        is_digit_values(digits@),
    ensures
        string_outcome(r, format_outcome(digits@, exponent as int, negative, limit as int)),
{
    let len = digits.len();
    if len == 0 {
        if limit == 0 {
            return Err(CssSpecifiedValueSerializationError::new(
                CssSpecifiedValueSerializationErrorKind::ByteLimit,
            ));
        }
        let mut out: Vec<u8> = Vec::new();
        out.push(48u8);
        proof {
            assert(out@ =~= fixed_notation(digits@, exponent as int, negative));
        }
        return Ok(ascii_text(out));
    }
    let ghost expected = fixed_notation(digits@, exponent as int, negative);
    let len_i: i128 = len as i128;
    let point: i128 = match len_i.checked_add(exponent) {
        Some(p) => p,
        None => {
            return Err(CssSpecifiedValueSerializationError::new(
                CssSpecifiedValueSerializationErrorKind::ByteLimit,
            ));
        },
    };
    let base: Option<i128> = if point <= 0 {
        match len_i.checked_add(2) {
            Some(n) => n.checked_sub(point),
            None => None,
        }
    } else {
        let widest: i128 = if point > len_i {
            point
        } else {
            len_i
        };
        let dot: i128 = if point < len_i {
            1
        } else {
            0
        };
        widest.checked_add(dot)
    };
    let sign: i128 = if negative {
        1
    } else {
        0
    };
    let length: i128 = match base {
        Some(n) => match n.checked_add(sign) {
            Some(m) => m,
            None => {
                return Err(CssSpecifiedValueSerializationError::new(
                    CssSpecifiedValueSerializationErrorKind::ByteLimit,
                ));
            },
        },
        None => {
            return Err(CssSpecifiedValueSerializationError::new(
                CssSpecifiedValueSerializationErrorKind::ByteLimit,
            ));
        },
    };
    assert(length == expected.len());
    if length > limit as i128 {
        return Err(CssSpecifiedValueSerializationError::new(
            CssSpecifiedValueSerializationErrorKind::ByteLimit,
        ));
    }
    if length > isize::MAX as i128 {
        return Err(CssSpecifiedValueSerializationError::new(
            CssSpecifiedValueSerializationErrorKind::CapacityOverflow,
        ));
    }
    let mut out: Vec<u8> = Vec::new();
    if negative {
        out.push(45u8);
    }
    let ghost prefix = out@;
    if point <= 0 {
        out.push(48u8);
        out.push(46u8);
        let zeros: usize = (0 - point) as usize;
        let mut k: usize = 0;
        while k < zeros
            invariant
                k <= zeros,
                zeros == -point,
                out@ =~= prefix + seq![48u8, 46u8] + zero_text(k as nat),
            decreases zeros - k,
        {
            out.push(48u8);
            k = k + 1;
            proof {
                assert(zero_text(k as nat) =~= zero_text((k - 1) as nat).push(48u8));
            }
        }
        let ghost lead = out@;
        let mut i: usize = 0;
        while i < len
            invariant
                i <= len,
                len == digits@.len(),
                is_digit_values(digits@),
                out@ =~= lead + digit_text(digits@.take(i as int)),
            decreases len - i,
        {
            out.push(digits[i] + 48);
            i = i + 1;
            proof {
                assert(digit_text(digits@.take(i as int)) =~= digit_text(
                    digits@.take((i - 1) as int),
                ).push((digits@[i - 1] + 48) as u8));
            }
        }
        proof {
            assert(digits@.take(len as int) =~= digits@);
        }
    } else if point < len_i {
        let p: usize = point as usize;
        let mut i: usize = 0;
        while i < p
            invariant
                i <= p,
                p < len,
                len == digits@.len(),
                is_digit_values(digits@),
                out@ =~= prefix + digit_text(digits@.take(i as int)),
            decreases p - i,
        {
            out.push(digits[i] + 48);
            i = i + 1;
            proof {
                assert(digit_text(digits@.take(i as int)) =~= digit_text(
                    digits@.take((i - 1) as int),
                ).push((digits@[i - 1] + 48) as u8));
            }
        }
        out.push(46u8);
        let ghost lead = out@;
        while i < len
            invariant
                p <= i <= len,
                len == digits@.len(),
                is_digit_values(digits@),
                out@ =~= lead + digit_text(digits@.subrange(p as int, i as int)),
            decreases len - i,
        {
            out.push(digits[i] + 48);
            i = i + 1;
            proof {
                assert(digit_text(digits@.subrange(p as int, i as int)) =~= digit_text(
                    digits@.subrange(p as int, (i - 1) as int),
                ).push((digits@[i - 1] + 48) as u8));
            }
        }
        proof {
            assert(digits@.subrange(p as int, len as int) =~= digits@.skip(p as int));
        }
    } else {
        let mut i: usize = 0;
        while i < len
            invariant
                i <= len,
                len == digits@.len(),
                is_digit_values(digits@),
                out@ =~= prefix + digit_text(digits@.take(i as int)),
            decreases len - i,
        {
            out.push(digits[i] + 48);
            i = i + 1;
            proof {
                assert(digit_text(digits@.take(i as int)) =~= digit_text(
                    digits@.take((i - 1) as int),
                ).push((digits@[i - 1] + 48) as u8));
            }
        }
        proof {
            assert(digits@.take(len as int) =~= digits@);
        }
        let ghost lead = out@;
        let zeros: usize = (point - len_i) as usize;
        let mut k: usize = 0;
        while k < zeros
            invariant
                k <= zeros,
                out@ =~= lead + zero_text(k as nat),
            decreases zeros - k,
        {
            out.push(48u8);
            k = k + 1;
            proof {
                assert(zero_text(k as nat) =~= zero_text((k - 1) as nat).push(48u8));
            }
        }
    }
    proof {
        assert(out@ =~= expected);
        lemma_fixed_notation_ascii(digits@, exponent as int, negative);
    }
    Ok(ascii_text(out))
}

} // verus!
