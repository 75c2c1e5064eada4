//! Specified-value text of keywords and of exact authored decimal tokens.

use crate::exact::{
    digit_values_of, has_significant, lemma_digit_values_append, lemma_digit_values_point,
    lexical_exponent, numeric_syntax, significant_digits, LexicalDecimal,
};
use crate::serialization::{
    format_digits, format_outcome, is_digit_values, string_outcome,
    CssSpecifiedValueSerializationError, CssSpecifiedValueSerializationErrorKind,
    CssSpecifiedValueSerializationLimits, SerializationResult,
};
use vstd::prelude::*;
use vstd::string::StringSliceAdditionalSpecFns;

verus! {

/// The outcome of serializing a keyword sequence: input and projection limits of zero
/// fail first, then a text longer than the byte limit.
pub open spec fn keyword_outcome(text: Seq<u8>, limits: CssSpecifiedValueSerializationLimits) -> Result<
    (),
    CssSpecifiedValueSerializationErrorKind,
> {
    if limits.spec_max_input_nodes() == 0 {
        Err(CssSpecifiedValueSerializationErrorKind::InputNodeLimit)
    } else if limits.spec_max_projection_nodes() == 0 {
        Err(CssSpecifiedValueSerializationErrorKind::ProjectionNodeLimit)
    } else if text.len() > limits.spec_max_css_bytes() {
        Err(CssSpecifiedValueSerializationErrorKind::ByteLimit)
    } else {
        Ok(())
    }
}

/// Serializes an already canonical keyword sequence under the limits.
pub fn serialize_keyword_sequence(text: &str, limits: CssSpecifiedValueSerializationLimits) -> (r:
    SerializationResult<String>)
    ensures
        match keyword_outcome(text.spec_bytes(), limits) {
            Ok(()) => r is Ok && r->Ok_0@ == text@,
            Err(kind) => r is Err && r->Err_0.kind == kind,
        },
{
    if limits.max_input_nodes() == 0 {
        return Err(CssSpecifiedValueSerializationError::new(CssSpecifiedValueSerializationErrorKind::InputNodeLimit));
    }
    if limits.max_projection_nodes() == 0 {
        return Err(CssSpecifiedValueSerializationError::new(CssSpecifiedValueSerializationErrorKind::ProjectionNodeLimit));
    }
    if text.as_bytes().len() > limits.max_css_bytes() {
        return Err(CssSpecifiedValueSerializationError::new(CssSpecifiedValueSerializationErrorKind::ByteLimit));
    }
    Ok(text.to_owned())
}

/// The fixed-notation text of an authored decimal token, a percentage token scaled to a
/// fraction; a decimal exponent outside `i128` is rejected as too long.
pub open spec fn lexical_outcome(t: Seq<u8>, percentage: bool, limit: int) -> Result<
    Seq<u8>,
    CssSpecifiedValueSerializationErrorKind,
> {
    if !has_significant(t) {
        format_outcome(Seq::empty(), 0, false, limit)
    } else {
        match lexical_exponent(t) {
            None => Err(CssSpecifiedValueSerializationErrorKind::ByteLimit),
            Some(e) => {
                let shifted = e - if percentage {
                    2int
                } else {
                    0int
                };
                if shifted < i128::MIN {
                    Err(CssSpecifiedValueSerializationErrorKind::ByteLimit)
                } else {
                    format_outcome(significant_digits(t), shifted, t[0] == 45, limit)
                }
            },
        }
    }
}

/// The significant digit values of a lexical decimal.
pub fn significant_digit_values(lexical: &LexicalDecimal) -> (r: Vec<u8>)
    requires
        lexical.wf(),
    ensures
        r@ == lexical.digits(),
        is_digit_values(r@),
{
    let mut out: Vec<u8> = Vec::new();
    let mut k = lexical.significant_start;
    let ghost t = lexical.text@;
    let ghost s = lexical.significant_start as int;
    proof {
        assert(t.subrange(s, s) =~= Seq::<u8>::empty());
    }
    while k < lexical.significant_end
        invariant
            lexical.wf(),
            t == lexical.text@,
            s == lexical.significant_start,
            s <= k <= lexical.significant_end,
            out@ == digit_values_of(t.subrange(s, k as int)),
            is_digit_values(out@),
        decreases lexical.significant_end - k,
    {
        let b = lexical.text[k];
        if b == 46u8 {
            proof {
                lemma_digit_values_point(t, s, k as int);
            }
        } else {
            proof {
                lemma_digit_values_append(t, s, k as int);
            }
            out.push(b - 48);
        }
        k = k + 1;
    }
    out
}

/// Formats an authored decimal token without binary rounding, a percentage as the
/// fraction it stands for.
pub fn format_lexical(text: &str, percentage: bool, limit: usize) -> (r: SerializationResult<String>)
    requires
        numeric_syntax(text.spec_bytes()),
    ensures
        string_outcome(r, lexical_outcome(text.spec_bytes(), percentage, limit as int)),
{
    let lexical = LexicalDecimal::new(text.as_bytes());
    if lexical.len == 0 {
        let empty: Vec<u8> = Vec::new();
        proof {
            assert(empty@ =~= Seq::<u8>::empty());
        }
        return format_digits(&empty, 0, false, limit);
    }
    let exponent = match lexical.exponent {
        Some(e) => e,
        None => {
            return Err(CssSpecifiedValueSerializationError::new(CssSpecifiedValueSerializationErrorKind::ByteLimit));
        },
    };
    let shift: i128 = if percentage {
        2
    } else {
        0
    };
    let shifted = match exponent.checked_sub(shift) {
        Some(e) => e,
        None => {
            return Err(CssSpecifiedValueSerializationError::new(CssSpecifiedValueSerializationErrorKind::ByteLimit));
        },
    };
    let digits = significant_digit_values(&lexical);
    format_digits(&digits, shifted, lexical.negative, limit)
}

} // verus!
