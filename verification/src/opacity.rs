//! Exact ordinary opacity scalars: one authored number or percentage token, kept
//! lexically so that no floating-point range or rounding applies.

use crate::calculation::{is_integer_text, representation_of, CssNumericTokenKind, CssNumericTokenRef};
use crate::binary::{binary32_exponent, binary32_scaled, binary32_sign, decimal_exponent_of, serialize_binary32, significand_digits};
use crate::components::{CssComponentValue, CssComponentValueError, CssComponentValueErrorKind, CssValueOrigin};
use crate::exact::{is_numeric_syntax, numeric_syntax};
use crate::serialization::{
    format_outcome, string_outcome, CssSpecifiedValueSerializationError,
    CssSpecifiedValueSerializationErrorKind, CssSpecifiedValueSerializationLimits, SerializationResult,
};
use crate::specified::{format_lexical, lexical_outcome};
use vstd::prelude::*;
use vstd::string::StringSliceAdditionalSpecFns;

verus! {

/// The authored numeric token kind of an exact ordinary opacity scalar.
#[derive(Clone, Copy, Debug, PartialEq, Eq, Structural)]
pub enum CssOpacityScalarKind {
    Number,
    Percentage,
}

/// One exact finite decimal number or percentage token for authored opacity.
#[derive(Debug)]
pub struct CssOpacityScalar {
    component: CssComponentValue,
}

/// Whether a token can be an opacity scalar.
pub open spec fn scalar_token(c: CssComponentValue) -> bool {
    c is Number || c is Percentage
}

impl CssOpacityScalar {
    #[verifier::type_invariant]
    spec fn is_scalar(self) -> bool {
        scalar_token(self.component)
    }

    /// The authored token.
    pub closed spec fn token(&self) -> CssComponentValue {
        self.component
    }

    /// Checks the token kind without rounding or imposing a floating-point range.
    pub fn try_from_component(component: CssComponentValue) -> (r: Result<Self, CssComponentValueError>)
        ensures
            r is Ok <==> scalar_token(component),
            r matches Ok(s) ==> s.token() == component,
            r matches Err(e) ==> e == (CssComponentValueError {
                kind: CssComponentValueErrorKind::InvalidToken,
                origin: component.origin_of(),
            }),
    {
        if matches!(component, CssComponentValue::Number { .. } | CssComponentValue::Percentage { .. }) {
            Ok(Self { component })
        } else {
            let origin = *component.origin();
            Err(CssComponentValueError::new(CssComponentValueErrorKind::InvalidToken, origin))
        }
    }

    /// Whether the authored scalar has a percentage suffix.
    pub fn kind(&self) -> (r: CssOpacityScalarKind)
        ensures
            r == if self.token() is Percentage {
                CssOpacityScalarKind::Percentage
            } else {
                CssOpacityScalarKind::Number
            },
    {
        match &self.component {
            CssComponentValue::Percentage { .. } => CssOpacityScalarKind::Percentage,
            _ => CssOpacityScalarKind::Number,
        }
    }

    /// The complete numeric spelling, excluding a percentage suffix.
    pub fn numeric(&self) -> (r: CssNumericTokenRef<'_>)
        ensures
            r.text() == representation_of(self.token()),
            r.kind_of() == if self.token() is Number && is_integer_text(representation_of(self.token())) {
                CssNumericTokenKind::Integer
            } else {
                CssNumericTokenKind::Number
            },
    {
        CssNumericTokenRef::of_token(&self.component)
    }

    /// The authored checked component, with its provenance.
    pub fn component(&self) -> (r: &CssComponentValue)
        ensures
            *r == self.token(),
    {
        &self.component
    }

    /// The token's origin.
    pub fn origin(&self) -> (r: &CssValueOrigin)
        ensures
            *r == self.token().origin_of(),
    {
        self.component.origin()
    }
}

/// An ordinary opacity scalar as it is serialized: a binary32 value, by its bits,
/// written as a number or as a percentage; or an exact authored scalar.
#[derive(Clone, Copy, Debug)]
pub enum CssOpacityScalarForm<'a> {
    Binary32 { bits: u32, percentage: bool },
    Exact(&'a CssOpacityScalar),
}

/// The serialization of an ordinary opacity scalar: input and projection limits of
/// zero fail first; a binary32 value is written exactly, a percentage scaled to a
/// fraction; an exact scalar is written from its authored spelling, and a spelling
/// that is not CSS numeric syntax is refused as too large to measure.
pub open spec fn opacity_scalar_outcome(
    form: CssOpacityScalarForm<'_>,
    limits: CssSpecifiedValueSerializationLimits,
) -> Result<Seq<u8>, CssSpecifiedValueSerializationErrorKind> {
    if limits.spec_max_input_nodes() == 0 {
        Err(CssSpecifiedValueSerializationErrorKind::InputNodeLimit)
    } else if limits.spec_max_projection_nodes() == 0 {
        Err(CssSpecifiedValueSerializationErrorKind::ProjectionNodeLimit)
    } else {
        match form {
            CssOpacityScalarForm::Binary32 { bits, percentage } => format_outcome(
                significand_digits(binary32_scaled(bits)),
                decimal_exponent_of(binary32_scaled(bits), binary32_exponent(bits)) - if percentage {
                    2int
                } else {
                    0int
                },
                binary32_sign(bits) && binary32_scaled(bits) != 0,
                limits.spec_max_css_bytes() as int,
            ),
            CssOpacityScalarForm::Exact(s) => {
                let t = vstd::utf8::encode_utf8(representation_of(s.token()));
                if !numeric_syntax(t) {
                    Err(CssSpecifiedValueSerializationErrorKind::CapacityOverflow)
                } else {
                    lexical_outcome(t, s.token() is Percentage, limits.spec_max_css_bytes() as int)
                }
            },
        }
    }
}

/// Serializes an ordinary opacity scalar under the limits, without computed-value
/// clamping.
pub fn serialize_opacity_scalar(form: CssOpacityScalarForm<'_>, limits: CssSpecifiedValueSerializationLimits) -> (r:
    SerializationResult<String>)
    ensures
        string_outcome(r, opacity_scalar_outcome(form, limits)),
{
    if limits.max_input_nodes() == 0 {
        return Err(CssSpecifiedValueSerializationError::new(CssSpecifiedValueSerializationErrorKind::InputNodeLimit));
    }
    if limits.max_projection_nodes() == 0 {
        return Err(CssSpecifiedValueSerializationError::new(CssSpecifiedValueSerializationErrorKind::ProjectionNodeLimit));
    }
    match form {
        CssOpacityScalarForm::Binary32 { bits, percentage } => serialize_binary32(bits, percentage, limits.max_css_bytes()),
        CssOpacityScalarForm::Exact(scalar) => {
            let text = scalar.numeric().representation();
            if !is_numeric_syntax(text) {
                return Err(CssSpecifiedValueSerializationError::new(
                    CssSpecifiedValueSerializationErrorKind::CapacityOverflow,
                ));
            }
            let percentage = match scalar.kind() {
                CssOpacityScalarKind::Percentage => true,
                CssOpacityScalarKind::Number => false,
            };
            format_lexical(text, percentage, limits.max_css_bytes())
        },
    }
}

} // verus!
