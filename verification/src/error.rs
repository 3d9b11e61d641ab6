//! Error categories of the calculator core.
//!
//! Every fallible operation reports its outcome to its immediate caller;
//! there is no local recovery inside the core.  Cancellation is a channel
//! of its own ([`IntErr::Interrupted`]) so that a caller can always tell
//! bad input apart from a cancelled computation.

use vstd::prelude::*;

verus! {

/// An ordinary error of the calculator core, distinguishable by category.
///
/// The `message` method gives the descriptive text of each category.
#[derive(Clone, Copy, Debug, PartialEq, Eq, Structural)]
pub enum CalcError {
    /// A digit was out of range for the active base.
    ParseDigit,
    /// The right operand of a division was zero.
    DivisionByZero,
    /// Two units whose canonical base-unit maps differ were combined.
    DimensionMismatch,
    /// `pow` or `root_n` was applied to an operand carrying a unit.
    UnsupportedUnitOperation,
    /// `pow` or `root_n` was asked for something outside the exactness
    /// model: a non-integer or complex exponent, a complex radicand, a
    /// non-positive root index, or an even root of a negative number.
    UnsupportedOperation,
    /// A result no longer fits within the internal numeric limits.
    NumericLimitExceeded,
    /// More input was expected.
    EndOfInput,
    /// A character that no token can start with.
    UnexpectedChar,
    /// A base prefix other than `0x`, `0d`, `0o` or `0b`.
    InvalidBasePrefix,
    /// A numeric base outside the supported range of 2 to 36.
    BaseOutOfRange,
    /// A digit separator where none is allowed.
    DigitSeparator,
    /// A leading zero on an integer literal that does not allow one.
    LeadingZeroes,
    /// A character that cannot begin an identifier.
    InvalidIdentChar,
}

impl CalcError {
    /// The descriptive message of this error category.
    pub fn message(&self) -> (r: &'static str)
        ensures
            self is ParseDigit ==> r@ == "Expected a digit for the active base"@,
            self is DivisionByZero ==> r@ == "Attempt to divide by zero"@,
            self is DimensionMismatch ==> r@ == "Units are incompatible"@,
            self is UnsupportedUnitOperation ==> r@
                == "This operation is currently only supported for unitless numbers"@,
            self is UnsupportedOperation ==> r@
                == "This operation is not supported within the exactness model"@,
            self is NumericLimitExceeded ==> r@ == "Exceeded the internal numeric limits"@,
            self is EndOfInput ==> r@ == "Expected a character"@,
            self is UnexpectedChar ==> r@ == "Unexpected character"@,
            self is InvalidBasePrefix ==> r@ == "Unable to parse a valid base prefix"@,
            self is BaseOutOfRange ==> r@ == "Base must be between 2 and 36"@,
            self is DigitSeparator ==> r@ == "Digit separators are not allowed here"@,
            self is LeadingZeroes ==> r@ == "Integer literals cannot have leading zeroes"@,
            self is InvalidIdentChar ==> r@
                == "Character is not valid at the beginning of an identifier"@,
    {
        match self {
            CalcError::ParseDigit => "Expected a digit for the active base",
            CalcError::DivisionByZero => "Attempt to divide by zero",
            CalcError::DimensionMismatch => "Units are incompatible",
            CalcError::UnsupportedUnitOperation => {
                "This operation is currently only supported for unitless numbers"
            },
            CalcError::UnsupportedOperation => {
                "This operation is not supported within the exactness model"
            },
            CalcError::NumericLimitExceeded => "Exceeded the internal numeric limits",
            CalcError::EndOfInput => "Expected a character",
            CalcError::UnexpectedChar => "Unexpected character",
            CalcError::InvalidBasePrefix => "Unable to parse a valid base prefix",
            CalcError::BaseOutOfRange => "Base must be between 2 and 36",
            CalcError::DigitSeparator => "Digit separators are not allowed here",
            CalcError::LeadingZeroes => "Integer literals cannot have leading zeroes",
            CalcError::InvalidIdentChar => {
                "Character is not valid at the beginning of an identifier"
            },
        }
    }
}

/// The outcome channel of an operation that can be cancelled: either an
/// ordinary error or the observation of a cancellation request.  The two
/// are never coalesced.
#[derive(Clone, Copy, Debug, PartialEq, Eq, Structural)]
pub enum IntErr {
    /// An ordinary error, surfaced unchanged to the caller.
    Error(CalcError),
    /// The cancellation object reported a pending request.
    Interrupted,
}

} // verus!
