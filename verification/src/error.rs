//! Why a formatter could not be built or an index not be encoded.

use vstd::prelude::*;

verus! {

/// The three ways in which building or encoding fails.
#[derive(Debug, Clone, Copy, PartialEq, Eq, Structural)]
pub enum FormatError {
    /// The radix is zero, or above 10 and not below the alphabet size.
    UnsupportedRadix,
    /// The nominal length is zero.
    InvalidLength,
    /// The index lies above the capacity of the nominal length.
    ValueTooLarge,
}

impl FormatError {
    /// The text of the message for this error.
    pub open spec fn message_text(self) -> Seq<char> {
        match self {
            FormatError::UnsupportedRadix => "Unsupported radix or character set size."@,
            FormatError::InvalidLength => "Length must be at least 1."@,
            FormatError::ValueTooLarge => "Value too large for given length."@,
        }
    }

    /// A sentence that says what went wrong.
    pub fn message(&self) -> (text: String)
        ensures
            text@ == self.message_text(),
    {
        match self {
            FormatError::UnsupportedRadix => String::from_str(
                "Unsupported radix or character set size.",
            ),
            FormatError::InvalidLength => String::from_str("Length must be at least 1."),
            FormatError::ValueTooLarge => String::from_str("Value too large for given length."),
        }
    }
}

} // verus!
