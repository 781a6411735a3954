//! Why a conversion fails.

use vstd::prelude::*;
use vstd::string::*;

verus! {

/// The one way a conversion fails. Nothing is converted then: there is no
/// partial result.
#[derive(Debug, Clone, Copy, PartialEq, Eq)]
pub enum ConversionError {
    /// The start of some cue point is not a decimal number, or one too large
    /// to count in milliseconds.
    UnparsableCueStart,
}

impl ConversionError {
    /// The error in words.
    pub fn message(&self) -> (text: String)
        ensures
            text@ == "the start of a cue point is not a number"@,
    {
        String::from_str("the start of a cue point is not a number")
    }
}

} // verus!
