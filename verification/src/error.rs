//! The failures that the library reports.

use vstd::prelude::*;

verus! {

/// Why a request was turned down.
#[derive(Debug, Clone, Copy, PartialEq, Eq, Structural)]
pub enum ModelError {
    /// The seed has fewer words than the context length.
    Configuration,
    /// The context length is not written as a decimal number that fits the
    /// machine word.
    Argument,
    /// A draw fell outside the weight of a table, so it selects no word.
    InvariantViolation,
}

impl ModelError {
    /// The words that tell a user of the failure.
    pub open spec fn message_text(self) -> Seq<char> {
        match self {
            ModelError::Configuration => "'seed_sentence' should have at least {n} words"@,
            ModelError::Argument => "the context length should be a number"@,
            ModelError::InvariantViolation => "a draw fell outside the table's total"@,
        }
    }

    /// The words that tell a user of the failure.
    pub fn message(&self) -> (text: String)
        ensures
            text@ == self.message_text(),
    {
        match self {
            ModelError::Configuration => String::from_str(
                "'seed_sentence' should have at least {n} words",
            ),
            ModelError::Argument => String::from_str("the context length should be a number"),
            ModelError::InvariantViolation => String::from_str(
                "a draw fell outside the table's total",
            ),
        }
    }
}

} // verus!
