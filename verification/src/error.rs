//! The error taxonomy of the quest store.

use vstd::prelude::*;

verus! {

/// An error raised by an operation on the quest store.
///
/// `UserDeclined` is deliberately absent: declining a confirmation prompt is
/// reported as a skipped action, not as an error.
#[derive(Clone, Copy, Debug, PartialEq, Eq, Structural)]
pub enum QuestError {
    /// The given quest id has no matching row.
    NotFound,
    /// A `chain_id` references a quest that does not exist (or would not
    /// precede its child), or a new row would collide with an existing id.
    ConstraintViolation,
    /// A stored status or tier integer falls outside its defined range;
    /// the stored data is inconsistent.
    InvalidEncoding,
}

impl QuestError {
    /// A short human-readable description of the error.
    pub fn describe(&self) -> (r: &'static str)
        ensures
            r@ == self.describe_spec(),
    {
        match self {
            QuestError::NotFound => "quest not found",
            QuestError::ConstraintViolation => "constraint violation",
            QuestError::InvalidEncoding => "stored quest data is inconsistent",
        }
    }

    /// What `describe` returns for each variant.
    pub open spec fn describe_spec(self) -> Seq<char> {
        match self {
            QuestError::NotFound => "quest not found"@,
            QuestError::ConstraintViolation => "constraint violation"@,
            QuestError::InvalidEncoding => "stored quest data is inconsistent"@,
        }
    }
}

} // verus!
