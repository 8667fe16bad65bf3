//! Keys of the persistent session data, modeled as key-value pairs.

use vstd::prelude::*;

verus! {

/// Represents a session data entry key.
#[derive(Clone, Copy, Debug, PartialEq, Eq, Structural)]
pub enum Key {
    ActiveProject,
}

impl Key {
    /// The integer under which the key is stored.
    pub open spec fn code_spec(self) -> int {
        match self {
            Key::ActiveProject => 0,
        }
    }

    /// Encodes the key as its stored integer.
    pub fn as_i64(&self) -> (r: i64)
        ensures
            r == self.code_spec(),
    {
        match self {
            Key::ActiveProject => 0,
        }
    }
}

} // verus!
