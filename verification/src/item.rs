//! Plain message items.

use vstd::prelude::*;

verus! {

/// A free-form message item.
pub struct Item {
    pub message: String,
}

impl Item {
    /// Constructs a new item.
    pub fn new(message: String) -> (r: Self)
        ensures
            r.message == message,
    {
        Self { message }
    }

    /// Borrows the message.
    pub fn message(&self) -> (r: &String)
        ensures
            r == &self.message,
    {
        &self.message
    }
}

} // verus!
