//! Why a mutating operation of the tree refuses its input.

use vstd::prelude::*;

verus! {

/// Why an insertion was refused.
#[derive(Clone, Copy, Debug, PartialEq, Eq, Structural)]
pub enum InsertError {
    /// The key to insert is already in the tree.
    DuplicateKey,
    /// The key named as parent is not in the tree.
    UnknownParent,
}

impl InsertError {
    /// The error in words.
    pub fn message(&self) -> (text: &'static str)
        ensures
            text@ == match *self {
                InsertError::DuplicateKey => "mapped tree MUST contain UNIQUE elements only"@,
                InsertError::UnknownParent => "mapped tree doesn't contain specified parent"@,
            },
    {
        match self {
            InsertError::DuplicateKey => "mapped tree MUST contain UNIQUE elements only",
            InsertError::UnknownParent => "mapped tree doesn't contain specified parent",
        }
    }
}

} // verus!
