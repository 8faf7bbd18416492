//! Error kinds surfaced by the store, the index and the query engine.

use vstd::prelude::*;

verus! {

/// Everything that can go wrong inside the library.
///
/// `DimensionMismatch` and `DuplicateId` are caller errors and are surfaced
/// immediately; `NotFound` reports a delete or lookup of an absent id.
#[derive(Clone, Copy, Debug, PartialEq, Eq, Structural)]
pub enum IndexError {
    /// A vector's length disagrees with the collection's dimension.
    DimensionMismatch,
    /// An insert collided with an id that is already stored.
    DuplicateId,
    /// A delete or lookup named an id that is not stored.
    NotFound,
}

impl IndexError {
    /// A short, stable description of the error.
    pub fn describe(&self) -> (r: &'static str)
        ensures
            r@ == self.spec_describe(),
    {
        match self {
            IndexError::DimensionMismatch => "vector length disagrees with the collection dimension",
            IndexError::DuplicateId => "a record with this id already exists",
            IndexError::NotFound => "no record with this id exists",
        }
    }

    /// What `describe` returns, as a sequence of characters.
    pub open spec fn spec_describe(&self) -> Seq<char> {
        match self {
            IndexError::DimensionMismatch => "vector length disagrees with the collection dimension"@,
            IndexError::DuplicateId => "a record with this id already exists"@,
            IndexError::NotFound => "no record with this id exists"@,
        }
    }
}

} // verus!
