//! Why a batch of keys cannot become a collection.

use vstd::prelude::*;

verus! {

/// The ways in which building a key collection fails.
#[derive(Debug, Clone, Copy, PartialEq, Eq)]
pub enum Error {
    /// Two keys of the batch have this same shape.
    DuplicateKeys { num_inputs: usize, num_outputs: usize },
    /// The batch holds no key at all.
    NoKeys,
}

} // verus!
