use vstd::prelude::*;

verus! {

/// Errors reported by the index constructor and the corruption checker.
#[derive(Debug, Clone, Copy, PartialEq, Eq, Structural)]
pub enum SubstringError {
    /// An entry holds the separator byte, or the joined corpus is too large to index.
    InvalidInput,
    /// A match direction that is not recognised.
    InvalidArgument,
}

} // verus!
