use vstd::prelude::*;

verus! {

/// Failures reported by the graph operations.
#[derive(Debug)]
pub enum Error {
    /// A node index lies outside the range it must belong to.
    IndexError(String),
    /// A supplied value (such as an ordering) is not acceptable.
    ValueError(String),
    /// Input text does not follow the graph format.
    ParseError(String),
}

} // verus!
