use vstd::prelude::*;

verus! {

/// What can go wrong when building a vocabulary, querying it, or solving.
#[derive(Clone, Copy, PartialEq, Eq, Structural, Debug)]
pub enum WfcError {
    /// The example patterns are missing, empty or malformed.
    DataError,
    /// No tile carries the requested group name.
    UnknownGroup,
    /// A tile id or a coordinate lies outside its range.
    OutOfRange,
    /// Some cell has no tile left.
    Contradiction,
}

} // verus!
