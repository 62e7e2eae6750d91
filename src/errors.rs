use vstd::prelude::*;

verus! {

/// The ways in which an operation of the index can fail.
#[non_exhaustive]
#[derive(Debug, Clone, Copy, PartialEq, Eq, Structural)]
pub enum Error {
    /// A digest could not be read back as a bit position.
    HashWord,
    /// A filter was asked for with no capacity, or more than it can be sized for.
    InvalidCapacity,
    /// Persisted index data is not in the shape that a dump produces.
    MalformedState,
}

impl Error {
    /// A short description of the error, for display.
    pub fn message(&self) -> (r: String)
        ensures
            r@ == match self {
                Error::HashWord => "Error while hashing word"@,
                Error::InvalidCapacity => "Invalid Bloom filter capacity"@,
                Error::MalformedState => "Malformed persisted index"@,
            },
    {
        let text = match self {
            Error::HashWord => "Error while hashing word",
            Error::InvalidCapacity => "Invalid Bloom filter capacity",
            Error::MalformedState => "Malformed persisted index",
        };
        text.to_owned()
    }
}

} // verus!
