use vstd::prelude::*;

verus! {

/// The ways in which reading or decoding can fail. None of them is retried at
/// this layer, and none is ever replaced by a default value.
#[derive(Debug, Clone, Copy, PartialEq, Eq, Structural)]
pub enum Error {
    /// No record is stored under the identifier that was asked for.
    NotFound,
    /// The byte source ended before the bytes that were asked for.
    IOError,
    /// The bytes do not follow the grammar of the thing being decoded.
    FormatError,
    /// A record names an object type other than blob, tree or commit.
    UnsupportedType,
}

} // verus!
