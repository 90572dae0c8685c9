use vstd::prelude::*;

verus! {

/// Why an encoded form does not decode to a flags value.
#[derive(Clone, Copy, Debug, PartialEq, Eq, Structural)]
pub enum DecodeError {
    /// A text form holds an empty flag between separators, or ends in one.
    EmptyFlag,
    /// A text form names a flag that the type does not declare.
    InvalidNamedFlag,
    /// A text form holds a `0x` flag whose digits are malformed or too large
    /// for the width.
    InvalidHexFlag,
    /// A numeric form is too large for the width.
    OutOfRange,
}

} // verus!
