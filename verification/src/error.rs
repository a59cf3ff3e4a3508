use vstd::prelude::*;

verus! {

/// Why an operation of this library failed.
#[derive(Clone, Copy, Debug, PartialEq, Eq, Structural)]
pub enum BeadsError {
    /// A type set is empty, has more than sixteen members, names a type
    /// outside the catalog, or does not match the data read with it.
    BadTypeSet,
    /// A read ran past the end of the input.
    TruncatedBuffer,
    /// A variable-length integer is unterminated, longer than nineteen bytes,
    /// or does not fit where it is used.
    InvalidVarint,
    /// An element was asked for at or past the length of its container.
    InvalidIndex,
    /// A value accessor was called on a reference of another type category.
    TypeMismatch,
    /// No permitted encoding holds the value.
    UnfitValue,
}

} // verus!
