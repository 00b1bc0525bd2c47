//! Why a decode failed, and where.

use vstd::prelude::*;

verus! {

/// The kinds of failure of a decode.
#[derive(Clone, Copy, Debug, PartialEq, Eq, Structural)]
pub enum DecodeErrorKind {
    /// The input ends where a value is due.
    EmptyInput,
    /// The byte that should begin a value begins none.
    UnrecognizedType,
    /// An integer with nothing between its `i` and its `e`.
    EmptyInteger,
    /// An integer that is no canonical decimal literal of 64 bits, or that
    /// is not closed by `e`.
    MalformedInteger,
    /// A string length that is not a run of digits followed by a colon.
    InvalidLengthPrefix,
    /// A string whose declared length exceeds what is left of the input.
    TruncatedString,
    /// A dictionary that ends after a key, before that key's value.
    TruncatedDictionary,
    /// A dictionary key that is not a byte string.
    NonStringKey,
    /// A dictionary key that occurred earlier in the same dictionary.
    DuplicateKey,
    /// A dictionary key that does not come after the key before it.
    UnorderedKeys,
    /// A list or dictionary nested deeper than the limit allows.
    NestingTooDeep,
}

/// The model of a failed decode: the kind of failure and the offset, from the
/// start of the input, at which it was detected.
pub struct Failure {
    pub kind: DecodeErrorKind,
    pub offset: int,
}

/// A failed decode: the kind of failure and the offset, from the start of the
/// input, at which it was detected.
#[derive(Clone, Copy, Debug, PartialEq, Eq, Structural)]
pub struct DecodeError {
    pub kind: DecodeErrorKind,
    pub offset: usize,
}

impl View for DecodeError {
    type V = Failure;

    open spec fn view(&self) -> Failure {
        Failure { kind: self.kind, offset: self.offset as int }
    }
}

} // verus!
