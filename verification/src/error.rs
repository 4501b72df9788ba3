use vstd::prelude::*;

verus! {

/// Reasons why decoding or a structural operation fails.
#[derive(Debug, Clone, Copy, PartialEq, Eq, Structural)]
pub enum Error {
    /// A byte (or a group of bytes) holds a value outside of the accepted range.
    OutOfBounds,
    /// A hash had its leading half zeroed, which is reserved for niches.
    Zero,
    /// Fewer bytes were left than the value needs.
    EndOfInput,
    /// Bytes were left after a value that must take the whole input.
    ExtraInputLeft,
    /// A length does not fit into this platform's `usize`.
    UnsupportedLength,
    /// A byte string is not valid UTF-8.
    Utf8,
    /// Input is structurally inconsistent (e.g. one key is a prefix of another).
    Consistency,
    /// A fetch or index went out of the stored range.
    Fetch,
    /// A multi-item input does not split evenly.
    Parse,
}

} // verus!
