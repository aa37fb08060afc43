use vstd::prelude::*;

verus! {

/// Failures surfaced by decoding. Writing never fails.
#[derive(Debug, Clone, Copy, PartialEq, Eq, Structural)]
pub enum Error {
    /// A read asked for more bytes than remain in the buffer.
    BufferUnderrun,
    /// A string payload is not valid UTF-8.
    InvalidUtf8,
    /// A variable-length integer runs past the five bytes a 32-bit value needs.
    VarIntOverflow,
    /// A field's type tag in the stream differs from the one the reader expects.
    TypeMismatch,
    /// A length prefix is negative.
    InvalidLength,
}

} // verus!
