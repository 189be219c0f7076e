use vstd::prelude::*;

verus! {

/// What can go wrong while reading a timestamp or a subtitle block, or while shifting a time.
#[derive(Debug, Clone, Copy, PartialEq, Eq, Structural)]
pub enum SrtError {
    /// A timestamp is not of the shape `H:M:S,ms` with four unsigned integers.
    Format,
    /// No line of the block contains `-->`.
    NoTimestamp,
    /// The time-range line is the last line of the block.
    NoText,
    /// The text is empty, carries a denied phrase, or is punctuation alone.
    InvalidSubtitle,
    /// A shift is larger than a signed 64-bit count of milliseconds, or its result is
    /// larger than a timestamp can hold.
    Overflow,
}

} // verus!
