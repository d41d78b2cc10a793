use vstd::prelude::*;

verus! {

/// Everything that can go wrong while turning JSON text into a value tree.
///
/// Every variant that can be pinned to a place in the input carries the
/// byte offset (into the UTF-8 source text) at which the problem was
/// detected.
#[derive(Debug, Clone, Copy, PartialEq, Eq, Structural)]
pub enum ParseError {
    /// An unexpected character sits at the carried offset.
    InvalidCharacter(usize),
    /// The input ended where more characters were required.
    UnexpectedEOF,
    /// The input ended inside a string literal; carries the byte offset of
    /// the first content character (the one right after the opening quote).
    UnexpectedEOFWhileParsingString(usize),
    /// A raw line break sits inside a string literal at the carried byte
    /// offset; the closing quote must be on the same line.
    LineBreakWhileParsingString(usize),
    /// A number without `.` or exponent does not fit in an `i64`.
    ParseIntError,
    /// A number-shaped token was rejected by the float reader.
    ParseFloatError,
    /// A `\u` escape names a code unit that is not a Unicode scalar value.
    InvalidEscapeSequence,
    /// A `\u` escape contains a character that is not a hex digit.
    InvalidHex,
}

} // verus!
