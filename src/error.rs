use vstd::prelude::*;

verus! {

/// The kinds of failure a parsing step can end with.
#[derive(Debug, Clone, Copy, PartialEq, Eq, Structural)]
pub enum ParseError {
    /// A string, name, comment or stream span is not valid UTF-8 text.
    UTF8Error,
    /// A digit sequence does not fit the target integer type.
    ParseIntError,
    /// A cross-reference field does not have its required number of digits.
    InvalidFixedWidthField,
    /// Bracket nesting never returns to zero before the input ends.
    UnbalancedDelimiter,
    /// A cross-reference table declares a count other than its number of entries.
    InvalidPDFXrefTable,
    /// No alternative of the object grammar matched.
    InvalidPDFObject,
    /// A literal keyword or byte was expected and not found.
    Mismatch,
}

/// The outcome of one parsing step: the unconsumed input and the value read.
pub type ParseResult<'a, T> = Result<(&'a [u8], T), ParseError>;

} // verus!
