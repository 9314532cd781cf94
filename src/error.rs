use vstd::prelude::*;

verus! {

/// Why a buffer of records could not be aggregated.
#[derive(Debug, Clone, Copy, PartialEq, Eq, Structural)]
pub enum FormatError {
    /// A value token does not match `['-'] DIGIT{1,2} '.' DIGIT`.
    InvalidValue,
    /// A line holds no field delimiter.
    MissingFieldDelimiter,
    /// A record has a field delimiter but no record delimiter after it.
    MissingNewline,
    /// The buffer does not end with a record delimiter.
    MissingTrailingNewline,
    /// A sum or a count no longer fits its fixed-width type.
    Overflow,
}

} // verus!
