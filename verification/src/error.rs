//! The ways in which reading an encoding can fail.

use vstd::prelude::*;

verus! {

/// Why a piece of data was not accepted.
#[derive(Debug, Clone, Copy, PartialEq, Eq, Structural)]
pub enum ParseError {
    /// Something about the value was invalid.
    InvalidValue,
    /// An element was found whose tag is not the one that was asked for.
    UnexpectedTag { actual: u8 },
    /// The data ended before the element did.
    ShortData,
    /// A number does not fit the integer type that is to hold it.
    IntegerOverflow,
    /// Data was left over after the last element.
    ExtraData,
}

/// What a parsing function returns.
pub type ParseResult<T> = Result<T, ParseError>;

} // verus!
