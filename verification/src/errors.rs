//! The failure kinds shared by both parsers.

use vstd::prelude::*;

verus! {

/// A fatal parse failure: the parse aborts with no partial result.
#[derive(Clone, Copy, Debug, PartialEq, Eq, Structural)]
pub enum ParseError {
    /// A required literal character was absent at its expected position.
    UnexpectedChar,
    /// A closing tag's name did not match the opening tag's name.
    UnmatchedClosingTag,
    /// The input ended where more characters were required.
    TruncatedInput,
    /// A length value carried a unit other than the single supported one.
    UnknownUnit,
    /// A numeric literal could not be read as a number.
    MalformedNumber,
}

} // verus!
