//! The ways in which a descriptor can be malformed.

use vstd::prelude::*;
use vstd::string::*;

verus! {

/// Why a descriptor, or a value expression inside it, was rejected.
#[derive(Clone, Copy, Debug, PartialEq, Eq, Structural)]
pub enum ParseError {
    /// The descriptor is the empty string.
    MalformedDescriptor,
    /// A segment opens a colour group with `(` and never closes it.
    UnterminatedColorGroup,
    /// Nothing follows the colour group: neither a value nor a glyph character.
    EmptySegment,
    /// A conditional does not begin with the number of the slot that it tests.
    MalformedCondition,
    /// A conditional has a test and no branch.
    IncompleteExpression,
}

/// A malformed descriptor: what is wrong with it, and where.
#[derive(Clone, Copy, Debug, PartialEq, Eq, Structural)]
pub struct Fault {
    pub error: ParseError,
    /// The byte offset, in the descriptor, of the raw part that is malformed.
    pub offset: usize,
}

impl ParseError {
    /// The text that describes this error to a user.
    pub open spec fn spec_message(self) -> Seq<char> {
        match self {
            ParseError::MalformedDescriptor => "descriptor is empty"@,
            ParseError::UnterminatedColorGroup => "colour group has no closing parenthesis"@,
            ParseError::EmptySegment => "segment is empty"@,
            ParseError::MalformedCondition => "condition does not start with a number"@,
            ParseError::IncompleteExpression => "conditional has no branch"@,
        }
    }

    /// A one-line description for a user.
    pub fn message(&self) -> (r: String)
        ensures
            r@ == self.spec_message(),
    {
        match self {
            ParseError::MalformedDescriptor => String::from_str("descriptor is empty"),
            ParseError::UnterminatedColorGroup => String::from_str(
                "colour group has no closing parenthesis",
            ),
            ParseError::EmptySegment => String::from_str("segment is empty"),
            ParseError::MalformedCondition => String::from_str(
                "condition does not start with a number",
            ),
            ParseError::IncompleteExpression => String::from_str("conditional has no branch"),
        }
    }
}

} // verus!
