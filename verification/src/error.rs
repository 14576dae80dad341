use vstd::prelude::*;

verus! {

/// The ways a textual move, color or coordinate can fail to parse.
#[derive(Debug, Clone, Copy, PartialEq, Eq, Structural)]
pub enum ParseError {
    /// Empty input where a move token was expected.
    EmptyString,
    /// Text that is neither `"B"` nor `"W"`.
    InvalidColor,
    /// Text that does not have the shape of a coordinate.
    InvalidCoordinate,
}

impl ParseError {
    /// A short human-readable description of the error.
    pub fn message(&self) -> (s: &'static str)
        ensures
            s@ == self.message_spec(),
    {
        match self {
            ParseError::EmptyString => "empty string",
            ParseError::InvalidColor => "invalid color",
            ParseError::InvalidCoordinate => "invalid coordinate",
        }
    }

    pub open spec fn message_spec(&self) -> Seq<char> {
        match self {
            ParseError::EmptyString => "empty string"@,
            ParseError::InvalidColor => "invalid color"@,
            ParseError::InvalidCoordinate => "invalid coordinate"@,
        }
    }
}

} // verus!
