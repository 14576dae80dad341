use vstd::prelude::*;

use crate::error::ParseError;

verus! {

/// The color of a stone: one of the two players.
#[derive(Copy, Clone, Debug, Eq, PartialEq, Structural, Hash)]
pub enum Color {
    Black,
    White,
}

impl Color {
    /// The other player's color.
    pub open spec fn opposite_spec(self) -> Color {
        match self {
            Color::Black => Color::White,
            Color::White => Color::Black,
        }
    }

    pub fn opposite(self) -> (r: Self)
        ensures
            r == self.opposite_spec(),
    {
        match self {
            Color::Black => Color::White,
            Color::White => Color::Black,
        }
    }

    /// The single-character encoding of the color.
    pub open spec fn text_spec(self) -> Seq<char> {
        match self {
            Color::Black => seq!['B'],
            Color::White => seq!['W'],
        }
    }

    /// Decoding of color text: exactly `"B"` or `"W"`, anything else is
    /// rejected as `InvalidColor`.
    pub open spec fn from_text_spec(t: Seq<char>) -> Result<Color, ParseError> {
        if t == seq!['B'] {
            Ok(Color::Black)
        } else if t == seq!['W'] {
            Ok(Color::White)
        } else {
            Err(ParseError::InvalidColor)
        }
    }

    pub fn as_str(self) -> (s: &'static str)
        ensures
            s@ == self.text_spec(),
    {
        proof {
            reveal_strlit("B");
            reveal_strlit("W");
        }
        let s = match self {
            Color::Black => "B",
            Color::White => "W",
        };
        proof {
            assert(s@ =~= self.text_spec());
        }
        s
    }

    pub fn to_text(self) -> (s: String)
        ensures
            s@ == self.text_spec(),
    {
        String::from_str(self.as_str())
    }

    pub fn from_text(s: &str) -> (r: Result<Color, ParseError>)
        ensures
            r == Self::from_text_spec(s@),
    {
        if s.unicode_len() == 1 {
            let c = s.get_char(0);
            if c == 'B' {
                proof {
                    assert(s@ =~= seq!['B']);
                }
                return Ok(Color::Black);
            }
            if c == 'W' {
                proof {
                    assert(s@ =~= seq!['W']);
                }
                return Ok(Color::White);
            }
        }
        proof {
            assert(s@ != seq!['B'] && s@ != seq!['W']);
        }
        Err(ParseError::InvalidColor)
    }
}

/// Taking the opposite color twice gives the original color back: `opposite`
/// is an involution.
pub proof fn lemma_opposite_involution(c: Color)
    ensures
        c.opposite_spec().opposite_spec() == c,
{
}

} // verus!
