use vstd::prelude::*;

use crate::error::ParseError;

verus! {

/// A board intersection, counted from the left-top corner: `x` grows to the
/// right, `y` grows downwards, both zero-based.
///
/// The type itself does not bound `x` and `y` by a board size; validation
/// against a board size happens at the codec boundary.
#[derive(Copy, Clone, Debug, Eq, PartialEq, Structural, Hash)]
pub struct Coord {
    pub x: u8,
    pub y: u8,
}

/// The uppercase letter that stands for a zero-based coordinate component:
/// `0` is `'A'`, `25` is `'Z'`.
pub open spec fn upper_letter_of(v: int) -> char {
    ((v + 'A' as u8) as u8) as char
}

/// The coordinate component written by an uppercase letter: `'A'` is `0`.
pub open spec fn upper_letter_value(c: char) -> int {
    c as u8 - 'A' as u8
}

impl Coord {
    /// Both components small enough to be written as single uppercase letters.
    pub open spec fn encodable(self) -> bool {
        self.x < 26 && self.y < 26
    }

    /// The two-letter encoding: `x` then `y`, each as an uppercase letter.
    pub open spec fn text_spec(self) -> Seq<char> {
        seq![upper_letter_of(self.x as int), upper_letter_of(self.y as int)]
    }

    /// Decoding of coordinate text: exactly two ASCII uppercase letters,
    /// anything else is rejected as `InvalidCoordinate`.
    pub open spec fn from_text_spec(t: Seq<char>) -> Result<Coord, ParseError> {
        if t.len() == 2 && 'A' <= t[0] && t[0] <= 'Z' && 'A' <= t[1] && t[1] <= 'Z' {
            Ok(Coord { x: upper_letter_value(t[0]) as u8, y: upper_letter_value(t[1]) as u8 })
        } else {
            Err(ParseError::InvalidCoordinate)
        }
    }

    pub fn to_text(self) -> (s: String)
        requires
            self.encodable(),
        ensures
            s@ == self.text_spec(),
    {
        let mut s = String::new();
        s.push((self.x + 'A' as u8) as char);
        s.push((self.y + 'A' as u8) as char);
        proof {
            assert(s@ =~= self.text_spec());
        }
        s
    }

    pub fn from_text(s: &str) -> (r: Result<Coord, ParseError>)
        ensures
            r == Self::from_text_spec(s@),
    {
        if s.unicode_len() != 2 {
            return Err(ParseError::InvalidCoordinate);
        }
        let c0 = s.get_char(0);
        let c1 = s.get_char(1);
        if 'A' <= c0 && c0 <= 'Z' && 'A' <= c1 && c1 <= 'Z' {
            Ok(Coord { x: c0 as u8 - 'A' as u8, y: c1 as u8 - 'A' as u8 })
        } else {
            Err(ParseError::InvalidCoordinate)
        }
    }
}

/// Encoding undoes decoding: every accepted coordinate text is written back
/// letter for letter.
pub proof fn lemma_coord_text_round_trip(t: Seq<char>)
    requires
        Coord::from_text_spec(t) is Ok,
    ensures
        Coord::from_text_spec(t)->Ok_0.encodable(),
        Coord::from_text_spec(t)->Ok_0.text_spec() == t,
{
    let c = Coord::from_text_spec(t)->Ok_0;
    assert(c.text_spec() =~= t);
}

/// Decoding undoes encoding: every encodable coordinate is read back from its
/// own text.
pub proof fn lemma_coord_decode_encode(c: Coord)
    requires
        c.encodable(),
    ensures
        Coord::from_text_spec(c.text_spec()) == Ok::<Coord, ParseError>(c),
{
}

} // verus!
