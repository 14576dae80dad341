use vstd::prelude::*;

use crate::error::ParseError;
use crate::types::coord::Coord;

verus! {

/// A board position: either a concrete intersection or no placement at all.
#[derive(Copy, Clone, Debug, Eq, PartialEq, Structural, Hash)]
pub enum Vertex {
    Pass,
    Coord(Coord),
}

impl Vertex {
    pub fn is_pass(&self) -> (r: bool)
        ensures
            r == (self is Pass),
    {
        matches!(self, Vertex::Pass)
    }

    pub fn coord(&self) -> (r: Option<Coord>)
        ensures
            r == self.coord_spec(),
    {
        match self {
            Vertex::Coord(coord) => Some(*coord),
            Vertex::Pass => None,
        }
    }

    pub fn into_coord(self) -> (r: Option<Coord>)
        ensures
            r == self.coord_spec(),
    {
        match self {
            Vertex::Coord(coord) => Some(coord),
            Vertex::Pass => None,
        }
    }

    /// The intersection, if the vertex is not a pass.
    pub open spec fn coord_spec(self) -> Option<Coord> {
        match self {
            Vertex::Coord(coord) => Some(coord),
            Vertex::Pass => None,
        }
    }

    /// A pass can be written out; a coordinate only when its components fit
    /// single letters.
    pub open spec fn encodable(self) -> bool {
        match self {
            Vertex::Pass => true,
            Vertex::Coord(c) => c.encodable(),
        }
    }

    /// The encoding: the literal `"PASS"`, or the two-letter coordinate text.
    pub open spec fn text_spec(self) -> Seq<char> {
        match self {
            Vertex::Pass => seq!['P', 'A', 'S', 'S'],
            Vertex::Coord(c) => c.text_spec(),
        }
    }

    /// Decoding: the literal `"PASS"` is a pass; everything else is read as a
    /// coordinate, and fails exactly where coordinate decoding fails.
    pub open spec fn from_text_spec(t: Seq<char>) -> Result<Vertex, ParseError> {
        if t == seq!['P', 'A', 'S', 'S'] {
            Ok(Vertex::Pass)
        } else {
            match Coord::from_text_spec(t) {
                Ok(c) => Ok(Vertex::Coord(c)),
                Err(e) => Err(e),
            }
        }
    }

    pub fn to_text(self) -> (s: String)
        requires
            self.encodable(),
        ensures
            s@ == self.text_spec(),
    {
        match self {
            Vertex::Pass => {
                proof {
                    reveal_strlit("PASS");
                }
                let s = String::from_str("PASS");
                proof {
                    assert(s@ =~= self.text_spec());
                }
                s
            },
            Vertex::Coord(c) => c.to_text(),
        }
    }

    pub fn from_text(s: &str) -> (r: Result<Vertex, ParseError>)
        ensures
            r == Self::from_text_spec(s@),
    {
        if s.unicode_len() == 4 {
            if s.get_char(0) == 'P' && s.get_char(1) == 'A' && s.get_char(2) == 'S' && s.get_char(
                3,
            ) == 'S' {
                proof {
                    assert(s@ =~= seq!['P', 'A', 'S', 'S']);
                }
                return Ok(Vertex::Pass);
            }
        }
        proof {
            assert(s@ != seq!['P', 'A', 'S', 'S']);
        }
        match Coord::from_text(s) {
            Ok(c) => Ok(Vertex::Coord(c)),
            Err(e) => Err(e),
        }
    }
}

} // verus!
