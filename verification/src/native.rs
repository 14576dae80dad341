use vstd::prelude::*;

use crate::error::ParseError;

verus! {

/// The lowercase letter that stands for a zero-based coordinate component:
/// `0` is `'a'`, `25` is `'z'`.
pub open spec fn lower_letter_of(v: int) -> char {
    ((v + 'a' as u8) as u8) as char
}

/// The coordinate component written by a lowercase letter: `'a'` is `0`.
pub open spec fn lower_letter_value(c: char) -> int {
    c as u8 - 'a' as u8
}

/// An engine-native move: a pass, or an intersection in the zero-based
/// `(x, y)` scheme, `x` left to right, `y` top to bottom.
///
/// The type does not bound `x` and `y` by a board size; validation against a
/// board size is the caller's responsibility at the codec boundary.
#[derive(Copy, Clone, Debug, Eq, PartialEq, Structural, Hash)]
pub enum Move {
    Pass,
    Coordinate { x: u8, y: u8 },
}

impl Move {
    pub fn new(x: u8, y: u8) -> (r: Self)
        ensures
            r == (Move::Coordinate { x, y }),
    {
        Move::Coordinate { x, y }
    }

    pub fn pass() -> (r: Self)
        ensures
            r == Move::Pass,
    {
        Move::Pass
    }

    /// The move at a flat, row-major board index.
    pub fn from_index(index: usize, board_size: usize) -> (r: Self)
        requires
            0 < board_size <= 256,
            index < board_size * board_size,
        ensures
            r == (Move::Coordinate {
                x: (index % board_size) as u8,
                y: (index / board_size) as u8,
            }),
    {
        proof {
            assert(index / board_size < board_size) by (nonlinear_arith)
                requires
                    0 < board_size,
                    index < board_size * board_size,
            ;
        }
        Move::Coordinate { x: (index % board_size) as u8, y: (index / board_size) as u8 }
    }

    /// The flat, row-major board index of the move; a pass has no board
    /// index and is mapped to `usize::MAX`.
    pub fn index(&self, board_size: usize) -> (r: usize)
        requires
            *self matches Move::Coordinate { x, y } ==> y * board_size + x <= usize::MAX,
        ensures
            match *self {
                Move::Pass => r == usize::MAX,
                Move::Coordinate { x, y } => r == y * board_size + x,
            },
    {
        match self {
            Move::Pass => usize::MAX,
            Move::Coordinate { x, y } => (*y as usize) * board_size + (*x as usize),
        }
    }

    /// Both components small enough to be written as single letters.
    pub open spec fn encodable(self) -> bool {
        match self {
            Move::Pass => true,
            Move::Coordinate { x, y } => x < 26 && y < 26,
        }
    }

    /// The native text of a move: `"pass"`, or `x` then `y` as lowercase
    /// letters.
    pub open spec fn text_spec(self) -> Seq<char> {
        match self {
            Move::Pass => seq!['p', 'a', 's', 's'],
            Move::Coordinate { x, y } => seq![
                lower_letter_of(x as int),
                lower_letter_of(y as int),
            ],
        }
    }

    /// Decoding of native move text: the literal `"pass"`, or exactly two
    /// ASCII lowercase letters; anything else is rejected as
    /// `InvalidCoordinate`.
    pub open spec fn from_text_spec(t: Seq<char>) -> Result<Move, ParseError> {
        if t == seq!['p', 'a', 's', 's'] {
            Ok(Move::Pass)
        } else if t.len() == 2 && 'a' <= t[0] && t[0] <= 'z' && 'a' <= t[1] && t[1] <= 'z' {
            Ok(
                Move::Coordinate {
                    x: lower_letter_value(t[0]) as u8,
                    y: lower_letter_value(t[1]) as u8,
                },
            )
        } else {
            Err(ParseError::InvalidCoordinate)
        }
    }

    pub fn to_text(self) -> (s: String)
        requires
            self.encodable(),
        ensures
            s@ == self.text_spec(),
    {
        match self {
            Move::Pass => {
                proof {
                    reveal_strlit("pass");
                }
                let s = String::from_str("pass");
                proof {
                    assert(s@ =~= self.text_spec());
                }
                s
            },
            Move::Coordinate { x, y } => {
                let mut s = String::new();
                s.push((x + 'a' as u8) as char);
                s.push((y + 'a' as u8) as char);
                proof {
                    assert(s@ =~= self.text_spec());
                }
                s
            },
        }
    }

    pub fn from_text(s: &str) -> (r: Result<Move, ParseError>)
        ensures
            r == Self::from_text_spec(s@),
    {
        if s.unicode_len() == 4 {
            if s.get_char(0) == 'p' && s.get_char(1) == 'a' && s.get_char(2) == 's' && s.get_char(
                3,
            ) == 's' {
                proof {
                    assert(s@ =~= seq!['p', 'a', 's', 's']);
                }
                return Ok(Move::Pass);
            }
        }
        proof {
            assert(s@ != seq!['p', 'a', 's', 's']);
        }
        if s.unicode_len() != 2 {
            return Err(ParseError::InvalidCoordinate);
        }
        let c0 = s.get_char(0);
        let c1 = s.get_char(1);
        if 'a' <= c0 && c0 <= 'z' && 'a' <= c1 && c1 <= 'z' {
            Ok(Move::Coordinate { x: c0 as u8 - 'a' as u8, y: c1 as u8 - 'a' as u8 })
        } else {
            Err(ParseError::InvalidCoordinate)
        }
    }
}

/// Encoding undoes decoding: every accepted native move text is written back
/// letter for letter.
pub proof fn lemma_move_text_round_trip(t: Seq<char>)
    requires
        Move::from_text_spec(t) is Ok,
    ensures
        Move::from_text_spec(t)->Ok_0.encodable(),
        Move::from_text_spec(t)->Ok_0.text_spec() == t,
{
    let m = Move::from_text_spec(t)->Ok_0;
    assert(m.text_spec() =~= t);
}

/// Decoding undoes encoding: every encodable native move is read back from
/// its own text.
pub proof fn lemma_move_decode_encode(m: Move)
    requires
        m.encodable(),
    ensures
        Move::from_text_spec(m.text_spec()) == Ok::<Move, ParseError>(m),
{
    if m is Coordinate {
        assert(m.text_spec().len() == 2);
        assert(seq!['p', 'a', 's', 's'].len() == 4);
        assert(m.text_spec() != seq!['p', 'a', 's', 's']);
    }
}

} // verus!
