use vstd::prelude::*;

use crate::error::ParseError;
use crate::native;

verus! {

/// A move in the GTP notation: a pass, or a column letter (skipping `I`)
/// with a 1-based row number counted from the bottom of the board.
#[derive(Copy, Clone, Debug, Eq, PartialEq, Structural, Hash)]
pub enum Move {
    Pass,
    Coordinate(char, u8),
}

/// The GTP column letter of a zero-based `x`: letters start at `'A'` and the
/// letter `'I'` is skipped, so columns `8` and above shift one extra place.
pub open spec fn gtp_letter_of(x: int) -> char {
    if x >= 8 {
        ((x + 1 + 'A' as u8) as u8) as char
    } else {
        ((x + 'A' as u8) as u8) as char
    }
}

/// The zero-based `x` of a GTP column letter: letters beyond `'I'` shift
/// back one extra place.
pub open spec fn gtp_letter_value(c: char) -> int {
    if c > 'I' {
        c as u8 - 'A' as u8 - 1
    } else {
        c as u8 - 'A' as u8
    }
}

/// A GTP column letter: `'A'` to `'Z'`, except the skipped `'I'`.
pub open spec fn is_gtp_letter(c: char) -> bool {
    'A' <= c && c <= 'Z' && c != 'I'
}

/// The decimal digit character of a value below ten.
pub open spec fn digit_char(d: int) -> char {
    ((d + '0' as u8) as u8) as char
}

/// The decimal digits of a nonnegative value, most significant first.
pub open spec fn dec_digits(v: int) -> Seq<char>
    decreases v,
{
    if v < 10 {
        seq![digit_char(v)]
    } else {
        dec_digits(v / 10).push(digit_char(v % 10))
    }
}

/// The value of a sequence of decimal digit characters.
pub open spec fn digits_value(t: Seq<char>) -> int
    decreases t.len(),
{
    if t.len() == 0 {
        0
    } else {
        digits_value(t.drop_last()) * 10 + (t.last() as u8 - '0' as u8)
    }
}

/// Whether the text is one or more decimal digit characters.
pub open spec fn is_digits(t: Seq<char>) -> bool {
    t.len() >= 1 && forall|i: int| 0 <= i < t.len() ==> '0' <= #[trigger] t[i] && t[i] <= '9'
}

impl native::Move {
    /// The GTP form of a native move on a board of the given size: passes
    /// map to passes, the column becomes a letter that skips `I`, and the
    /// row number counts from the bottom, `row == board_size - y`.
    pub open spec fn to_gtp_spec(self, board_size: u8) -> Move {
        match self {
            native::Move::Pass => Move::Pass,
            native::Move::Coordinate { x, y } => Move::Coordinate(
                gtp_letter_of(x as int),
                (board_size - y) as u8,
            ),
        }
    }

    /// The native form of a GTP move on a board of the given size: the
    /// letter shifts back across the skipped `I`, and `y == board_size - row`.
    pub open spec fn from_gtp_spec(m: Move, board_size: u8) -> native::Move {
        match m {
            Move::Pass => native::Move::Pass,
            Move::Coordinate(c, row) => native::Move::Coordinate {
                x: gtp_letter_value(c) as u8,
                y: (board_size - row) as u8,
            },
        }
    }

    pub fn to_gtp(self, board_size: u8) -> (r: Move)
        requires
            self matches native::Move::Coordinate { x, y } ==> x <= 24 && y < board_size,
        ensures
            r == self.to_gtp_spec(board_size),
    {
        match self {
            native::Move::Pass => Move::Pass,
            native::Move::Coordinate { x, y } => {
                let c = if x >= 8 {
                    (x + 1 + 'A' as u8) as char
                } else {
                    (x + 'A' as u8) as char
                };
                Move::Coordinate(c, board_size - y)
            },
        }
    }

    pub fn from_gtp(m: Move, board_size: u8) -> (r: Self)
        requires
            m matches Move::Coordinate(c, row) ==> is_gtp_letter(c) && 1 <= row && row
                <= board_size,
        ensures
            r == Self::from_gtp_spec(m, board_size),
    {
        match m {
            Move::Pass => native::Move::Pass,
            Move::Coordinate(c, row) => {
                let x = if c > 'I' {
                    c as u8 - 'A' as u8 - 1
                } else {
                    c as u8 - 'A' as u8
                };
                native::Move::Coordinate { x, y: board_size - row }
            },
        }
    }
}

/// A character mapped to uppercase where it is an ASCII lowercase letter,
/// and kept as it is everywhere else.
pub open spec fn ascii_upper_char(c: char) -> char {
    if 'a' <= c && c <= 'z' {
        ((c as u8 - 32) as u8) as char
    } else {
        c
    }
}

/// The text with each ASCII lowercase letter mapped to uppercase.
pub open spec fn ascii_upper(t: Seq<char>) -> Seq<char> {
    Seq::new(t.len(), |i: int| ascii_upper_char(t[i]))
}

proof fn lemma_digits_value_nonneg(t: Seq<char>)
    requires
        forall|i: int| 0 <= i < t.len() ==> '0' <= #[trigger] t[i] && t[i] <= '9',
    ensures
        digits_value(t) >= 0,
    decreases t.len(),
{
    if t.len() > 0 {
        lemma_digits_value_nonneg(t.drop_last());
    }
}

proof fn lemma_digits_value_step(t: Seq<char>, j: int)
    requires
        0 <= j < t.len(),
    ensures
        digits_value(t.take(j + 1)) == digits_value(t.take(j)) * 10 + (t[j] as u8 - '0' as u8),
{
    assert(t.take(j + 1).drop_last() =~= t.take(j));
    assert(t.take(j + 1).last() == t[j]);
}

proof fn lemma_digits_value_monotone(t: Seq<char>, j: int)
    requires
        0 <= j <= t.len(),
        forall|i: int| 0 <= i < t.len() ==> '0' <= #[trigger] t[i] && t[i] <= '9',
    ensures
        digits_value(t) >= digits_value(t.take(j)),
    decreases t.len() - j,
{
    if j < t.len() {
        lemma_digits_value_step(t, j);
        lemma_digits_value_nonneg(t.take(j));
        lemma_digits_value_monotone(t, j + 1);
    } else {
        assert(t.take(j) =~= t);
    }
}

impl Move {
    /// The GTP text of a move: `"pass"`, or the column letter followed by
    /// the decimal row number.
    pub open spec fn text_spec(self) -> Seq<char> {
        match self {
            Move::Pass => seq!['p', 'a', 's', 's'],
            Move::Coordinate(c, row) => seq![c] + dec_digits(row as int),
        }
    }

    /// Decoding of GTP move text: empty input is rejected as `EmptyString`;
    /// `"pass"` in any letter case is a pass; otherwise the first character,
    /// mapped to uppercase, must be a GTP column letter and the rest a
    /// decimal number that fits in the row type, else the text is rejected
    /// as `InvalidCoordinate`.
    pub open spec fn from_text_spec(t: Seq<char>) -> Result<Move, ParseError> {
        if t.len() == 0 {
            Err(ParseError::EmptyString)
        } else if ascii_upper(t) == seq!['P', 'A', 'S', 'S'] {
            Ok(Move::Pass)
        } else if t.len() >= 2 && is_gtp_letter(ascii_upper_char(t[0])) && is_digits(
            t.subrange(1, t.len() as int),
        ) && digits_value(t.subrange(1, t.len() as int)) <= 255 {
            Ok(
                Move::Coordinate(
                    ascii_upper_char(t[0]),
                    digits_value(t.subrange(1, t.len() as int)) as u8,
                ),
            )
        } else {
            Err(ParseError::InvalidCoordinate)
        }
    }

    #[verifier::rlimit(50)]
    pub fn to_text(self) -> (s: String)
        ensures
            s@ == self.text_spec(),
    {
        match self {
            Move::Pass => {
                proof {
                    reveal_strlit("pass");
                }
                let s = String::from_str("pass");
                proof {
                    assert(s@ =~= self.text_spec());
                }
                s
            },
            Move::Coordinate(c, row) => {
                let mut s = String::new();
                s.push(c);
                if row >= 100 {
                    let ch1 = (row / 100 + '0' as u8) as char;
                    let ch2 = (row / 10 % 10 + '0' as u8) as char;
                    let ch3 = (row % 10 + '0' as u8) as char;
                    s.push(ch1);
                    s.push(ch2);
                    s.push(ch3);
                    proof {
                        vstd::arithmetic::div_mod::lemma_div_denominator(row as int, 10, 10);
                        assert(dec_digits(row as int) == dec_digits(row as int / 10).push(
                            digit_char(row as int % 10),
                        ));
                        assert(dec_digits(row as int / 10) == dec_digits(row as int / 100).push(
                            digit_char(row as int / 10 % 10),
                        ));
                        assert(dec_digits(row as int / 100) == seq![digit_char(row as int / 100)]);
                        assert(ch1 == digit_char(row as int / 100));
                        assert(ch2 == digit_char(row as int / 10 % 10));
                        assert(ch3 == digit_char(row as int % 10));
                        assert(s@ =~= self.text_spec());
                    }
                } else if row >= 10 {
                    s.push((row / 10 + '0' as u8) as char);
                    s.push((row % 10 + '0' as u8) as char);
                    proof {
                        assert(dec_digits(row as int) == dec_digits(row as int / 10).push(
                            digit_char(row as int % 10),
                        ));
                        assert(dec_digits(row as int / 10) == seq![digit_char(row as int / 10)]);
                        assert(s@ =~= self.text_spec());
                    }
                } else {
                    s.push((row + '0' as u8) as char);
                    proof {
                        assert(s@ =~= self.text_spec());
                    }
                }
                s
            },
        }
    }

    #[verifier::loop_isolation(false)]
    #[verifier::rlimit(50)]
    pub fn from_text(s: &str) -> (r: Result<Move, ParseError>)
        ensures
            r == Self::from_text_spec(s@),
    {
        let n = s.unicode_len();
        if n == 0 {
            return Err(ParseError::EmptyString);
        }
        if n == 4 {
            let u0 = upper_char(s.get_char(0));
            let u1 = upper_char(s.get_char(1));
            let u2 = upper_char(s.get_char(2));
            let u3 = upper_char(s.get_char(3));
            if u0 == 'P' && u1 == 'A' && u2 == 'S' && u3 == 'S' {
                proof {
                    assert(ascii_upper(s@) =~= seq!['P', 'A', 'S', 'S']);
                }
                return Ok(Move::Pass);
            }
            proof {
                assert(ascii_upper(s@) != seq!['P', 'A', 'S', 'S']) by {
                    if ascii_upper(s@) == seq!['P', 'A', 'S', 'S'] {
                        assert(ascii_upper(s@)[0] == ascii_upper_char(s@[0]));
                        assert(ascii_upper(s@)[1] == ascii_upper_char(s@[1]));
                        assert(ascii_upper(s@)[2] == ascii_upper_char(s@[2]));
                        assert(ascii_upper(s@)[3] == ascii_upper_char(s@[3]));
                    }
                }
            }
        }
        proof {
            assert(ascii_upper(s@) != seq!['P', 'A', 'S', 'S']) by {
                if ascii_upper(s@) == seq!['P', 'A', 'S', 'S'] {
                    assert(ascii_upper(s@).len() == 4);
                }
            }
        }
        if n < 2 {
            return Err(ParseError::InvalidCoordinate);
        }
        let c0 = upper_char(s.get_char(0));
        if !('A' <= c0 && c0 <= 'Z' && c0 != 'I') {
            return Err(ParseError::InvalidCoordinate);
        }
        let ghost digits = s@.subrange(1, s@.len() as int);
        let mut acc: u16 = 0;
        let mut i: usize = 1;
        while i < n
            invariant
                1 <= i <= n,
                forall|k: int| 0 <= k < i - 1 ==> '0' <= #[trigger] digits[k] && digits[k] <= '9',
                acc <= 255,
                acc as int == digits_value(digits.take(i - 1)),
            decreases n - i,
        {
            let c = s.get_char(i);
            if !('0' <= c && c <= '9') {
                proof {
                    assert(digits[i - 1] == c);
                    assert(!is_digits(digits));
                }
                return Err(ParseError::InvalidCoordinate);
            }
            let d = c as u8 - '0' as u8;
            let v: u16 = acc * 10 + d as u16;
            proof {
                assert(digits[i - 1] == c);
                lemma_digits_value_step(digits, i - 1);
                assert(digits_value(digits.take(i as int)) == v);
            }
            if v > 255 {
                proof {
                    if is_digits(digits) {
                        lemma_digits_value_monotone(digits, i as int);
                    }
                }
                return Err(ParseError::InvalidCoordinate);
            }
            acc = v;
            i += 1;
        }
        proof {
            assert(digits.take(n - 1) =~= digits);
            assert(is_digits(digits));
        }
        Ok(Move::Coordinate(c0, acc as u8))
    }
}

/// The ASCII uppercase form of a character.
fn upper_char(c: char) -> (r: char)
    ensures
        r == ascii_upper_char(c),
{
    if 'a' <= c && c <= 'z' {
        (c as u8 - 32) as char
    } else {
        c
    }
}

/// The GTP conversion round-trips: on a board of size `board_size` at least
/// 1, a native move whose coordinates lie on the board and within the GTP
/// letter range comes back unchanged from its GTP form.
pub proof fn lemma_gtp_round_trip(m: native::Move, board_size: u8)
    requires
        1 <= board_size,
        m matches native::Move::Coordinate { x, y } ==> x <= 24 && x < board_size && y
            < board_size,
    ensures
        native::Move::from_gtp_spec(m.to_gtp_spec(board_size), board_size) == m,
{
}

/// The GTP form of an on-board native coordinate is a well-formed GTP
/// coordinate: a real column letter and a row between 1 and the board size.
pub proof fn lemma_to_gtp_well_formed(m: native::Move, board_size: u8)
    requires
        1 <= board_size,
        m matches native::Move::Coordinate { x, y } ==> x <= 24 && x < board_size && y
            < board_size,
    ensures
        native::Move::to_gtp_spec(m, board_size) matches Move::Coordinate(c, row) ==> is_gtp_letter(
            c,
        ) && 1 <= row && row <= board_size,
{
}

} // verus!
