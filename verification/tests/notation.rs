use goban_notation::error::ParseError;
use goban_notation::gtp;
use goban_notation::native;
use goban_notation::types::Color;
use goban_notation::types::Coord;
use goban_notation::types::Vertex;

#[test]
fn test_coord_display() {
    let coord = Coord { x: 0, y: 0 };
    assert_eq!(coord.to_text(), "AA");
    let coord = Coord { x: 18, y: 18 };
    assert_eq!(coord.to_text(), "SS");
}

#[test]
fn test_coord_from_str() {
    let coord: Coord = Coord::from_text("AA").unwrap();
    assert_eq!(coord.x, 0);
    assert_eq!(coord.y, 0);
    let coord: Coord = Coord::from_text("SS").unwrap();
    assert_eq!(coord.x, 18);
    assert_eq!(coord.y, 18);
}

#[test]
fn test_coord_text_round_trips() {
    let coord = Coord::from_text("AB").unwrap();
    assert_eq!(coord.x, 0);
    assert_eq!(coord.y, 1);
    assert_eq!(coord.to_text(), "AB");
    assert_eq!(Coord::from_text(&Coord { x: 2, y: 7 }.to_text()).unwrap(), Coord { x: 2, y: 7 });
}

#[test]
fn test_coord_decode_failures() {
    assert_eq!(Coord::from_text("A1"), Err(ParseError::InvalidCoordinate));
    assert_eq!(Coord::from_text("aa"), Err(ParseError::InvalidCoordinate));
    assert_eq!(Coord::from_text("AAA"), Err(ParseError::InvalidCoordinate));
    assert_eq!(Coord::from_text(""), Err(ParseError::InvalidCoordinate));
}

#[test]
fn test_color_opposite_involution() {
    assert_eq!(Color::Black.opposite(), Color::White);
    assert_eq!(Color::White.opposite(), Color::Black);
    assert_eq!(Color::Black.opposite().opposite(), Color::Black);
    assert_eq!(Color::White.opposite().opposite(), Color::White);
}

#[test]
fn test_color_text() {
    assert_eq!(Color::Black.to_text(), "B");
    assert_eq!(Color::White.to_text(), "W");
    assert_eq!(Color::from_text("B"), Ok(Color::Black));
    assert_eq!(Color::from_text("W"), Ok(Color::White));
    assert_eq!(Color::from_text("X"), Err(ParseError::InvalidColor));
    assert_eq!(Color::from_text(""), Err(ParseError::InvalidColor));
    assert_eq!(Color::from_text("BW"), Err(ParseError::InvalidColor));
}

#[test]
fn test_vertex_accessors() {
    let pass = Vertex::Pass;
    assert!(pass.is_pass());
    assert_eq!(pass.coord(), None);
    assert_eq!(pass.into_coord(), None);
    let v = Vertex::Coord(Coord { x: 3, y: 4 });
    assert!(!v.is_pass());
    assert_eq!(v.coord(), Some(Coord { x: 3, y: 4 }));
    assert_eq!(v.into_coord(), Some(Coord { x: 3, y: 4 }));
}

#[test]
fn test_vertex_text() {
    assert_eq!(Vertex::Pass.to_text(), "PASS");
    assert_eq!(Vertex::from_text("PASS"), Ok(Vertex::Pass));
    assert_eq!(Vertex::Coord(Coord { x: 0, y: 1 }).to_text(), "AB");
    assert_eq!(Vertex::from_text("AB"), Ok(Vertex::Coord(Coord { x: 0, y: 1 })));
    assert_eq!(Vertex::from_text("pass"), Err(ParseError::InvalidCoordinate));
}

#[test]
fn test_native_move_text_round_trip() {
    let m = native::Move::from_text("ab").unwrap();
    assert_eq!(m, native::Move::Coordinate { x: 0, y: 1 });
    assert_eq!(m.to_text(), "ab");
    assert_eq!(native::Move::from_text("pass"), Ok(native::Move::Pass));
    assert_eq!(native::Move::pass().to_text(), "pass");
    assert_eq!(native::Move::from_text("A1"), Err(ParseError::InvalidCoordinate));
    assert_eq!(native::Move::from_text("abc"), Err(ParseError::InvalidCoordinate));
    assert_eq!(native::Move::from_text(""), Err(ParseError::InvalidCoordinate));
}

#[test]
fn test_native_move_index() {
    let m = native::Move::new(2, 3);
    assert_eq!(m.index(9), 3 * 9 + 2);
    assert_eq!(native::Move::from_index(3 * 9 + 2, 9), m);
    assert_eq!(native::Move::pass().index(9), usize::MAX);
}

#[test]
fn test_gtp_letter_skip() {
    // on a 19x19 board the ninth column is J: the letter I is skipped
    let m = native::Move::new(8, 0);
    assert_eq!(m.to_gtp(19), gtp::Move::Coordinate('J', 19));
    let m = native::Move::new(7, 0);
    assert_eq!(m.to_gtp(19), gtp::Move::Coordinate('H', 19));
    let m = native::Move::new(9, 0);
    assert_eq!(m.to_gtp(19), gtp::Move::Coordinate('K', 19));
}

#[test]
fn test_gtp_row_inversion() {
    // rows count from the bottom: the top row of a 9x9 board is row 9
    let top = native::Move::new(0, 0);
    assert_eq!(top.to_gtp(9), gtp::Move::Coordinate('A', 9));
    let bottom = native::Move::new(0, 8);
    assert_eq!(bottom.to_gtp(9), gtp::Move::Coordinate('A', 1));
}

#[test]
fn test_gtp_round_trip() {
    for x in 0..19u8 {
        for y in 0..19u8 {
            let m = native::Move::new(x, y);
            assert_eq!(native::Move::from_gtp(m.to_gtp(19), 19), m);
        }
    }
    assert_eq!(native::Move::from_gtp(native::Move::Pass.to_gtp(9), 9), native::Move::Pass);
}

#[test]
fn test_gtp_text() {
    assert_eq!(gtp::Move::Coordinate('J', 19).to_text(), "J19");
    assert_eq!(gtp::Move::Coordinate('A', 1).to_text(), "A1");
    assert_eq!(gtp::Move::Coordinate('C', 255).to_text(), "C255");
    assert_eq!(gtp::Move::Pass.to_text(), "pass");
    assert_eq!(gtp::Move::from_text("J19"), Ok(gtp::Move::Coordinate('J', 19)));
    assert_eq!(gtp::Move::from_text("j19"), Ok(gtp::Move::Coordinate('J', 19)));
    assert_eq!(gtp::Move::from_text("pass"), Ok(gtp::Move::Pass));
    assert_eq!(gtp::Move::from_text("PaSs"), Ok(gtp::Move::Pass));
    assert_eq!(gtp::Move::from_text(""), Err(ParseError::EmptyString));
    assert_eq!(gtp::Move::from_text("I5"), Err(ParseError::InvalidCoordinate));
    assert_eq!(gtp::Move::from_text("A"), Err(ParseError::InvalidCoordinate));
    assert_eq!(gtp::Move::from_text("A256"), Err(ParseError::InvalidCoordinate));
    assert_eq!(gtp::Move::from_text("A1x"), Err(ParseError::InvalidCoordinate));
}

#[test]
fn test_error_messages() {
    assert_eq!(ParseError::EmptyString.message(), "empty string");
    assert_eq!(ParseError::InvalidColor.message(), "invalid color");
    assert_eq!(ParseError::InvalidCoordinate.message(), "invalid coordinate");
}
