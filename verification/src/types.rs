use vstd::prelude::*;

pub mod color;
pub mod coord;
pub mod vertex;

pub use color::Color;
pub use coord::Coord;
pub use vertex::Vertex;

verus! {

/// A played move: who moved, and where (or a pass).
#[derive(Copy, Clone, Debug, Eq, PartialEq, Structural, Hash)]
pub struct Move(pub Color, pub Vertex);

impl Move {
    /// The mover's color.
    pub fn color(&self) -> (c: Color)
        ensures
            c == self.0,
    {
        self.0
    }

    /// Where the move was played.
    pub fn vertex(&self) -> (v: Vertex)
        ensures
            v == self.1,
    {
        self.1
    }
}

} // verus!
