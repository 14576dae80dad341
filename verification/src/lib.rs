use vstd::prelude::*;

mod strutil;

pub mod error;
pub mod gtp;
pub mod native;
pub mod sgf;
pub mod types;

pub use error::ParseError;
pub use types::Color;
pub use types::Coord;
pub use types::Move;
pub use types::Vertex;

verus! {

} // verus!
