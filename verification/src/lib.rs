//! Validates whether a rectangular block of text, drawn from at most two
//! distinct characters, depicts a single orthogonally-connected path joining
//! two diagonally opposite corners of the rectangle, with no four path
//! characters in a straight horizontal or vertical run. The single entry
//! point takes the text and returns a human-readable verdict.

pub mod grid;
pub mod search;
pub mod runs;
pub mod validate;
pub mod laws;

pub use grid::Location;
pub use grid::Offset;
pub use validate::validate_connect_the_corners;
