//! A solver for the water-sort puzzle: glasses of coloured units, pours that
//! move the top run of one colour, and a depth-first search for a sequence of
//! pours after which every glass is empty or full with one colour.
pub mod board;
pub mod glass;
pub mod laws;
pub mod search;

pub use board::{Pour, PourError, State};
pub use glass::{Color, Glass, GlassError, CAPACITY};
