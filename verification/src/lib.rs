//! Move search support for a 4x4 sliding-tile merge puzzle: exact board
//! mechanics, the integer terms of the position heuristic, the shape of the
//! expectimax tree, and the authoritative game state.

pub mod board;
pub mod slide;
pub mod moves;
pub mod line_laws;
pub mod laws;
pub mod tiles;
pub mod game;
pub mod heuristic;
pub mod search;
