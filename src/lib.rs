//! Analysis of a two-player pawn game on a 4x4 toroidal grid of move cards.

pub mod point;
pub mod board;
pub mod search;
pub mod deals;
pub mod enumeration;
pub mod laws;
