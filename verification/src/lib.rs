//! Mate search for shogi problems on a 9x9 board with drops: the board and
//! the moves of the pieces, check and checkmate, and the search for the
//! shortest forced mate, each with its contract.

pub mod attack;
pub mod board;
pub mod checks;
pub mod common;
pub mod drops;
pub mod mate;
pub mod movegen;
pub mod pos;
pub mod position;
pub mod search;
pub mod solver;
pub mod text;

pub use pos::{D, P};
