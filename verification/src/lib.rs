//! A chess position engine: the board, legal move generation over attack
//! lines, make/unmake of moves, and a negamax search with alpha-beta pruning.

pub mod board;
pub mod engine;
pub mod fen;
pub mod maps;
pub mod move_generation;
pub mod notation;
pub mod play;
pub mod position;
pub mod structs;
