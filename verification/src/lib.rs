//! A verified Reversi (Othello) engine: an 8x8 board of cells, the
//! directional capture rule that decides which moves are legal and which
//! stones flip, and the turn state machine with pass counting and
//! double-pass termination.

pub mod board;
pub mod engine;
pub mod game;
