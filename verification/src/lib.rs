//! A verified Reversi engine: the board, the capture rule, the turn protocol,
//! and the text formats of the console game built on top of it.

pub mod square;
pub mod grid;
pub mod rules;
pub mod board;
pub mod input;
pub mod render;
pub mod game;
