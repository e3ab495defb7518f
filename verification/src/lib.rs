//! A minesweeper board engine: seeded mine placement, Moore-neighborhood
//! adjacency, flood-fill revealing, flagging, win/lose evaluation, and a
//! plain-text state serialization that reconstructs a board exactly.

pub mod cell;
pub mod counting;
pub mod grid;
pub mod text;
pub mod seeding;
pub mod board;
pub mod codec;
pub mod laws;

pub use board::{Board, BoardError};
pub use cell::Cell;
