//! Sliding-tile puzzle: the board state with its move rules, and the
//! compositing of a picture's tiles according to the board.
pub mod board;

pub mod compositor;
pub mod game;
