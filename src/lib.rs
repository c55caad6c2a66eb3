//! A FreeCell solitaire solver: the board model, the state fingerprint, a
//! graded frontier of candidate paths and a best-first branch-and-bound search.
pub mod autoplay;
pub mod basis;
pub mod board;
pub mod consumer;
pub mod deck;
pub mod fingerprint;
pub mod game;
pub mod grader;
pub mod moves;
pub mod solver;
