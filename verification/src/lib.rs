//! A backgammon engine core: board state, legal-move generation and search,
//! with machine-checked contracts.
//!
//! - [`rules`] states the game as mathematics: positions, rolls, the
//!   half-moves that a roll allows, the legal moves, the score of a position
//!   and the value that a search computes, together with what is proved of
//!   them.
//! - [`backgammon`] holds the bit-packed board and dice.
//! - [`game`] holds the plain board and dice, with outcome and evaluation.
//! - [`engine`] selects moves: expectimax with alpha-beta windows, random
//!   play-outs and a Monte-Carlo tree search.
//! - [`misc`] holds the small containers and the trusted edges: random
//!   numbers and the table of scores.

pub mod backgammon;
pub mod engine;
pub mod game;
pub mod misc;
pub mod rules;
