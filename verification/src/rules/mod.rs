//! The game as mathematics: positions, rolls and the rules of movement,
//! independent of how a board is stored. The executable types in the other
//! modules state their contracts over these definitions.
//!
//! What is proved of the rules: a legal move keeps every checker
//! ([`laws`]); turning the board round twice gives it back ([`layout`]);
//! the legal moves have one length, which no sequence of half-moves that
//! the rules offer exceeds ([`laws`], [`longest`]); every offered half-move
//! goes where a checker may stand ([`moves`], [`laws`]); holding the same
//! half-moves in any order is an equivalence, and no two legal moves are
//! alike in it ([`laws`]); the score of a running game stays far from the
//! score of a game won ([`value`]); the 21 rolls weigh 36 together
//! ([`roll`]); and no two positions share a key ([`expect`]).

pub mod counting;
pub mod expect;
pub mod laws;
pub mod layout;
pub mod lines;
pub mod longest;
pub mod moves;
pub mod net;
pub mod offers;
pub mod roll;
pub mod search;
pub mod value;
