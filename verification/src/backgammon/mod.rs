//! The bit-packed representation: a board in two machine words, dice in one
//! byte, positions in one byte.

pub mod board;
pub use board::Board;

pub mod player;
pub use player::Player;

pub mod position;
pub use position::Position;
pub use position::PositionCompressed;

pub mod game;
pub use game::Game;

pub mod halfmove;
pub use halfmove::HalfMove;

pub mod full_move;
pub use full_move::Move;

pub mod dice;
pub use dice::Dice;
