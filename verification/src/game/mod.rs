//! The plain representation: a board as an array of signed counts, dice as
//! an enum. This is the board that is evaluated and searched.

pub mod tiny_vector;
pub use tiny_vector::TinyVector;

pub mod board;
pub use board::Board;

pub mod player;
pub use player::GameOutcome;
pub use player::Player;

pub mod dice;
pub use dice::Dice;
pub use dice::DiceUsage;

pub mod moves;
pub use moves::HalfMove;
pub use moves::Move;
pub use moves::Position;
pub use moves::PositionEnum;

pub mod text;
