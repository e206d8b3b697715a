use vstd::prelude::*;

verus! {

/// One of the two players.
#[derive(Debug, Clone, Copy, PartialEq, Eq, Hash, Structural)]
pub enum Player {
    White,
    Black,
}

impl Player {
    /// The other player.
    pub fn opposite(&self) -> (p: Player)
        ensures
            p != *self,
    {
        match self {
            Player::White => Player::Black,
            Player::Black => Player::White,
        }
    }
}

/// How a game stands: still running, or won by a player in one of three
/// degrees.
#[derive(Debug, Clone, Copy, PartialEq, Eq, Structural)]
pub enum GameOutcome {
    Win(Player),
    Gammon(Player),
    Backgammon(Player),
    Ongoing,
}

} // verus!
