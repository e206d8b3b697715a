use vstd::prelude::*;
use crate::backgammon::{Board, Player};
use crate::rules::layout::Layout;

verus! {

/// A game in progress: the board, who is to move and what each player has
/// borne off, white first.
pub struct Game {
    board: Board,
    active_player: Player,
    home: [u8; 2],
}

impl Game {
    /// The position of the game.
    pub closed spec fn position(&self) -> Layout {
        self.board@
    }

    /// A game at its start, white to move.
    pub fn new() -> (game: Self)
        ensures
            game.position() == Layout::start(),
    {
        Game { board: Board::new(), active_player: Player::White, home: [0, 0] }
    }
}

} // verus!
