use vstd::prelude::*;
use crate::backgammon::{Position, PositionCompressed};
use crate::rules::layout::Step;

verus! {

/// One checker moved by one die, from one position to another.
#[derive(Debug, Clone, Copy, PartialEq, Eq, Hash, Structural)]
pub struct HalfMove {
    from: PositionCompressed,
    to: PositionCompressed,
}

impl View for HalfMove {
    type V = Step;

    closed spec fn view(&self) -> Step {
        Step { from: self.from@, to: self.to@ }
    }
}

impl HalfMove {
    /// The half-move from `from` to `to`.
    pub fn from_compressed(from: PositionCompressed, to: PositionCompressed) -> (hm: Self)
        ensures
            hm@ == (Step { from: from@, to: to@ }),
    {
        HalfMove { from, to }
    }

    /// The half-move from `from` to `to`, given as spelled-out positions.
    pub fn from_position(from: Position, to: Position) -> (hm: Self)
        requires
            from matches Position::Board(i) ==> i < 24,
            to matches Position::Board(i) ==> i < 24,
        ensures
            hm@ == (Step { from: from@, to: to@ }),
    {
        HalfMove {
            from: PositionCompressed::from_position(from),
            to: PositionCompressed::from_position(to),
        }
    }

    /// Where the checker is taken.
    pub fn from(&self) -> (p: &PositionCompressed)
        ensures
            p@ == self@.from,
    {
        &self.from
    }

    /// Where the checker is put.
    pub fn to(&self) -> (p: &PositionCompressed)
        ensures
            p@ == self@.to,
    {
        &self.to
    }

    /// Two half-moves with the same meaning are the same value.
    pub proof fn lemma_view_injective(a: Self, b: Self)
        requires
            a@ == b@,
        ensures
            a == b,
    {
        PositionCompressed::lemma_view_injective(a.from, b.from);
        PositionCompressed::lemma_view_injective(a.to, b.to);
    }
}

} // verus!
