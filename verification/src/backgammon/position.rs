use vstd::prelude::*;
use crate::rules::layout::Spot;

verus! {

/// A place where a checker can stand: the bar, home, or a point 0..23
/// counted in the mover's direction.
#[derive(Debug, Clone, Copy, PartialEq, Eq, Hash, Structural)]
pub enum Position {
    Bar,
    Home,
    Board(u8),
}

impl View for Position {
    type V = Spot;

    open spec fn view(&self) -> Spot {
        match self {
            Position::Bar => Spot::Bar,
            Position::Home => Spot::Home,
            Position::Board(i) => Spot::Point(*i as int),
        }
    }
}

/// A position in one non-zero byte: 1 is the bar, 2 is home, `i + 3` is
/// point `i`.
#[derive(Debug, Clone, Copy, PartialEq, Eq, Hash, Structural)]
pub struct PositionCompressed {
    data: u8,
}

impl View for PositionCompressed {
    type V = Spot;

    closed spec fn view(&self) -> Spot {
        if self.data == 1 {
            Spot::Bar
        } else if self.data == 2 {
            Spot::Home
        } else {
            Spot::Point(self.data - 3)
        }
    }
}

impl PositionCompressed {
    #[verifier::type_invariant]
    closed spec fn inv(&self) -> bool {
        self.data != 0
    }

    /// The byte `data` read as a position.
    pub open spec fn decode(data: u8) -> Spot {
        if data == 1 {
            Spot::Bar
        } else if data == 2 {
            Spot::Home
        } else {
            Spot::Point(data - 3)
        }
    }

    /// The position that the encoding `data` stands for.
    pub fn new(data: u8) -> (p: Self)
        requires
            data != 0,
        ensures
            p@ == Self::decode(data),
    {
        PositionCompressed { data }
    }

    /// The encoding: 1 for the bar, 2 for home, `i + 3` for point `i`.
    pub fn get(&self) -> (data: u8)
        ensures
            data != 0,
            self@ == Self::decode(data),
    {
        proof {
            use_type_invariant(self);
        }
        self.data
    }

    /// Point `index` of the board.
    pub fn from_index(index: u8) -> (p: Self)
        requires
            index < 24,
        ensures
            p@ == Spot::Point(index as int),
    {
        PositionCompressed { data: index + 3 }
    }

    /// The bar.
    pub fn bar() -> (p: Self)
        ensures
            p@ == Spot::Bar,
    {
        PositionCompressed { data: 1 }
    }

    /// Off the board.
    pub fn home() -> (p: Self)
        ensures
            p@ == Spot::Home,
    {
        PositionCompressed { data: 2 }
    }

    /// The compact form of `pos`.
    pub fn from_position(pos: Position) -> (p: Self)
        requires
            pos matches Position::Board(i) ==> i < 24,
        ensures
            p@ == pos@,
    {
        match pos {
            Position::Bar => PositionCompressed { data: 1 },
            Position::Home => PositionCompressed { data: 2 },
            Position::Board(index) => PositionCompressed { data: index + 3 },
        }
    }

    /// The position spelled out.
    pub fn to_position(&self) -> (pos: Position)
        ensures
            pos@ == self@,
    {
        proof {
            use_type_invariant(self);
        }
        if self.data == 1 {
            Position::Bar
        } else if self.data == 2 {
            Position::Home
        } else {
            Position::Board(self.data - 3)
        }
    }

    /// Two compact positions with the same meaning are the same byte.
    pub proof fn lemma_view_injective(a: Self, b: Self)
        requires
            a@ == b@,
        ensures
            a == b,
    {
    }
}

} // verus!
