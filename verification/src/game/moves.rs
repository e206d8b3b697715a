use vstd::prelude::*;
use crate::game::TinyVector;
use crate::game::tiny_vector::without_first;
use crate::rules::layout::{Spot, Step};
use crate::rules::moves::{lemma_absent, occurrences, same_steps};

verus! {

/// A place where a checker can stand: home, the bar, or a point 0..23
/// counted in the mover's direction.
#[derive(Debug, Clone, Copy, PartialEq, Eq, Structural)]
pub enum PositionEnum {
    Home,
    Bar,
    Board(u8),
}

impl View for PositionEnum {
    type V = Spot;

    open spec fn view(&self) -> Spot {
        match self {
            PositionEnum::Bar => Spot::Bar,
            PositionEnum::Home => Spot::Home,
            PositionEnum::Board(i) => Spot::Point(*i as int),
        }
    }
}

/// A position in one non-zero byte: 255 is home, 254 the bar, `i + 1` is
/// point `i`.
#[derive(Debug, Clone, Copy, PartialEq, Eq, Structural)]
pub struct Position {
    position: u8,
}

impl View for Position {
    type V = Spot;

    closed spec fn view(&self) -> Spot {
        if self.position == 255 {
            Spot::Home
        } else if self.position == 254 {
            Spot::Bar
        } else {
            Spot::Point(self.position - 1)
        }
    }
}

impl Position {
    #[verifier::type_invariant]
    closed spec fn inv(&self) -> bool {
        self.position != 0
    }

    /// The compact form of `position`.
    pub fn from_enum(position: PositionEnum) -> (p: Self)
        requires
            position matches PositionEnum::Board(n) ==> n < 24,
        ensures
            p@ == position@,
    {
        match position {
            PositionEnum::Board(n) => Position { position: n + 1 },
            PositionEnum::Bar => Position { position: 254 },
            PositionEnum::Home => Position { position: 255 },
        }
    }

    /// The position spelled out.
    pub fn to_enum(&self) -> (position: PositionEnum)
        ensures
            position@ == self@,
            position matches PositionEnum::Board(n) ==> n <= 252,
    {
        proof {
            use_type_invariant(self);
        }
        if self.position == 255 {
            PositionEnum::Home
        } else if self.position == 254 {
            PositionEnum::Bar
        } else {
            PositionEnum::Board(self.position - 1)
        }
    }

    /// Two compact positions with the same meaning are the same byte.
    pub proof fn lemma_view_injective(a: Self, b: Self)
        requires
            a@ == b@,
        ensures
            a == b,
    {
    }
}

/// One checker moved by one die, from one position to another.
#[derive(Debug, Clone, Copy, PartialEq, Eq, Structural)]
pub struct HalfMove {
    pub from: Position,
    pub to: Position,
}

impl View for HalfMove {
    type V = Step;

    open spec fn view(&self) -> Step {
        Step { from: self.from@, to: self.to@ }
    }
}

/// What one player does with one roll: up to four half-moves in order.
#[derive(Debug, Clone, Copy)]
pub struct Move {
    half_moves: TinyVector<HalfMove, 4>,
}

impl View for Move {
    type V = Seq<Step>;

    closed spec fn view(&self) -> Seq<Step> {
        self.half_moves@.map_values(|hm: HalfMove| hm@)
    }
}

impl Move {
    /// Whether the two moves hold the same half-moves the same number of
    /// times, in whatever order.
    pub fn unordered_equal(&self, other: &Move) -> (eq: bool)
        ensures
            eq == same_steps(self@, other@),
    {
        let mut i: u8 = 0;
        let n = self.half_moves.len();
        while i < n
            invariant
                i <= n,
                n as int == self@.len(),
                forall|j: int|
                    0 <= j < i ==> occurrences(self@, #[trigger] self@[j], self@.len() as int)
                        == occurrences(other@, self@[j], other@.len() as int),
            decreases n - i,
        {
            let hm = self.half_moves.get(i as usize).unwrap();
            if self.count(hm) != other.count(hm) {
                return false;
            }
            i = i + 1;
        }
        let mut k: u8 = 0;
        let m = other.half_moves.len();
        while k < m
            invariant
                k <= m,
                m as int == other@.len(),
                forall|j: int|
                    0 <= j < k ==> occurrences(self@, #[trigger] other@[j], self@.len() as int)
                        == occurrences(other@, other@[j], other@.len() as int),
            decreases m - k,
        {
            let hm = other.half_moves.get(k as usize).unwrap();
            if self.count(hm) != other.count(hm) {
                return false;
            }
            k = k + 1;
        }
        proof {
            assert forall|st: Step| #[trigger]
                occurrences(self@, st, self@.len() as int) == occurrences(
                    other@,
                    st,
                    other@.len() as int,
                ) by {
                if exists|j: int| 0 <= j < self@.len() && self@[j] == st {
                    let j = choose|j: int| 0 <= j < self@.len() && self@[j] == st;
                    assert(self@[j] == st);
                } else if exists|j: int| 0 <= j < other@.len() && other@[j] == st {
                    let j = choose|j: int| 0 <= j < other@.len() && other@[j] == st;
                    assert(other@[j] == st);
                } else {
                    lemma_absent(self@, st, self@.len() as int);
                    lemma_absent(other@, st, other@.len() as int);
                }
            }
        }
        true
    }

    /// How often `half_move` stands in this move.
    fn count(&self, half_move: &HalfMove) -> (n: u8)
        ensures
            n as int == occurrences(self@, half_move@, self@.len() as int),
    {
        let len = self.half_moves.len();
        let mut n: u8 = 0;
        let mut i: u8 = 0;
        while i < len
            invariant
                i <= len,
                len as int == self@.len(),
                n <= i,
                n as int == occurrences(self@, half_move@, i as int),
            decreases len - i,
        {
            let hm = self.half_moves.get(i as usize).unwrap();
            proof {
                if hm@ == half_move@ {
                    Position::lemma_view_injective(hm.from, half_move.from);
                    Position::lemma_view_injective(hm.to, half_move.to);
                }
            }
            if *hm == *half_move {
                n = n + 1;
            }
            i = i + 1;
        }
        n
    }

    /// The move without any half-move.
    pub fn new() -> (m: Self)
        ensures
            m@ == Seq::<Step>::empty(),
    {
        let m = Move { half_moves: TinyVector::new() };
        assert(m@ =~= Seq::<Step>::empty());
        m
    }

    /// Appends `half_move`.
    pub fn append(&mut self, half_move: HalfMove)
        requires
            old(self)@.len() < 4,
        ensures
            final(self)@ == old(self)@.push(half_move@),
    {
        let ghost before = self@;
        self.half_moves.push(half_move);
        assert(self@ =~= before.push(half_move@));
    }

    /// The number of half-moves.
    pub fn len(&self) -> (n: usize)
        ensures
            n == self@.len(),
            n <= 4,
    {
        self.half_moves.len() as usize
    }

    /// The half-moves in order.
    pub fn get_half_moves(&self) -> (all: Vec<HalfMove>)
        ensures
            all@.map_values(|hm: HalfMove| hm@) == self@,
            all@.len() <= 4,
    {
        let _ = self.half_moves.len();
        self.half_moves.iter()
    }

    /// Takes out the first half-move equal to `half_move`, if there is one.
    pub fn remove_half_move(&mut self, half_move: &HalfMove)
        ensures
            final(self)@ == without_first(old(self)@, |st: Step| st == half_move@),
    {
        let ghost before = self@;
        let ghost hit = |st: Step| st == half_move@;
        let n = self.half_moves.len() as usize;
        let mut pos: usize = 0;
        while pos < n
            invariant
                pos <= n,
                n == self@.len(),
                self@ == before,
                forall|j: int| 0 <= j < pos ==> (#[trigger] before[j]) != half_move@,
            ensures
                pos <= n,
                forall|j: int| 0 <= j < pos ==> (#[trigger] before[j]) != half_move@,
                pos < n ==> before[pos as int] == half_move@,
            decreases n - pos,
        {
            let hm = self.half_moves.get(pos).unwrap();
            proof {
                if hm@ == half_move@ {
                    Position::lemma_view_injective(hm.from, half_move.from);
                    Position::lemma_view_injective(hm.to, half_move.to);
                }
            }
            if *hm == *half_move {
                break ;
            }
            pos = pos + 1;
        }
        proof {
            crate::game::tiny_vector::lemma_without_first(before, hit, pos as int);
        }
        if pos < n {
            let ghost raw = self.half_moves@;
            self.half_moves.remove_at(pos);
            assert(self@ =~= before.remove(pos as int));
        }
    }
}

} // verus!
