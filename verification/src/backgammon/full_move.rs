use vstd::prelude::*;
use crate::backgammon::HalfMove;
use crate::misc::TinyVec;
use crate::rules::layout::Step;
use crate::rules::moves::{lemma_absent, occurrences, same_steps};

verus! {

/// What one player does with one roll: up to four half-moves in order.
#[derive(Debug, Clone, Copy)]
pub struct Move {
    half_moves: TinyVec<HalfMove, 4>,
}

impl View for Move {
    type V = Seq<Step>;

    closed spec fn view(&self) -> Seq<Step> {
        self.half_moves@.map_values(|hm: HalfMove| hm@)
    }
}

impl Move {
    /// The half-moves themselves.
    pub closed spec fn half_moves(&self) -> Seq<HalfMove> {
        self.half_moves@
    }

    /// The move without any half-move.
    pub fn new() -> (m: Self)
        ensures
            m@ == Seq::<Step>::empty(),
    {
        let m = Move { half_moves: TinyVec::new() };
        assert(m@ =~= Seq::<Step>::empty());
        m
    }

    /// Appends `half_move`.
    pub fn add_half_move(&mut self, half_move: HalfMove)
        requires
            old(self)@.len() < 4,
        ensures
            final(self)@ == old(self)@.push(half_move@),
            final(self).half_moves() == old(self).half_moves().push(half_move),
    {
        let ghost before = self@;
        self.half_moves.push(half_move);
        assert(self@ =~= before.push(half_move@));
    }

    /// The number of half-moves.
    pub fn len(&self) -> (n: u8)
        ensures
            n as int == self@.len(),
    {
        self.half_moves.len()
    }

    /// The half-move at `idx`, if there is one.
    pub fn get(&self, idx: usize) -> (r: Option<&HalfMove>)
        ensures
            idx < self@.len() ==> r is Some && r->Some_0@ == self@[idx as int] && *r->Some_0
                == self.half_moves()[idx as int],
            idx >= self@.len() ==> r is None,
    {
        self.half_moves.get(idx)
    }

    /// How often `half_move` stands in this move.
    fn count(&self, half_move: &HalfMove) -> (n: u8)
        ensures
            n as int == occurrences(self@, half_move@, self@.len() as int),
    {
        let len = self.half_moves.len();
        let mut n: u8 = 0;
        let mut i: u8 = 0;
        while i < len
            invariant
                i <= len,
                len as int == self@.len(),
                n <= i,
                n as int == occurrences(self@, half_move@, i as int),
            decreases len - i,
        {
            let hm = self.half_moves.get(i as usize).unwrap();
            proof {
                if hm@ == half_move@ {
                    HalfMove::lemma_view_injective(*hm, *half_move);
                }
            }
            if *hm == *half_move {
                n = n + 1;
            }
            i = i + 1;
        }
        n
    }

    /// Whether the two moves hold the same half-moves the same number of
    /// times, in whatever order.
    pub fn unordered_equal(&self, other: &Self) -> (eq: bool)
        ensures
            eq == same_steps(self@, other@),
    {
        let mut i: u8 = 0;
        let n = self.half_moves.len();
        while i < n
            invariant
                i <= n,
                n as int == self@.len(),
                forall|j: int|
                    0 <= j < i ==> occurrences(self@, #[trigger] self@[j], self@.len() as int)
                        == occurrences(other@, self@[j], other@.len() as int),
            decreases n - i,
        {
            let hm = self.half_moves.get(i as usize).unwrap();
            if self.count(hm) != other.count(hm) {
                return false;
            }
            i = i + 1;
        }
        let mut k: u8 = 0;
        let m = other.half_moves.len();
        while k < m
            invariant
                k <= m,
                m as int == other@.len(),
                forall|j: int|
                    0 <= j < k ==> occurrences(self@, #[trigger] other@[j], self@.len() as int)
                        == occurrences(other@, other@[j], other@.len() as int),
            decreases m - k,
        {
            let hm = other.half_moves.get(k as usize).unwrap();
            if self.count(hm) != other.count(hm) {
                return false;
            }
            k = k + 1;
        }
        proof {
            assert forall|st: Step| #[trigger]
                occurrences(self@, st, self@.len() as int) == occurrences(
                    other@,
                    st,
                    other@.len() as int,
                ) by {
                if exists|j: int| 0 <= j < self@.len() && self@[j] == st {
                    let j = choose|j: int| 0 <= j < self@.len() && self@[j] == st;
                    assert(self@[j] == st);
                } else if exists|j: int| 0 <= j < other@.len() && other@[j] == st {
                    let j = choose|j: int| 0 <= j < other@.len() && other@[j] == st;
                    assert(other@[j] == st);
                } else {
                    lemma_absent(self@, st, self@.len() as int);
                    lemma_absent(other@, st, other@.len() as int);
                }
            }
        }
        true
    }
}

} // verus!
