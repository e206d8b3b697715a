use vstd::prelude::*;
use crate::backgammon::{Dice, HalfMove, Move, Player, PositionCompressed};
use crate::misc::TinyVec;
use crate::rules::layout::{own_between, theirs_between, Layout, Spot, Step};
use crate::rules::moves::{
    bear_offs,
    entries,
    exact_offs,
    half_moves,
    over_with,
    overshoots,
    runs,
    runs_with,
    same_steps,
};
use crate::rules::laws::playable;
use crate::rules::roll::Roll;
use crate::rules::search::{
    all_sound,
    backwards,
    child,
    children,
    distinct,
    expand,
    known,
    legal_moves,
    lemma_child_sound,
    next_frontier,
    offspring,
    root,
    search,
    sound,
    Node,
};

verus! {

/// A backgammon position in 128 bits, always seen by the player to move.
///
/// Each of the two words holds twelve points of five bits (four for the
/// count, the fifth set for the opponent) above four bits for a bar: the
/// first word points 0..11 from the top down and the mover's bar, the second
/// points 12..23 from the bottom up and the opponent's bar. Exchanging the
/// words therefore reverses the board. An empty point never carries the
/// opponent's bit, so equal positions are equal bit for bit.
#[derive(Debug, Clone, Copy, PartialEq, Eq)]
pub struct Board {
    board: [u64; 2],
    home: u8,
    active_player: Player,
}

/// The opponent's bit of every point of a word.
pub const INVERT_SIGN_MASK: u64 = 0b1000010000100001000010000100001000010000100001000010000100000000;

/// The lowest count bit of every point of a word.
pub const LOW_BIT_MASK: u64 = 0b0000100001000010000100001000010000100001000010000100001000010000;

/// Where the five bits of point `i` start in its word.
pub open spec fn offset_of(i: int) -> int {
    if i < 12 {
        59 - 5 * i
    } else {
        5 * i - 56
    }
}

/// The five bits that start at `offset`.
pub open spec fn field(word: u64, offset: u64) -> u64 {
    (word >> offset) & 0x1F
}

/// The signed count that five bits stand for.
pub open spec fn decode(f: u64) -> int {
    if f & 0x10 == 0x10 {
        -((f & 0xF) as int)
    } else {
        (f & 0xF) as int
    }
}

/// A word with the side of every occupied point exchanged.
pub open spec fn flip_word(w: u64) -> u64 {
    w ^ (((w | (w >> 1) | (w >> 2) | (w >> 3)) & LOW_BIT_MASK) << 4)
}

/// Reading a point: its count and side are the low five bits at its offset.
proof fn lemma_field(w: u64, o: u64)
    by (bit_vector)
    requires
        o <= 59,
    ensures
        (w >> o) & 0xF == ((w >> o) & 0x1F) & 0xF,
        (w >> o) & 0x10 == ((w >> o) & 0x1F) & 0x10,
        (w >> o) & 0xF <= 15,
        (w >> o) & 0x1F <= 31,
        w & 0xF <= 15,
{
}

/// A count below 16 with or without the opponent's bit reads back as it is.
proof fn lemma_encode(a: u64)
    by (bit_vector)
    requires
        a <= 15,
    ensures
        a & 0xF == a,
        a & 0x10 == 0,
        (a | 0x10) & 0xF == a,
        (a | 0x10) & 0x10 == 0x10,
        a | 0x10 <= 31,
        a != 0 ==> a | 0x10 != 0x10,
        a != 0x10,
{
}

/// Writing a point changes its five bits to what is written and leaves the bar.
proof fn lemma_write(w: u64, o: u64, v: u64)
    by (bit_vector)
    requires
        4 <= o <= 59,
        v <= 31,
    ensures
        (((w & !(0x1Fu64 << o)) | (v << o)) >> o) & 0x1F == v,
        ((w & !(0x1Fu64 << o)) | (v << o)) & 0xF == w & 0xF,
{
}

/// Writing a point leaves the points that do not overlap it.
proof fn lemma_write_other(w: u64, o: u64, v: u64, o2: u64)
    by (bit_vector)
    requires
        o <= 59,
        o2 <= 59,
        v <= 31,
        o + 5 <= o2 || o2 + 5 <= o,
    ensures
        (((w & !(0x1Fu64 << o)) | (v << o)) >> o2) & 0x1F == (w >> o2) & 0x1F,
{
}

/// Writing the bar changes its four bits and leaves the points.
proof fn lemma_write_bar(w: u64, b: u64, o: u64)
    by (bit_vector)
    requires
        b <= 15,
        4 <= o <= 59,
    ensures
        ((w & !0xFu64) | b) & 0xF == b,
        (((w & !0xFu64) | b) >> o) & 0x1F == (w >> o) & 0x1F,
{
}

/// Flipping a word leaves the bar and the counts, and exchanges the side of
/// every occupied point.
proof fn lemma_flip_word(w: u64, o: u64)
    by (bit_vector)
    requires
        4 <= o <= 59,
        o % 5 == 4,
    ensures
        flip_word(w) & 0xF == w & 0xF,
        ((flip_word(w) >> o) & 0x1F) & 0xF == ((w >> o) & 0x1F) & 0xF,
        ((w >> o) & 0x1F) & 0xF != 0 ==> ((((flip_word(w) >> o) & 0x1F) & 0x10 == 0x10) <==> !(((w
            >> o) & 0x1F) & 0x10 == 0x10)),
        ((w >> o) & 0x1F) & 0xF == 0 ==> ((flip_word(w) >> o) & 0x1F) & 0x10 == ((w >> o) & 0x1F)
            & 0x10,
{
}

/// The empty word holds no checker.
proof fn lemma_zero()
    by (bit_vector)
    ensures
        forall|o: u64| #![auto] o <= 59 ==> (0u64 >> o) & 0x1F == 0,
        0u64 & 0xF == 0,
        0u64 & 0x10 == 0,
        0u8 & 0xF == 0,
        0u8 >> 4u8 == 0,
{
}

/// Five bits are their count and their side; only the bits `10000` have a
/// side without a count.
proof fn lemma_sign(f: u64)
    by (bit_vector)
    requires
        f <= 31,
    ensures
        f == (f & 0xF) | (f & 0x10),
        f & 0x10 == 0x10 || f & 0x10 == 0,
        (f == 0x10) <==> (f & 0xF == 0 && f & 0x10 == 0x10),
{
}

/// Words that agree in the bar and in every point are the same word.
proof fn lemma_same_word(a: u64, b: u64)
    by (bit_vector)
    requires
        a & 0xF == b & 0xF,
        (a >> 4) & 0x1F == (b >> 4) & 0x1F,
        (a >> 9) & 0x1F == (b >> 9) & 0x1F,
        (a >> 14) & 0x1F == (b >> 14) & 0x1F,
        (a >> 19) & 0x1F == (b >> 19) & 0x1F,
        (a >> 24) & 0x1F == (b >> 24) & 0x1F,
        (a >> 29) & 0x1F == (b >> 29) & 0x1F,
        (a >> 34) & 0x1F == (b >> 34) & 0x1F,
        (a >> 39) & 0x1F == (b >> 39) & 0x1F,
        (a >> 44) & 0x1F == (b >> 44) & 0x1F,
        (a >> 49) & 0x1F == (b >> 49) & 0x1F,
        (a >> 54) & 0x1F == (b >> 54) & 0x1F,
        (a >> 59) & 0x1F == (b >> 59) & 0x1F,
    ensures
        a == b,
{
}

/// Bytes that agree in both halves are the same byte.
proof fn lemma_same_home(a: u8, b: u8)
    by (bit_vector)
    requires
        a & 0xF == b & 0xF,
        a >> 4u8 == b >> 4u8,
    ensures
        a == b,
{
}

/// How the two halves of the home byte are read, written and exchanged.
proof fn lemma_home(h: u8)
    by (bit_vector)
    ensures
        h & 0xF <= 15,
        h >> 4u8 <= 15,
        ((h << 4u8) | (h >> 4u8)) & 0xF == h >> 4u8,
        ((h << 4u8) | (h >> 4u8)) >> 4u8 == h & 0xF,
        forall|v: u8| #![auto] ((h & 0xF0) | (v & 0xF)) & 0xF == v & 0xF,
        forall|v: u8| #![auto] ((h & 0xF0) | (v & 0xF)) >> 4u8 == h >> 4u8,
        forall|v: u8| #![auto] v <= 15 ==> v & 0xF == v,
{
}

/// What a list of half-moves with the dice left after each stands for.
pub open spec fn offers_of(list: Seq<(HalfMove, Dice)>) -> Seq<(Step, Roll)> {
    list.map_values(|e: (HalfMove, Dice)| (e.0@, e.1@))
}

/// What an entry of the move search stands for.
pub open spec fn node_of(e: (Dice, Board, Move)) -> Node {
    Node { roll: e.0@, layout: e.1@, steps: e.2@ }
}

/// What a list of entries of the move search stands for.
pub open spec fn nodes_of(list: Seq<(Dice, Board, Move)>) -> Seq<Node> {
    list.map_values(|e: (Dice, Board, Move)| node_of(e))
}

/// What a list of moves stands for.
pub open spec fn moves_of(list: Seq<Move>) -> Seq<Seq<Step>> {
    list.map_values(|m: Move| m@)
}

impl View for Board {
    type V = Layout;

    closed spec fn view(&self) -> Layout {
        Layout {
            points: Seq::new(24, |i: int| self.point(i)),
            active_bar: (self.board@[0] & 0xF) as int,
            passive_bar: (self.board@[1] & 0xF) as int,
            active_home: (self.home & 0xF) as int,
            passive_home: (self.home >> 4u8) as int,
            white_to_move: self.active_player == Player::White,
        }
    }
}

impl Board {
    /// The signed count that the bits of point `i` stand for.
    closed spec fn point(&self, i: int) -> int {
        decode(field(self.board@[i / 12], offset_of(i) as u64))
    }

    /// No empty point carries the opponent's bit.
    #[verifier::type_invariant]
    closed spec fn inv(&self) -> bool {
        forall|i: int| 0 <= i < 24 ==> #[trigger] field(self.board@[i / 12], offset_of(i) as u64)
            != 0x10
    }

    /// The standard starting position, white to move.
    pub fn new() -> (b: Self)
        ensures
            b@ == Layout::start(),
    {
        let mut b = Board::empty();
        b.set_active_player_checker_on_position(0, 2);
        b.set_passive_player_checker_on_position(5, 5);
        b.set_passive_player_checker_on_position(7, 3);
        b.set_active_player_checker_on_position(11, 5);
        b.set_passive_player_checker_on_position(12, 5);
        b.set_active_player_checker_on_position(16, 3);
        b.set_active_player_checker_on_position(18, 5);
        b.set_passive_player_checker_on_position(23, 2);
        assert(b@.points =~= Layout::start().points);
        b
    }

    /// The board without any checker, white to move.
    pub fn empty() -> (b: Self)
        ensures
            b@ == Layout::empty(),
    {
        let words: [u64; 2] = [0, 0];
        proof {
            lemma_zero();
            assert forall|i: int| 0 <= i < 24 implies #[trigger] field(
                words@[i / 12],
                offset_of(i) as u64,
            ) != 0x10 by {
                assert(offset_of(i) as u64 <= 59);
            }
        }
        let b = Board { board: words, home: 0, active_player: Player::White };
        proof {
            assert forall|i: int| 0 <= i < 24 implies b.point(i) == 0 by {
                assert(offset_of(i) as u64 <= 59);
            }
            assert(b@.points =~= Layout::empty().points);
        }
        b
    }

    /// The number of checkers that the player to move has on the bar.
    pub fn get_active_bar(&self) -> (n: u8)
        ensures
            n as int == self@.active_bar,
            n <= 15,
    {
        proof {
            lemma_field(self.board@[0], 4);
        }
        (self.board[0] & 0x000000000000000F) as u8
    }

    /// Puts `value` checkers of the player to move on the bar.
    pub fn set_active_bar(&mut self, value: u8)
        requires
            value <= 15,
        ensures
            final(self)@ == (Layout { active_bar: value as int, ..old(self)@ }),
    {
        let w = self.board[0];
        let n = (w & !0x000000000000000F) | (value as u64);
        proof {
            use_type_invariant(&*self);
            assert forall|i: int| 0 <= i < 12 implies field(n, offset_of(i) as u64) == field(
                w,
                #[trigger] offset_of(i) as u64,
            ) by {
                lemma_write_bar(w, value as u64, offset_of(i) as u64);
            }
            lemma_write_bar(w, value as u64, 4);
        }
        let ghost before = *self;
        self.board = [n, self.board[1]];
        proof {
            assert forall|i: int| 0 <= i < 24 implies self.point(i) == before.point(i) by {
                assert(offset_of(i) == offset_of(i));
                if i < 12 {
                    assert(field(n, offset_of(i) as u64) == field(w, offset_of(i) as u64));
                }
            }
            assert(self@.points =~= before@.points);
        }
    }

    /// The number of checkers that the opponent has on the bar.
    pub fn get_passive_bar(&self) -> (n: u8)
        ensures
            n as int == self@.passive_bar,
            n <= 15,
    {
        proof {
            lemma_field(self.board@[1], 4);
        }
        (self.board[1] & 0x000000000000000F) as u8
    }

    /// Puts `value` checkers of the opponent on the bar.
    pub fn set_passive_bar(&mut self, value: u8)
        requires
            value <= 15,
        ensures
            final(self)@ == (Layout { passive_bar: value as int, ..old(self)@ }),
    {
        let w = self.board[1];
        let n = (w & !0x000000000000000F) | (value as u64);
        proof {
            use_type_invariant(&*self);
            assert forall|i: int| 12 <= i < 24 implies field(n, offset_of(i) as u64) == field(
                w,
                #[trigger] offset_of(i) as u64,
            ) by {
                lemma_write_bar(w, value as u64, offset_of(i) as u64);
            }
            lemma_write_bar(w, value as u64, 4);
        }
        let ghost before = *self;
        self.board = [self.board[0], n];
        proof {
            assert forall|i: int| 0 <= i < 24 implies self.point(i) == before.point(i) by {
                assert(offset_of(i) == offset_of(i));
                if i >= 12 {
                    assert(field(n, offset_of(i) as u64) == field(w, offset_of(i) as u64));
                }
            }
            assert(self@.points =~= before@.points);
        }
    }

    /// The number of checkers that the player to move has borne off.
    pub fn get_active_home(&self) -> (n: u8)
        ensures
            n as int == self@.active_home,
            n <= 15,
    {
        proof {
            lemma_home(self.home);
        }
        self.home & 0xF
    }

    /// Sets the number of checkers that the player to move has borne off to
    /// the low four bits of `value`.
    pub fn set_active_home(&mut self, value: u8)
        ensures
            final(self)@ == (Layout { active_home: value as int % 16, ..old(self)@ }),
    {
        proof {
            use_type_invariant(&*self);
            lemma_home(self.home);
            assert(value & 0xF == value % 16) by (bit_vector);
        }
        let ghost before = *self;
        self.home = (self.home & 0xF0) | (value & 0xF);
        proof {
            assert(self@.points =~= before@.points);
        }
    }

    /// The number of checkers that the opponent has borne off.
    pub fn get_passive_home(&self) -> (n: u8)
        ensures
            n as int == self@.passive_home,
            n <= 15,
    {
        proof {
            lemma_home(self.home);
        }
        self.home >> 4u8
    }

    /// Who is to move.
    pub fn get_active_player(&self) -> (p: Player)
        ensures
            (p == Player::White) == self@.white_to_move,
    {
        self.active_player
    }

    /// Who has checkers on point `index`, if anyone.
    pub fn get_player_on_position(&self, index: u8) -> (p: Option<Player>)
        requires
            index < 24,
        ensures
            self@.points[index as int] == 0 ==> p is None,
            self@.points[index as int] > 0 ==> p is Some && ((p->Some_0 == Player::White)
                == self@.white_to_move),
            self@.points[index as int] < 0 ==> p is Some && ((p->Some_0 == Player::White)
                != self@.white_to_move),
    {
        let index_offset = Self::index_offset(index);
        let board_index = (index / 12) as usize;
        let val = self.board[board_index] >> (index_offset as u64);
        proof {
            lemma_field(self.board@[board_index as int], index_offset as u64);
            assert(self@.points[index as int] == self.point(index as int));
        }
        if val & 0xF == 0 {
            None
        } else if val & 0x10 == 0x10 {
            Some(self.active_player.opposite())
        } else {
            Some(self.active_player)
        }
    }

    /// How many checkers stand on point `index`, whosever they are.
    pub fn get_count_on_position(&self, index: u8) -> (n: u8)
        requires
            index < 24,
        ensures
            n as int == (if self@.points[index as int] < 0 {
                -self@.points[index as int]
            } else {
                self@.points[index as int]
            }),
    {
        let index_offset = Self::index_offset(index);
        let board_index = (index / 12) as usize;
        let val = self.board[board_index] >> (index_offset as u64);
        proof {
            lemma_field(self.board@[board_index as int], index_offset as u64);
            assert(self@.points[index as int] == self.point(index as int));
        }
        (val & 0xF) as u8
    }

    /// The checkers on point `index`: positive for the player to move,
    /// negative for the opponent.
    pub fn get_checkers_on_position(&self, index: u8) -> (v: i8)
        requires
            index < 24,
        ensures
            v as int == self@.points[index as int],
            -15 <= v <= 15,
    {
        let index_offset = Self::index_offset(index);
        let board_index = (index / 12) as usize;
        let val = self.board[board_index] >> (index_offset as u64);
        proof {
            lemma_field(self.board@[board_index as int], index_offset as u64);
            assert(self@.points[index as int] == self.point(index as int));
        }
        let abs = (val & 0xF) as i8;
        if val & 0x10 == 0x10 {
            -abs
        } else {
            abs
        }
    }

    /// Replaces the five bits of point `index` by `encoded`.
    fn store(&mut self, index: u8, encoded: u64)
        requires
            index < 24,
            encoded <= 31,
            encoded != 0x10,
        ensures
            final(self)@ == old(self)@.with_point(index as int, decode(encoded)),
    {
        let index_offset = Self::index_offset(index) as u64;
        let w = if index < 12 {
            self.board[0]
        } else {
            self.board[1]
        };
        let mask = 0x1Fu64 << index_offset;
        let n = (w & !mask) | (encoded << index_offset);
        let ghost before = *self;
        proof {
            use_type_invariant(&*self);
            lemma_write(w, index_offset, encoded);
            assert forall|i: int|
                0 <= i < 24 && i / 12 == index as int / 12 && i != index as int implies field(
                n,
                offset_of(i) as u64,
            ) == field(w, #[trigger] offset_of(i) as u64) by {
                lemma_write_other(w, index_offset, encoded, offset_of(i) as u64);
            }
        }
        if index < 12 {
            self.board = [n, self.board[1]];
        } else {
            self.board = [self.board[0], n];
        }
        proof {
            assert forall|i: int| 0 <= i < 24 && i != index as int implies self.point(i)
                == before.point(i) by {
                assert(offset_of(i) == offset_of(i));
                if i / 12 == index as int / 12 {
                    assert(field(n, offset_of(i) as u64) == field(w, offset_of(i) as u64));
                }
            }
            assert(self.point(index as int) == decode(encoded));
            assert(self@.points =~= before@.points.update(index as int, decode(encoded)));
        }
    }

    /// Puts `value` checkers on point `index`: a positive number for the
    /// player to move, a negative one for the opponent.
    pub fn set_checkers_on_position(&mut self, index: u8, value: i8)
        requires
            index < 24,
            -15 <= value <= 15,
        ensures
            final(self)@ == old(self)@.with_point(index as int, value as int),
    {
        if value < 0 {
            let abs = (-value) as u64;
            proof {
                lemma_encode(abs);
            }
            self.store(index, abs | 0x10);
        } else {
            let abs = value as u64;
            proof {
                lemma_encode(abs);
            }
            self.store(index, abs);
        }
    }

    /// Puts `value` checkers of the player to move on point `index`.
    pub fn set_active_player_checker_on_position(&mut self, index: u8, value: u8)
        requires
            index < 24,
            value <= 15,
        ensures
            final(self)@ == old(self)@.with_point(index as int, value as int),
    {
        proof {
            lemma_encode(value as u64);
        }
        self.store(index, value as u64);
    }

    /// Puts `value` checkers of the opponent on point `index`.
    pub fn set_passive_player_checker_on_position(&mut self, index: u8, value: u8)
        requires
            index < 24,
            value <= 15,
        ensures
            final(self)@ == old(self)@.with_point(index as int, -(value as int)),
    {
        proof {
            lemma_encode(value as u64);
        }
        if value == 0 {
            self.store(index, 0);
        } else {
            self.store(index, (value as u64) | 0x10);
        }
    }

    /// Where the five bits of point `index` start in its word.
    pub fn index_offset(index: u8) -> (offset: u8)
        requires
            index < 24,
        ensures
            offset as int == offset_of(index as int),
            4 <= offset <= 59,
    {
        if index < 12 {
            59 - 5 * index
        } else {
            5 * index - 56
        }
    }

    /// Hands the move to the other player: the board is turned round, the
    /// bars and the homes change sides.
    pub fn switch_player(&mut self)
        ensures
            final(self)@ == old(self)@.flipped(),
    {
        let a = self.board[0];
        let b = self.board[1];
        let sa = a ^ (((a | (a >> 1) | (a >> 2) | (a >> 3)) & LOW_BIT_MASK) << 4);
        let sb = b ^ (((b | (b >> 1) | (b >> 2) | (b >> 3)) & LOW_BIT_MASK) << 4);
        let ghost before = *self;
        let words: [u64; 2] = [sb, sa];
        proof {
            use_type_invariant(&*self);
            lemma_home(self.home);
            lemma_flip_word(a, 4);
            lemma_flip_word(b, 4);
            assert forall|i: int| 0 <= i < 24 implies decode(
                field(words@[i / 12], #[trigger] offset_of(i) as u64),
            ) == -before.point(23 - i) && field(words@[i / 12], offset_of(i) as u64) != 0x10 by {
                let o = offset_of(i) as u64;
                assert(offset_of(23 - i) == offset_of(i));
                assert((23 - i) / 12 == 1 - i / 12);
                lemma_flip_word(a, o);
                lemma_flip_word(b, o);
                lemma_field(a, o);
                lemma_field(b, o);
                lemma_field(sa, o);
                lemma_field(sb, o);
                assert(field(before.board@[(23 - i) / 12], offset_of(23 - i) as u64) != 0x10);
                lemma_sign(field(a, o));
                lemma_sign(field(b, o));
                lemma_sign(field(sa, o));
                lemma_sign(field(sb, o));
            }
        }
        self.board = words;
        self.active_player = self.active_player.opposite();
        self.home = (self.home << 4u8) | (self.home >> 4u8);
        proof {
            assert(self@.points =~= before@.flipped().points);
        }
    }

    /// The checkers on the six points of the mover's home board, points
    /// 18..23 in order.
    pub fn active_home_board(&self) -> (counts: [i8; 6])
        ensures
            forall|i: int| 0 <= i < 6 ==> (#[trigger] counts@[i]) as int == self@.points[18 + i],
    {
        [
            self.get_checkers_on_position(18),
            self.get_checkers_on_position(19),
            self.get_checkers_on_position(20),
            self.get_checkers_on_position(21),
            self.get_checkers_on_position(22),
            self.get_checkers_on_position(23),
        ]
    }

    /// Every half-move that one die of `dice` allows, each with the dice that
    /// are left after it. With a checker on the bar only re-entries are
    /// allowed; a checker may run to a point that is free, the mover's own or
    /// held by a single opposing checker; and where the mover may bear off, a
    /// die bears off from its own point, or, where no die finds a checker on
    /// its own point, from any point nearer to home.
    pub fn generate_half_moves(&self, dice: Dice) -> (list: TinyVec<(HalfMove, Dice), 64>)
        ensures
            offers_of(list@) == half_moves(self@, dice@),
    {
        let available_dice = dice.availiable_dice();
        let n = available_dice.len();
        let ghost s = self@;
        let ghost r = dice@;
        let ghost avail = r.available();
        let mut list: TinyVec<(HalfMove, Dice), 64> = TinyVec::new();
        proof {
            crate::rules::roll::lemma_available(r);
            assert(offers_of(list@) =~= Seq::<(Step, Roll)>::empty());
            assert(available_dice@.len() == avail.len());
        }
        if self.get_active_bar() == 0 {
            let mut k: u8 = 0;
            while k < n
                invariant
                    k <= n <= 2,
                    n as int == avail.len(),
                    s == self@,
                    r == dice@,
                    r.wf(),
                    avail == r.available(),
                    available_dice@.map_values(|d: u8| d as int) == avail,
                    offers_of(list@) == runs(s, r, k as int),
                    list@.len() <= 23 * k,
                decreases n - k,
            {
                let die = *available_dice.get(k as usize).unwrap();
                proof {
                    assert(avail[k as int] == die as int);
                    assert(avail.contains(die as int));
                    crate::rules::roll::lemma_spend(r, die as int);
                }
                let ghost base = list@;
                let mut i: u8 = 0;
                while i < 24 - die
                    invariant
                        i <= 24 - die,
                        1 <= die <= 6,
                        k < 2,
                        s == self@,
                        r == dice@,
                        r.available().contains(die as int),
                        offers_of(list@) == runs(s, r, k as int) + runs_with(
                            s,
                            r,
                            die as int,
                            i as int,
                        ),
                        list@.len() <= 23 * k + i,
                    decreases 24 - die - i,
                {
                    if self.get_checkers_on_position(i) > 0 && self.get_checkers_on_position(
                        i + die,
                    ) >= -1 {
                        let ghost before = list@;
                        list.push(
                            (
                                HalfMove::from_compressed(
                                    PositionCompressed::from_index(i),
                                    PositionCompressed::from_index(i + die),
                                ),
                                dice.use_die(die),
                            ),
                        );
                        assert(offers_of(list@) =~= offers_of(before).push(
                            (
                                Step {
                                    from: Spot::Point(i as int),
                                    to: Spot::Point(i as int + die as int),
                                },
                                r.spend(die as int),
                            ),
                        ));
                    }
                    i = i + 1;
                    assert(offers_of(list@) =~= runs(s, r, k as int) + runs_with(
                        s,
                        r,
                        die as int,
                        i as int,
                    ));
                }
                k = k + 1;
            }
            if self.active_player_can_bear_off() {
                let ghost moved = list@;
                let mut exact: u8 = 0;
                let mut k: u8 = 0;
                while k < n
                    invariant
                        k <= n <= 2,
                        n as int == avail.len(),
                        s == self@,
                        r == dice@,
                        r.wf(),
                        avail == r.available(),
                        available_dice@.map_values(|d: u8| d as int) == avail,
                        offers_of(moved) == runs(s, r, n as int),
                        offers_of(list@) == offers_of(moved) + exact_offs(s, r, k as int),
                        exact as int == exact_offs(s, r, k as int).len(),
                        exact <= k,
                        list@.len() == moved.len() + exact,
                        moved.len() <= 46,
                    decreases n - k,
                {
                    let die = *available_dice.get(k as usize).unwrap();
                    proof {
                        assert(avail[k as int] == die as int);
                        assert(avail.contains(die as int));
                        crate::rules::roll::lemma_spend(r, die as int);
                    }
                    if self.get_checkers_on_position(24 - die) > 0 {
                        let ghost before = list@;
                        list.push(
                            (
                                HalfMove::from_compressed(
                                    PositionCompressed::from_index(24 - die),
                                    PositionCompressed::home(),
                                ),
                                dice.use_die(die),
                            ),
                        );
                        exact = exact + 1;
                        assert(offers_of(list@) =~= offers_of(before).push(
                            (
                                Step { from: Spot::Point(24 - die as int), to: Spot::Home },
                                r.spend(die as int),
                            ),
                        ));
                    }
                    k = k + 1;
                    assert(offers_of(list@) =~= offers_of(moved) + exact_offs(s, r, k as int));
                }
                if exact == 0 {
                    assert(offers_of(list@) =~= offers_of(moved));
                    let mut k: u8 = 0;
                    while k < n
                        invariant
                            k <= n <= 2,
                            n as int == avail.len(),
                            s == self@,
                            r == dice@,
                            r.wf(),
                            avail == r.available(),
                            available_dice@.map_values(|d: u8| d as int) == avail,
                            offers_of(moved) == runs(s, r, n as int),
                            offers_of(list@) == offers_of(moved) + overshoots(s, r, k as int),
                            list@.len() <= moved.len() + 6 * k,
                            moved.len() <= 46,
                        decreases n - k,
                    {
                        let die = *available_dice.get(k as usize).unwrap();
                        proof {
                            assert(avail[k as int] == die as int);
                            assert(avail.contains(die as int));
                            crate::rules::roll::lemma_spend(r, die as int);
                        }
                        let mut p: u8 = 24 - die;
                        while p < 24
                            invariant
                                24 - die <= p <= 24,
                                1 <= die <= 6,
                                k < 2,
                                s == self@,
                                r == dice@,
                                r.available().contains(die as int),
                                offers_of(list@) == offers_of(moved) + overshoots(s, r, k as int)
                                    + over_with(s, r, die as int, p as int),
                                list@.len() <= moved.len() + 6 * k + (p - (24 - die)),
                                moved.len() <= 46,
                            decreases 24 - p,
                        {
                            if self.get_checkers_on_position(p) > 0 {
                                let ghost before = list@;
                                list.push(
                                    (
                                        HalfMove::from_compressed(
                                            PositionCompressed::from_index(p),
                                            PositionCompressed::home(),
                                        ),
                                        dice.use_die(die),
                                    ),
                                );
                                assert(offers_of(list@) =~= offers_of(before).push(
                                    (
                                        Step { from: Spot::Point(p as int), to: Spot::Home },
                                        r.spend(die as int),
                                    ),
                                ));
                            }
                            p = p + 1;
                            assert(offers_of(list@) =~= offers_of(moved) + overshoots(
                                s,
                                r,
                                k as int,
                            ) + over_with(s, r, die as int, p as int));
                        }
                        k = k + 1;
                        assert(offers_of(list@) =~= offers_of(moved) + overshoots(s, r, k as int));
                    }
                }
                assert(offers_of(list@) =~= runs(s, r, n as int) + bear_offs(s, r));
            }
        } else {
            let mut k: u8 = 0;
            while k < n
                invariant
                    k <= n <= 2,
                    n as int == avail.len(),
                    s == self@,
                    r == dice@,
                    r.wf(),
                    avail == r.available(),
                    available_dice@.map_values(|d: u8| d as int) == avail,
                    offers_of(list@) == entries(s, r, k as int),
                    list@.len() <= k,
                decreases n - k,
            {
                let die = *available_dice.get(k as usize).unwrap();
                proof {
                    assert(avail[k as int] == die as int);
                    assert(avail.contains(die as int));
                    crate::rules::roll::lemma_spend(r, die as int);
                }
                if self.get_checkers_on_position(die - 1) >= -1 {
                    let ghost before = list@;
                    list.push(
                        (
                            HalfMove::from_compressed(
                                PositionCompressed::bar(),
                                PositionCompressed::from_index(die - 1),
                            ),
                            dice.use_die(die),
                        ),
                    );
                    assert(offers_of(list@) =~= offers_of(before).push(
                        (
                            Step { from: Spot::Bar, to: Spot::Point(die as int - 1) },
                            r.spend(die as int),
                        ),
                    ));
                }
                k = k + 1;
            }
        }
        list
    }

    /// Every board is tidy, with counters of at most 15.
    pub proof fn lemma_bounded(&self)
        ensures
            self@.bounded(),
            self@.tidy(),
    {
        lemma_field(self.board@[0], 4);
        lemma_field(self.board@[1], 4);
        lemma_home(self.home);
        assert forall|i: int| 0 <= i < 24 implies -15 <= #[trigger] self@.points[i] <= 15 by {
            lemma_field(self.board@[i / 12], offset_of(i) as u64);
            assert(self@.points[i] == self.point(i));
        }
    }

    /// Whether neither player has more than 15 checkers, counting points,
    /// bar and home. The moves of such a board can be generated.
    pub fn checkers_fit(&self) -> (fit: bool)
        ensures
            fit == (self@.own_total() <= 15 && self@.their_total() <= 15),
    {
        let mut own: u16 = 0;
        let mut theirs: u16 = 0;
        let mut i: u8 = 0;
        while i < 24
            invariant
                i <= 24,
                own as int == own_between(self@.points, 0, i as int),
                theirs as int == theirs_between(self@.points, 0, i as int),
                own <= 15 * i,
                theirs <= 15 * i,
            decreases 24 - i,
        {
            let v = self.get_checkers_on_position(i);
            if v > 0 {
                own = own + v as u16;
            } else if v < 0 {
                theirs = theirs + (-v) as u16;
            }
            i = i + 1;
        }
        own + self.get_active_bar() as u16 + self.get_active_home() as u16 <= 15 && theirs
            + self.get_passive_bar() as u16 + self.get_passive_home() as u16 <= 15
    }

    /// Whether the two boards show the same position. Boards that do are
    /// equal bit for bit, so that `==` tells positions apart as well.
    pub fn same_position(&self, other: &Board) -> (same: bool)
        ensures
            same == (self@ == other@),
            same == (*self == *other),
    {
        proof {
            use_type_invariant(self);
            use_type_invariant(other);
            if self@ == other@ {
                assert forall|i: int| 0 <= i < 24 implies field(
                    self.board@[i / 12],
                    #[trigger] offset_of(i) as u64,
                ) == field(other.board@[i / 12], offset_of(i) as u64) by {
                    let f = field(self.board@[i / 12], offset_of(i) as u64);
                    let g = field(other.board@[i / 12], offset_of(i) as u64);
                    assert(self@.points[i] == self.point(i));
                    assert(other@.points[i] == other.point(i));
                    lemma_field(self.board@[i / 12], offset_of(i) as u64);
                    lemma_field(other.board@[i / 12], offset_of(i) as u64);
                    lemma_sign(f);
                    lemma_sign(g);
                    assert(f & 0xF == g & 0xF);
                    assert(f & 0x10 == g & 0x10);
                }
                assert(offset_of(11) == 4 && offset_of(10) == 9 && offset_of(9) == 14 && offset_of(8)
                    == 19 && offset_of(7) == 24 && offset_of(6) == 29 && offset_of(5) == 34
                    && offset_of(4) == 39 && offset_of(3) == 44 && offset_of(2) == 49 && offset_of(1)
                    == 54 && offset_of(0) == 59);
                assert(offset_of(12) == 4 && offset_of(13) == 9 && offset_of(14) == 14 && offset_of(
                    15,
                ) == 19 && offset_of(16) == 24 && offset_of(17) == 29 && offset_of(18) == 34
                    && offset_of(19) == 39 && offset_of(20) == 44 && offset_of(21) == 49
                    && offset_of(22) == 54 && offset_of(23) == 59);
                lemma_same_word(self.board@[0], other.board@[0]);
                lemma_same_word(self.board@[1], other.board@[1]);
                lemma_same_home(self.home, other.home);
            }
            if self.board@[0] == other.board@[0] && self.board@[1] == other.board@[1] {
                assert(self.board =~= other.board);
            }
        }
        self.board[0] == other.board[0] && self.board[1] == other.board[1] && self.home
            == other.home && self.active_player == other.active_player
    }

    /// The legal moves with `dice`: all the longest sequences of half-moves
    /// that can be played, one for each set of half-moves. Where nothing can
    /// be played, the one move without half-moves. Each move can be applied
    /// to this board.
    pub fn generate_moves(&self, dice: Dice) -> (moves: Vec<Move>)
        requires
            self@.own_total() <= 15,
            self@.their_total() <= 15,
        ensures
            moves_of(moves@) == legal_moves(self@, dice@),
            moves@.len() > 0,
            forall|i: int| 0 <= i < moves@.len() ==> playable(self@, #[trigger] moves@[i]@),
            forall|i: int| 0 <= i < moves@.len() ==> (#[trigger] moves@[i]@).len() == moves@[0]@.len(),
    {
        let ghost s0 = self@;
        let ghost r0 = dice@;
        let mut stack: Vec<(Dice, Board, Move)> = Vec::new();
        stack.push((dice, *self, Move::new()));
        let mut next_stack: Vec<(Dice, Board, Move)> = Vec::new();
        let mut best_result_len: u8 = 0;
        let mut results: Vec<Move> = Vec::new();
        let ghost mut frontier: Seq<Node> = seq![root(s0, r0)];
        let ghost mut ply: int = 0;
        let _ = dice.all_used();
        proof {
            self.lemma_bounded();
            crate::rules::roll::lemma_available(r0);
            assert(nodes_of(stack@) =~= frontier);
            assert(sound(frontier[0], s0, r0, 0));
        }
        loop
            invariant_except_break
                s0 == self@,
                r0 == dice@,
                s0.own_total() <= 15,
                s0.their_total() <= 15,
                r0.wf(),
                0 <= ply <= 4,
                nodes_of(stack@) == frontier,
                frontier.len() > 0,
                next_stack@.len() == 0,
                all_sound(frontier, s0, r0, ply),
                search(frontier, (4 - ply) as nat) == legal_moves(s0, r0),
                ply == 0 ==> results@.len() == 0,
                best_result_len as int == (if ply == 0 {
                    0
                } else {
                    ply - 1
                }),
            ensures
                moves_of(results@) == legal_moves(s0, r0),
                results@.len() > 0,
                forall|i: int| 0 <= i < results@.len() ==> playable(s0, #[trigger] results@[i]@),
                forall|i: int|
                    0 <= i < results@.len() ==> (#[trigger] results@[i]@).len() == results@[0]@.len(),
            decreases 4 - ply,
        {
            let ghost total = stack@.len();
            while stack.len() > 0
                invariant
                    s0 == self@,
                    r0 == dice@,
                    s0.own_total() <= 15,
                    s0.their_total() <= 15,
                    r0.wf(),
                    0 <= ply <= 4,
                    total == frontier.len(),
                    total > 0,
                    stack@.len() <= total,
                    nodes_of(stack@) == frontier.take(stack@.len() as int),
                    all_sound(frontier, s0, r0, ply),
                    nodes_of(next_stack@) == expand(frontier, stack@.len() as int),
                    stack@.len() == total ==> best_result_len as int == (if ply == 0 {
                        0
                    } else {
                        ply - 1
                    }),
                    stack@.len() == total && ply == 0 ==> results@.len() == 0,
                    stack@.len() < total ==> best_result_len as int == ply,
                    stack@.len() < total ==> moves_of(results@) == backwards(frontier).take(
                        total - stack@.len(),
                    ),
                decreases stack@.len(),
            {
                let ghost j = stack@.len() - 1;
                let ghost old_next = next_stack@;
                let ghost old_results = results@;
                let ghost old_stack = stack@;
                let (d, board, previous_moves) = stack.pop().unwrap();
                proof {
                    assert(nodes_of(old_stack)[j] == frontier[j]);
                    assert(node_of((d, board, previous_moves)) == frontier[j]);
                    assert(sound(frontier[j], s0, r0, ply));
                    assert(nodes_of(stack@) =~= frontier.take(j));
                }
                let ghost n = frontier[j];
                let previous_moves_len = previous_moves.len();
                if previous_moves_len > best_result_len {
                    results.clear();
                    best_result_len = previous_moves.len();
                    results.push(previous_moves);
                } else if previous_moves_len == best_result_len {
                    results.push(previous_moves);
                }
                proof {
                    assert(previous_moves@ == n.steps);
                    assert(backwards(frontier)[total - 1 - j] == n.steps);
                    if j == total - 1 {
                        assert(results@ =~= seq![previous_moves]);
                    } else {
                        assert(results@ =~= old_results.push(previous_moves));
                    }
                    assert(moves_of(results@) =~= backwards(frontier).take(total - j));
                }
                if !d.all_used() {
                    let half_moves = board.generate_half_moves(d);
                    let count = half_moves.len();
                    let mut idx: u8 = 0;
                    proof {
                        assert(nodes_of(next_stack@) =~= expand(frontier, j + 1) + children(n, 0));
                    }
                    while idx < count
                        invariant
                            idx <= count,
                            count as int == half_moves@.len(),
                            offers_of(half_moves@) == crate::rules::moves::half_moves(
                                n.layout,
                                n.roll,
                            ),
                            n == node_of((d, board, previous_moves)),
                            sound(n, s0, r0, ply),
                            s0.own_total() <= 15,
                            s0.their_total() <= 15,
                            r0.wf(),
                            nodes_of(next_stack@) == expand(frontier, j + 1) + children(
                                n,
                                idx as int,
                            ),
                        decreases count - idx,
                    {
                        let (hv, remaining_dice) = *half_moves.get(idx as usize).unwrap();
                        proof {
                            assert(offers_of(half_moves@)[idx as int] == (hv@, remaining_dice@));
                            lemma_child_sound(n, s0, r0, ply, idx as int);
                            crate::rules::roll::lemma_available(r0);
                        }
                        let mut board = board.clone();
                        board.make_halfmove_unchecked(&hv);
                        let mut mv = previous_moves;
                        mv.add_half_move(hv);
                        let ghost before = next_stack@;
                        next_stack.push((remaining_dice, board, mv));
                        idx = idx + 1;
                        proof {
                            assert(node_of((remaining_dice, board, mv)) == child(
                                n,
                                crate::rules::moves::half_moves(n.layout, n.roll)[idx - 1],
                            ));
                            assert(nodes_of(next_stack@) =~= nodes_of(before).push(
                                node_of((remaining_dice, board, mv)),
                            ));
                            assert(children(n, idx as int) =~= children(n, idx - 1).push(
                                child(n, crate::rules::moves::half_moves(n.layout, n.roll)[idx - 1]),
                            ));
                            assert(nodes_of(next_stack@) =~= expand(frontier, j + 1) + children(
                                n,
                                idx as int,
                            ));
                        }
                    }
                    proof {
                        assert(children(n, count as int) == offspring(n));
                    }
                } else {
                    proof {
                        assert(nodes_of(next_stack@) =~= expand(frontier, j + 1) + offspring(n));
                    }
                }
            }
            proof {
                assert(moves_of(results@) =~= backwards(frontier));
                crate::rules::search::lemma_next_sound(frontier, s0, r0, ply);
                assert forall|i: int| 0 <= i < results@.len() implies playable(
                    s0,
                    #[trigger] results@[i]@,
                ) && results@[i]@.len() == ply by {
                    assert(moves_of(results@)[i] == results@[i]@);
                    assert(sound(frontier[total - 1 - i], s0, r0, ply));
                }
            }
            if next_stack.len() == 0 {
                proof {
                    assert(nodes_of(next_stack@).len() == 0);
                }
                break ;
            }
            proof {
                assert(nodes_of(next_stack@).len() > 0);
            }
            stack.clear();
            let ghost next = nodes_of(next_stack@);
            let m = next_stack.len();
            let mut i: usize = 0;
            proof {
                assert(nodes_of(stack@) =~= distinct(next, 0));
            }
            while i < m
                invariant
                    i <= m,
                    m == next_stack@.len(),
                    next == nodes_of(next_stack@),
                    nodes_of(stack@) == distinct(next, i as int),
                decreases m - i,
            {
                let e = next_stack[i];
                let mut found = false;
                let mut q: usize = 0;
                let len = stack.len();
                while q < len
                    invariant
                        q <= len,
                        len == stack@.len(),
                        found == exists|t: int|
                            0 <= t < q && same_steps(
                                #[trigger] nodes_of(stack@)[t].steps,
                                e.2@,
                            ),
                    decreases len - q,
                {
                    if stack[q].2.unordered_equal(&e.2) {
                        found = true;
                        proof {
                            assert(same_steps(nodes_of(stack@)[q as int].steps, e.2@));
                        }
                    }
                    q = q + 1;
                }
                proof {
                    assert(next[i as int] == node_of(e));
                    assert(found == known(nodes_of(stack@), next[i as int].steps));
                }
                if !found {
                    let ghost before = stack@;
                    stack.push(e);
                    proof {
                        assert(nodes_of(stack@) =~= nodes_of(before).push(node_of(e)));
                    }
                }
                i = i + 1;
            }
            next_stack.clear();
            proof {
                assert(nodes_of(stack@) == next_frontier(frontier));
                assert(r0.uses_left() <= 4);
                frontier = next_frontier(frontier);
                ply = ply + 1;
            }
        }
        results
    }

    /// Moves one checker as `half_move` says: off the bar or off its point,
    /// then home or onto its target, where a single opposing checker is hit
    /// and goes to the bar.
    pub fn make_halfmove_unchecked(&mut self, half_move: &HalfMove)
        requires
            old(self)@.admits(half_move@),
            old(self)@.has_room(half_move@),
        ensures
            final(self)@ == old(self)@.step(half_move@),
    {
        proof {
            self.lemma_bounded();
        }
        let from = half_move.from().get();
        if from == 1 {
            let bar = self.get_active_bar();
            self.set_active_bar(bar - 1);
        } else if from >= 3 {
            let count = self.get_checkers_on_position(from - 3);
            self.set_checkers_on_position(from - 3, count - 1);
        }
        proof {
            self.lemma_bounded();
        }
        let to = half_move.to().get();
        if to == 2 {
            let home = self.get_active_home();
            self.set_active_home(home + 1);
        } else if to >= 3 {
            let mut count = self.get_checkers_on_position(to - 3);
            if count >= -1 {
                if count == -1 {
                    let bar = self.get_passive_bar();
                    self.set_passive_bar(bar + 1);
                    count = 0;
                }
                self.set_checkers_on_position(to - 3, count + 1);
            }
        }
    }

    /// Plays the whole move and hands the turn to the other player.
    pub fn make_move_unchecked(&mut self, full_move: Move)
        requires
            old(self)@.accepts(full_move@),
        ensures
            final(self)@ == old(self)@.after_move(full_move@),
    {
        let n = full_move.len();
        let mut i: u8 = 0;
        let ghost s0 = self@;
        while i < n
            invariant
                i <= n,
                n as int == full_move@.len(),
                s0.accepts(full_move@),
                self@ == s0.play(full_move@, i as int),
            decreases n - i,
        {
            let half_move = full_move.get(i as usize).unwrap();
            proof {
                assert(s0.play(full_move@, i as int).admits(full_move@[i as int]));
            }
            self.make_halfmove_unchecked(half_move);
            i = i + 1;
        }
        self.switch_player();
    }

    /// Whether the player to move may bear off: nothing on the bar and every
    /// checker in the home board or borne off already.
    pub fn active_player_can_bear_off(&self) -> (b: bool)
        ensures
            b == self@.can_bear_off(),
    {
        let mut sum: u8 = 0;
        let mut i: u8 = 18;
        while i < 24
            invariant
                18 <= i <= 24,
                sum as int == own_between(self@.points, 18, i as int),
                sum <= 15 * (i - 18),
            decreases 24 - i,
        {
            let v = self.get_checkers_on_position(i);
            if v > 0 {
                sum = sum + v as u8;
            }
            i = i + 1;
        }
        self.get_active_bar() == 0 && sum + self.get_active_home() == 15
    }
}

} // verus!
