use vstd::prelude::*;
use crate::game::{
    Dice,
    DiceUsage,
    GameOutcome,
    HalfMove,
    Move,
    Player,
    Position,
    PositionEnum,
    TinyVector,
};
use crate::rules::layout::{own_between, theirs_between, Layout, Spot, Step};
use crate::rules::moves::{
    bear_offs,
    entries,
    exact_offs,
    half_moves,
    over_with,
    overshoots,
    runs,
    runs_with,
    same_steps,
};
use crate::misc::cache::Key;
use crate::rules::expect::{key_of, lemma_pow31, points_code, pow31};
use crate::rules::laws::playable;
use crate::rules::roll::Roll;
use crate::rules::search::{
    all_sound,
    backwards,
    child,
    children,
    distinct,
    expand,
    known,
    legal_moves,
    lemma_child_sound,
    next_frontier,
    offspring,
    root,
    search,
    sound,
    Node,
};
use crate::rules::value::{points_value, rank, score, score_for_white};

verus! {

/// A backgammon position as 24 signed counts, always seen by the player to
/// move: positive counts are the mover's checkers, negative ones the
/// opponent's.
#[derive(Debug, Clone, Copy, PartialEq, Hash, Eq)]
pub struct Board {
    board: [i8; 24],
    active_bar: u8,
    inactive_bar: u8,
    active_home: u8,
    inactive_home: u8,
    active_player: Player,
}

/// What a list of half-moves with the dice left after each stands for.
pub open spec fn offers_of(list: Seq<(HalfMove, Dice)>) -> Seq<(Step, Roll)> {
    list.map_values(|e: (HalfMove, Dice)| (e.0@, e.1@))
}

/// What an entry of the move search stands for.
pub open spec fn node_of(e: (Dice, Board, Move)) -> Node {
    Node { roll: e.0@, layout: e.1@, steps: e.2@ }
}

/// What a list of entries of the move search stands for.
pub open spec fn nodes_of(list: Seq<(Dice, Board, Move)>) -> Seq<Node> {
    list.map_values(|e: (Dice, Board, Move)| node_of(e))
}

/// What a list of moves stands for.
pub open spec fn moves_of(list: Seq<Move>) -> Seq<Seq<Step>> {
    list.map_values(|m: Move| m@)
}

/// The outcome that stands for `rank` when `mover` is to move.
pub open spec fn outcome_of(rank: int, mover: Player) -> GameOutcome {
    let other = if mover == Player::White {
        Player::Black
    } else {
        Player::White
    };
    if rank == 1 {
        GameOutcome::Win(mover)
    } else if rank == 2 {
        GameOutcome::Gammon(mover)
    } else if rank == 3 {
        GameOutcome::Backgammon(mover)
    } else if rank == -1 {
        GameOutcome::Win(other)
    } else if rank == -2 {
        GameOutcome::Gammon(other)
    } else if rank == -3 {
        GameOutcome::Backgammon(other)
    } else {
        GameOutcome::Ongoing
    }
}

/// The blots that the first `n` steps of `steps` would hit on `points`, each
/// counted by the index of its point.
pub open spec fn hit_value(points: Seq<int>, steps: Seq<Step>, n: int) -> int
    decreases n,
{
    if n <= 0 {
        0
    } else {
        hit_value(points, steps, n - 1) + match steps[n - 1].to {
            Spot::Point(j) => if 0 <= j < 24 && points[j] == -1 {
                j
            } else {
                0
            },
            _ => 0,
        }
    }
}

impl View for Board {
    type V = Layout;

    closed spec fn view(&self) -> Layout {
        Layout {
            points: self.board@.map_values(|v: i8| v as int),
            active_bar: self.active_bar as int,
            passive_bar: self.inactive_bar as int,
            active_home: self.active_home as int,
            passive_home: self.inactive_home as int,
            white_to_move: self.active_player == Player::White,
        }
    }
}

impl Board {
    /// No point, bar or home holds more than 15 checkers.
    #[verifier::type_invariant]
    closed spec fn inv(&self) -> bool {
        &&& forall|i: int| 0 <= i < 24 ==> -15 <= #[trigger] self.board@[i] <= 15
        &&& self.active_bar <= 15
        &&& self.inactive_bar <= 15
        &&& self.active_home <= 15
        &&& self.inactive_home <= 15
    }

    /// The player to move as the layout names it.
    pub open spec fn mover(&self) -> Player {
        if self@.white_to_move {
            Player::White
        } else {
            Player::Black
        }
    }

    /// The board with the given counts, or `None` where one of them is
    /// beyond 15.
    pub fn from_parts(
        points: [i8; 24],
        active_bar: u8,
        inactive_bar: u8,
        active_home: u8,
        inactive_home: u8,
        active_player: Player,
    ) -> (b: Option<Board>)
        ensures
            b is Some <==> (active_bar <= 15 && inactive_bar <= 15 && active_home <= 15
                && inactive_home <= 15 && forall|i: int|
                0 <= i < 24 ==> -15 <= #[trigger] points@[i] <= 15),
            b is Some ==> b->Some_0@ == (Layout {
                points: points@.map_values(|v: i8| v as int),
                active_bar: active_bar as int,
                passive_bar: inactive_bar as int,
                active_home: active_home as int,
                passive_home: inactive_home as int,
                white_to_move: active_player == Player::White,
            }),
    {
        if active_bar > 15 || inactive_bar > 15 || active_home > 15 || inactive_home > 15 {
            return None;
        }
        let mut i: usize = 0;
        while i < 24
            invariant
                i <= 24,
                forall|j: int| 0 <= j < i ==> -15 <= #[trigger] points@[j] <= 15,
            decreases 24 - i,
        {
            if points[i] < -15 || points[i] > 15 {
                return None;
            }
            i = i + 1;
        }
        Some(
            Board {
                board: points,
                active_bar,
                inactive_bar,
                active_home,
                inactive_home,
                active_player,
            },
        )
    }

    /// The key under which a table holds the score of this position with
    /// `dice`.
    pub fn cache_key(&self, dice: &Dice) -> (key: Key)
        requires
            dice.wf(),
        ensures
            key == key_of(self@, dice@),
    {
        proof {
            use_type_invariant(self);
            lemma_pow31(0);
        }
        let mut code: u128 = 0;
        let mut i: u8 = 0;
        while i < 24
            invariant
                i <= 24,
                code as int == points_code(self@.points, i as int),
                0 <= code < pow31(i as nat),
            decreases 24 - i,
        {
            let v = self.count_at(i);
            proof {
                lemma_pow31(i as nat + 1);
            }
            code = code * 31 + (v + 15) as u128;
            i = i + 1;
        }
        let roll: u32 = match *dice {
            Dice::Double { value, used } => value as u32 * 8 + used as u32,
            Dice::Single { value_1, value_2, used } => 64 + value_1 as u32 * 32 + value_2 as u32 * 4
                + match used {
                DiceUsage::BothAvailable => 0,
                DiceUsage::OnlyFirstAvailable => 1,
                DiceUsage::OnlySecondAvailable => 2,
                DiceUsage::BothUsed => 3,
            },
        };
        let mover: u32 = match self.active_player {
            Player::White => 0,
            Player::Black => 65536,
        };
        let rest: u32 = self.active_bar as u32 + 16 * self.inactive_bar as u32 + 256
            * self.active_home as u32 + 4096 * self.inactive_home as u32 + mover + 131072 * roll;
        (code, rest)
    }

    /// The counts of the 24 points.
    fn count_at(&self, i: u8) -> (v: i8)
        requires
            i < 24,
        ensures
            v as int == self@.points[i as int],
            -15 <= v <= 15,
            self@.bounded(),
    {
        proof {
            use_type_invariant(self);
        }
        self.board[i as usize]
    }

    /// The same position with the board laid out as white sees it; who is to
    /// move stays as it is.
    pub fn from_whites_perspective(&self) -> (b: Board)
        ensures
            b@ == (if self@.white_to_move {
                self@
            } else {
                Layout { white_to_move: false, ..self@.flipped() }
            }),
    {
        match self.active_player {
            Player::White => *self,
            Player::Black => {
                let mut board = *self;
                board.invert_board();
                board
            },
        }
    }

    /// The checkers on point `position` as white counts the points:
    /// positive for white, negative for black.
    pub fn checkers_on_position(&self, position: u8) -> (v: i8)
        requires
            position < 24,
        ensures
            v as int == (if self@.white_to_move {
                self@.points[position as int]
            } else {
                -self@.points[23 - position]
            }),
            -15 <= v <= 15,
    {
        proof {
            use_type_invariant(self);
        }
        match self.active_player {
            Player::White => self.board[position as usize],
            Player::Black => -self.board[23 - position as usize],
        }
    }

    /// The number of checkers that `player` has on the bar.
    pub fn bar(&self, player: Player) -> (n: u8)
        ensures
            n as int == (if player == self.mover() {
                self@.active_bar
            } else {
                self@.passive_bar
            }),
    {
        if self.active_player == player {
            self.active_bar
        } else {
            self.inactive_bar
        }
    }

    /// The number of checkers that `player` has borne off.
    pub fn home(&self, player: Player) -> (n: u8)
        ensures
            n as int == (if player == self.mover() {
                self@.active_home
            } else {
                self@.passive_home
            }),
    {
        if self.active_player == player {
            self.active_home
        } else {
            self.inactive_home
        }
    }

    /// Who is to move.
    pub fn active_player(&self) -> (p: Player)
        ensures
            p == self.mover(),
    {
        self.active_player
    }

    /// The mover's checkers on the points `lo..hi`.
    fn own_in(&self, lo: u8, hi: u8) -> (n: u16)
        requires
            lo <= hi <= 24,
        ensures
            n as int == own_between(self@.points, lo as int, hi as int),
            n <= 15 * (hi - lo),
    {
        let mut n: u16 = 0;
        let mut i: u8 = lo;
        while i < hi
            invariant
                lo <= i <= hi <= 24,
                n as int == own_between(self@.points, lo as int, i as int),
                n <= 15 * (i - lo),
            decreases hi - i,
        {
            let v = self.count_at(i);
            if v > 0 {
                n = n + v as u16;
            }
            i = i + 1;
        }
        n
    }

    /// The opponent's checkers on the points `lo..hi`.
    fn theirs_in(&self, lo: u8, hi: u8) -> (n: u16)
        requires
            lo <= hi <= 24,
        ensures
            n as int == theirs_between(self@.points, lo as int, hi as int),
            n <= 15 * (hi - lo),
    {
        let mut n: u16 = 0;
        let mut i: u8 = lo;
        while i < hi
            invariant
                lo <= i <= hi <= 24,
                n as int == theirs_between(self@.points, lo as int, i as int),
                n <= 15 * (i - lo),
            decreases hi - i,
        {
            let v = self.count_at(i);
            if v < 0 {
                n = n + (-v) as u16;
            }
            i = i + 1;
        }
        n
    }

    /// Whether neither player has more than 15 checkers, counting points,
    /// bar and home. The moves of such a board can be generated.
    pub fn checkers_fit(&self) -> (fit: bool)
        ensures
            fit == (self@.own_total() <= 15 && self@.their_total() <= 15),
    {
        proof {
            use_type_invariant(self);
        }
        let own = self.own_in(0, 24) + self.active_bar as u16 + self.active_home as u16;
        let theirs = self.theirs_in(0, 24) + self.inactive_bar as u16 + self.inactive_home as u16;
        own <= 15 && theirs <= 15
    }

    /// How the game stands: won by the player who has borne off all 15
    /// checkers, as a gammon if the other has borne off none, as a
    /// backgammon if the other moreover has a checker on the bar or in the
    /// winner's home board; running else.
    pub fn outcome(&self) -> (o: GameOutcome)
        ensures
            o == outcome_of(rank(self@), self.mover()),
            (o == GameOutcome::Ongoing) == (rank(self@) == 0),
    {
        if self.active_home == 15 {
            if self.inactive_home != 0 {
                GameOutcome::Win(self.active_player)
            } else if self.inactive_bar == 0 && self.theirs_in(18, 24) == 0 {
                GameOutcome::Gammon(self.active_player)
            } else {
                GameOutcome::Backgammon(self.active_player)
            }
        } else if self.inactive_home == 15 {
            if self.active_home != 0 {
                GameOutcome::Win(self.active_player.opposite())
            } else if self.active_bar == 0 && self.own_in(0, 6) == 0 {
                GameOutcome::Gammon(self.active_player.opposite())
            } else {
                GameOutcome::Backgammon(self.active_player.opposite())
            }
        } else {
            GameOutcome::Ongoing
        }
    }

    /// The score for white: `eval`, negated when black is to move.
    pub fn eval_absolute(&self) -> (v: i16)
        ensures
            v as int == score_for_white(self@),
            -7500 <= v <= 7500,
    {
        match self.active_player {
            Player::White => self.eval(),
            Player::Black => -self.eval(),
        }
    }

    /// The score of the position for the player to move: 1000, 2000 or 3000
    /// for a game won by a win, a gammon or a backgammon, the same below zero
    /// for a game lost; while the game runs, the worth of the points, 21 for
    /// each checker borne off and 5 against each checker on the bar, the
    /// opponent's counted against.
    pub fn eval(&self) -> (v: i16)
        ensures
            v as int == score(self@),
            -7500 <= v <= 7500,
    {
        proof {
            use_type_invariant(self);
        }
        match self.outcome() {
            GameOutcome::Win(player) => {
                return if player == self.active_player {
                    1000
                } else {
                    -1000
                };
            },
            GameOutcome::Gammon(player) => {
                return if player == self.active_player {
                    2000
                } else {
                    -2000
                };
            },
            GameOutcome::Backgammon(player) => {
                return if player == self.active_player {
                    3000
                } else {
                    -3000
                };
            },
            _ => {},
        }
        let mut score: i16 = 0;
        let mut i: u8 = 0;
        while i < 24
            invariant
                i <= 24,
                score as int == points_value(self@.points, i as int),
                -286 * i <= score <= 286 * i,
            decreases 24 - i,
        {
            let checker = self.count_at(i) as i16;
            if checker > 0 {
                let mult: i16 = if i > 4 {
                    24 - i as i16
                } else {
                    19
                };
                assert(0 <= checker * mult <= 285) by (nonlinear_arith)
                    requires
                        0 < checker <= 15,
                        1 <= mult <= 19,
                ;
                score = score + checker * mult;
            } else if checker < 0 {
                let mult: i16 = if i < 18 {
                    i as i16 + 1
                } else {
                    19
                };
                assert(-285 <= checker * mult <= 0) by (nonlinear_arith)
                    requires
                        -15 <= checker < 0,
                        1 <= mult <= 19,
                ;
                score = score + checker * mult;
            }
            if i >= 18 && checker >= 2 {
                score = score + 1;
            } else if i < 6 && checker <= -2 {
                score = score - 1;
            }
            i = i + 1;
        }
        score = score + (self.active_home as i16 - self.inactive_home as i16) * 21;
        score = score - (self.active_bar as i16 - self.inactive_bar as i16) * 5;
        score
    }

    /// The standard starting position, white to move.
    pub fn new() -> (b: Self)
        ensures
            b@ == Layout::start(),
    {
        let b = Board {
            board: [2, 0, 0, 0, 0, -5, 0, -3, 0, 0, 0, 5, -5, 0, 0, 0, 3, 0, 5, 0, 0, 0, 0, -2],
            active_bar: 0,
            inactive_bar: 0,
            active_home: 0,
            inactive_home: 0,
            active_player: Player::White,
        };
        assert(b@.points =~= Layout::start().points);
        b
    }

    /// A middle-game position for timing the search, white to move with a
    /// checker on the bar.
    pub fn bench() -> (b: Self)
        ensures
            b@ == (Layout {
                points: seq![
                    1int, -2, -2, 1, 1, 0,
                    1, -1, 0, 0, 0, -2,
                    -1, -1, 0, 0, 0, 0,
                    6, -1, -1, -4, 2, 2,
                ],
                active_bar: 1,
                ..Layout::empty()
            }),
    {
        let b = Board {
            board: [1, -2, -2, 1, 1, 0, 1, -1, 0, 0, 0, -2, -1, -1, 0, 0, 0, 0, 6, -1, -1, -4, 2, 2],
            active_bar: 1,
            inactive_bar: 0,
            active_home: 0,
            inactive_home: 0,
            active_player: Player::White,
        };
        assert(b@.points =~= seq![
            1int, -2, -2, 1, 1, 0,
            1, -1, 0, 0, 0, -2,
            -1, -1, 0, 0, 0, 0,
            6, -1, -1, -4, 2, 2,
        ]);
        b
    }

    /// What `m` would hit: for each of its half-moves onto a point that now
    /// holds a single opposing checker, the index of that point, all added
    /// up. Half-moves that go home or hit nothing add nothing.
    pub fn captured_value(&self, m: &Move) -> (sum: u8)
        ensures
            sum as int == hit_value(self@.points, m@, m@.len() as int),
    {
        let half_moves = m.get_half_moves();
        let mut sum: u8 = 0;
        let mut i: usize = 0;
        proof {
            assert(half_moves@.map_values(|hm: HalfMove| hm@).len() == m@.len());
        }
        while i < half_moves.len()
            invariant
                i <= half_moves@.len() <= 4,
                half_moves@.map_values(|hm: HalfMove| hm@) == m@,
                sum as int == hit_value(self@.points, m@, i as int),
                sum <= 24 * i,
            decreases half_moves@.len() - i,
        {
            proof {
                assert(half_moves@.map_values(|hm: HalfMove| hm@)[i as int] == half_moves@[i as int]@);
            }
            match half_moves[i].to.to_enum() {
                PositionEnum::Board(n) => {
                    if n < 24 && self.count_at(n) == -1 {
                        sum = sum + n;
                    }
                },
                _ => (),
            }
            i = i + 1;
        }
        sum
    }

    /// Hands the move to the other player: the board is turned round, the
    /// bars and the homes change sides.
    pub fn switch_player(&mut self)
        ensures
            final(self)@ == old(self)@.flipped(),
    {
        proof {
            use_type_invariant(&*self);
        }
        self.active_player = match self.active_player {
            Player::White => Player::Black,
            Player::Black => Player::White,
        };
        self.invert_board();
    }

    /// Turns the board round and exchanges bars and homes; who is to move
    /// stays as it is.
    fn invert_board(&mut self)
        ensures
            final(self)@ == (Layout {
                white_to_move: old(self)@.white_to_move,
                ..old(self)@.flipped()
            }),
    {
        proof {
            use_type_invariant(&*self);
        }
        let ghost before = *self;
        let mut i: usize = 0;
        while i < 12
            invariant
                i <= 12,
                forall|k: int| 0 <= k < 24 ==> -15 <= #[trigger] self.board@[k] <= 15,
                forall|k: int| 0 <= k < 24 ==> -15 <= #[trigger] before.board@[k] <= 15,
                forall|k: int|
                    0 <= k < i || 24 - i <= k < 24 ==> #[trigger] self.board@[k] == -before.board@[23
                        - k],
                forall|k: int| i <= k < 24 - i ==> #[trigger] self.board@[k] == before.board@[k],
                self.active_bar == before.active_bar <= 15,
                self.inactive_bar == before.inactive_bar <= 15,
                self.active_home == before.active_home <= 15,
                self.inactive_home == before.inactive_home <= 15,
                self.active_player == before.active_player,
            decreases 12 - i,
        {
            let a = -self.board[i];
            let j = 23 - i;
            let b = -self.board[j];
            self.board[i] = b;
            self.board[j] = a;
            i = i + 1;
        }
        let bar = self.active_bar;
        self.active_bar = self.inactive_bar;
        self.inactive_bar = bar;
        let home = self.active_home;
        self.active_home = self.inactive_home;
        self.inactive_home = home;
        proof {
            assert(self@.points =~= before@.flipped().points);
        }
    }

    /// Who is to move.
    pub fn get_active_player(&self) -> (p: Player)
        ensures
            p == self.mover(),
    {
        self.active_player
    }

    /// Whether the player to move may bear off: nothing on the bar and every
    /// checker in the home board or borne off already.
    pub fn can_bear_off(&self) -> (b: bool)
        ensures
            b == self@.can_bear_off(),
    {
        proof {
            use_type_invariant(self);
        }
        let bar_is_empty = self.active_bar == 0;
        let checkers_in_home_board = self.own_in(18, 24);
        proof {
            crate::rules::layout::lemma_counts(self@.points, 18, 24);
        }
        bar_is_empty && checkers_in_home_board + self.active_home as u16 == 15
    }

    /// Moves one checker as `half_move` says: off the bar or off its point,
    /// then home or onto its target, where a single opposing checker is hit
    /// and goes to the bar.
    pub fn make_half_move_unchecked(&mut self, half_move: &HalfMove)
        requires
            old(self)@.admits(half_move@),
            old(self)@.has_room(half_move@),
        ensures
            final(self)@ == old(self)@.step(half_move@),
    {
        proof {
            use_type_invariant(&*self);
        }
        let ghost before = self@;
        match half_move.from.to_enum() {
            PositionEnum::Home => {},
            PositionEnum::Bar => {
                self.active_bar = self.active_bar - 1;
            },
            PositionEnum::Board(from) => {
                let v = self.board[from as usize];
                self.board[from as usize] = v - 1;
            },
        }
        proof {
            assert(self@.points =~= before.lift(half_move@.from).points);
            assert(self@ == before.lift(half_move@.from));
        }
        let ghost lifted = self@;
        match half_move.to.to_enum() {
            PositionEnum::Home => {
                self.active_home = self.active_home + 1;
            },
            PositionEnum::Bar => {},
            PositionEnum::Board(to) => {
                if self.board[to as usize] == -1 {
                    self.board[to as usize] = 1;
                    self.inactive_bar = self.inactive_bar + 1;
                } else {
                    let v = self.board[to as usize];
                    self.board[to as usize] = v + 1;
                }
            },
        }
        proof {
            assert(self@.points =~= lifted.land(half_move@.to).points);
        }
    }

    /// Plays the whole move and hands the turn to the other player.
    pub fn make_move_unchecked(&mut self, m: Move)
        requires
            old(self)@.accepts(m@),
        ensures
            final(self)@ == old(self)@.after_move(m@),
    {
        let half_moves = m.get_half_moves();
        let n = half_moves.len();
        let mut i: usize = 0;
        let ghost s0 = self@;
        proof {
            assert(half_moves@.map_values(|hm: HalfMove| hm@).len() == m@.len());
        }
        while i < n
            invariant
                i <= n,
                n == m@.len(),
                n == half_moves@.len(),
                half_moves@.map_values(|hm: HalfMove| hm@) == m@,
                s0.accepts(m@),
                self@ == s0.play(m@, i as int),
            decreases n - i,
        {
            proof {
                assert(s0.play(m@, i as int).admits(m@[i as int]));
                assert(half_moves@.map_values(|hm: HalfMove| hm@)[i as int] == half_moves@[i as int]@);
            }
            self.make_half_move_unchecked(&half_moves[i]);
            i = i + 1;
        }
        self.switch_player();
    }

    /// Every half-move that one die of `dice` allows, each with the dice that
    /// are left after it. With a checker on the bar only re-entries are
    /// allowed; a checker may run to a point that is free, the mover's own or
    /// held by a single opposing checker; and where the mover may bear off, a
    /// die bears off from its own point, or, where no die finds a checker on
    /// its own point, from any point nearer to home.
    pub fn generate_half_moves(&self, dice: Dice) -> (list: TinyVector<(HalfMove, Dice), 64>)
        requires
            dice.wf(),
        ensures
            offers_of(list@) == half_moves(self@, dice@),
    {
        let available_dice = dice.get_unique_value();
        let n = available_dice.len();
        let ghost s = self@;
        let ghost r = dice@;
        let ghost avail = r.available();
        let mut list: TinyVector<(HalfMove, Dice), 64> = TinyVector::new();
        proof {
            crate::rules::roll::lemma_available(r);
            assert(offers_of(list@) =~= Seq::<(Step, Roll)>::empty());
            assert(available_dice@.len() == avail.len());
        }
        if self.active_bar == 0 {
            let mut k: u8 = 0;
            while k < n
                invariant
                    k <= n <= 2,
                    n as int == avail.len(),
                    s == self@,
                    r == dice@,
                    r.wf(),
                    avail == r.available(),
                    available_dice@.map_values(|d: u8| d as int) == avail,
                    offers_of(list@) == runs(s, r, k as int),
                    list@.len() <= 23 * k,
                decreases n - k,
            {
                let die = *available_dice.get(k as usize).unwrap();
                proof {
                    assert(avail[k as int] == die as int);
                    assert(avail.contains(die as int));
                    crate::rules::roll::lemma_spend(r, die as int);
                }
                let ghost base = list@;
                let mut i: u8 = 0;
                while i < 24 - die
                    invariant
                        i <= 24 - die,
                        1 <= die <= 6,
                        k < 2,
                        s == self@,
                        r == dice@,
                        r.available().contains(die as int),
                        r.wf(),
                        offers_of(list@) == runs(s, r, k as int) + runs_with(
                            s,
                            r,
                            die as int,
                            i as int,
                        ),
                        list@.len() <= 23 * k + i,
                    decreases 24 - die - i,
                {
                    if self.count_at(i) > 0 && self.count_at(
                        i + die,
                    ) >= -1 {
                        let ghost before = list@;
                        list.push(
                            (
                                HalfMove { from: Position::from_enum(PositionEnum::Board(i)), to: Position::from_enum(PositionEnum::Board(i + die)) },
                                dice.use_die(die),
                            ),
                        );
                        assert(offers_of(list@) =~= offers_of(before).push(
                            (
                                Step {
                                    from: Spot::Point(i as int),
                                    to: Spot::Point(i as int + die as int),
                                },
                                r.spend(die as int),
                            ),
                        ));
                    }
                    i = i + 1;
                    assert(offers_of(list@) =~= runs(s, r, k as int) + runs_with(
                        s,
                        r,
                        die as int,
                        i as int,
                    ));
                }
                k = k + 1;
            }
            if self.can_bear_off() {
                let ghost moved = list@;
                let mut exact: u8 = 0;
                let mut k: u8 = 0;
                while k < n
                    invariant
                        k <= n <= 2,
                        n as int == avail.len(),
                        s == self@,
                        r == dice@,
                        r.wf(),
                        avail == r.available(),
                        available_dice@.map_values(|d: u8| d as int) == avail,
                        offers_of(moved) == runs(s, r, n as int),
                        offers_of(list@) == offers_of(moved) + exact_offs(s, r, k as int),
                        exact as int == exact_offs(s, r, k as int).len(),
                        exact <= k,
                        list@.len() == moved.len() + exact,
                        moved.len() <= 46,
                    decreases n - k,
                {
                    let die = *available_dice.get(k as usize).unwrap();
                    proof {
                        assert(avail[k as int] == die as int);
                        assert(avail.contains(die as int));
                        crate::rules::roll::lemma_spend(r, die as int);
                    }
                    if self.count_at(24 - die) > 0 {
                        let ghost before = list@;
                        list.push(
                            (
                                HalfMove { from: Position::from_enum(PositionEnum::Board(24 - die)), to: Position::from_enum(PositionEnum::Home) },
                                dice.use_die(die),
                            ),
                        );
                        exact = exact + 1;
                        assert(offers_of(list@) =~= offers_of(before).push(
                            (
                                Step { from: Spot::Point(24 - die as int), to: Spot::Home },
                                r.spend(die as int),
                            ),
                        ));
                    }
                    k = k + 1;
                    assert(offers_of(list@) =~= offers_of(moved) + exact_offs(s, r, k as int));
                }
                if exact == 0 {
                    assert(offers_of(list@) =~= offers_of(moved));
                    let mut k: u8 = 0;
                    while k < n
                        invariant
                            k <= n <= 2,
                            n as int == avail.len(),
                            s == self@,
                            r == dice@,
                            r.wf(),
                            avail == r.available(),
                            available_dice@.map_values(|d: u8| d as int) == avail,
                            offers_of(moved) == runs(s, r, n as int),
                            offers_of(list@) == offers_of(moved) + overshoots(s, r, k as int),
                            list@.len() <= moved.len() + 6 * k,
                            moved.len() <= 46,
                        decreases n - k,
                    {
                        let die = *available_dice.get(k as usize).unwrap();
                        proof {
                            assert(avail[k as int] == die as int);
                            assert(avail.contains(die as int));
                            crate::rules::roll::lemma_spend(r, die as int);
                        }
                        let mut p: u8 = 24 - die;
                        while p < 24
                            invariant
                                24 - die <= p <= 24,
                                1 <= die <= 6,
                                k < 2,
                                s == self@,
                                r == dice@,
                                r.available().contains(die as int),
                                r.wf(),
                                offers_of(list@) == offers_of(moved) + overshoots(s, r, k as int)
                                    + over_with(s, r, die as int, p as int),
                                list@.len() <= moved.len() + 6 * k + (p - (24 - die)),
                                moved.len() <= 46,
                            decreases 24 - p,
                        {
                            if self.count_at(p) > 0 {
                                let ghost before = list@;
                                list.push(
                                    (
                                        HalfMove { from: Position::from_enum(PositionEnum::Board(p)), to: Position::from_enum(PositionEnum::Home) },
                                        dice.use_die(die),
                                    ),
                                );
                                assert(offers_of(list@) =~= offers_of(before).push(
                                    (
                                        Step { from: Spot::Point(p as int), to: Spot::Home },
                                        r.spend(die as int),
                                    ),
                                ));
                            }
                            p = p + 1;
                            assert(offers_of(list@) =~= offers_of(moved) + overshoots(
                                s,
                                r,
                                k as int,
                            ) + over_with(s, r, die as int, p as int));
                        }
                        k = k + 1;
                        assert(offers_of(list@) =~= offers_of(moved) + overshoots(s, r, k as int));
                    }
                }
                assert(offers_of(list@) =~= runs(s, r, n as int) + bear_offs(s, r));
            }
        } else {
            let mut k: u8 = 0;
            while k < n
                invariant
                    k <= n <= 2,
                    n as int == avail.len(),
                    s == self@,
                    r == dice@,
                    r.wf(),
                    avail == r.available(),
                    available_dice@.map_values(|d: u8| d as int) == avail,
                    offers_of(list@) == entries(s, r, k as int),
                    list@.len() <= k,
                decreases n - k,
            {
                let die = *available_dice.get(k as usize).unwrap();
                proof {
                    assert(avail[k as int] == die as int);
                    assert(avail.contains(die as int));
                    crate::rules::roll::lemma_spend(r, die as int);
                }
                if self.count_at(die - 1) >= -1 {
                    let ghost before = list@;
                    list.push(
                        (
                            HalfMove { from: Position::from_enum(PositionEnum::Bar), to: Position::from_enum(PositionEnum::Board(die - 1)) },
                            dice.use_die(die),
                        ),
                    );
                    assert(offers_of(list@) =~= offers_of(before).push(
                        (
                            Step { from: Spot::Bar, to: Spot::Point(die as int - 1) },
                            r.spend(die as int),
                        ),
                    ));
                }
                k = k + 1;
            }
        }
        list
    }

    /// The legal moves with `dice`: all the longest sequences of half-moves
    /// that can be played, one for each set of half-moves. Where nothing can
    /// be played, the one move without half-moves. Each move can be applied
    /// to this board.
    pub fn generage_moves(&self, dice: Dice) -> (moves: Vec<Move>)
        requires
            dice.wf(),
            self@.own_total() <= 15,
            self@.their_total() <= 15,
        ensures
            moves_of(moves@) == legal_moves(self@, dice@),
            moves@.len() > 0,
            forall|i: int| 0 <= i < moves@.len() ==> playable(self@, #[trigger] moves@[i]@),
            forall|i: int| 0 <= i < moves@.len() ==> (#[trigger] moves@[i]@).len() == moves@[0]@.len(),
    {
        let ghost s0 = self@;
        let ghost r0 = dice@;
        let mut stack: Vec<(Dice, Board, Move)> = Vec::new();
        stack.push((dice, *self, Move::new()));
        let mut next_stack: Vec<(Dice, Board, Move)> = Vec::new();
        let mut best_result_len: usize = 0;
        let mut results: Vec<Move> = Vec::new();
        let ghost mut frontier: Seq<Node> = seq![root(s0, r0)];
        let ghost mut ply: int = 0;
        proof {
            use_type_invariant(self);
            crate::rules::roll::lemma_available(r0);
            assert(nodes_of(stack@) =~= frontier);
            assert(sound(frontier[0], s0, r0, 0));
        }
        loop
            invariant_except_break
                s0 == self@,
                r0 == dice@,
                s0.own_total() <= 15,
                s0.their_total() <= 15,
                r0.wf(),
                0 <= ply <= 4,
                nodes_of(stack@) == frontier,
                frontier.len() > 0,
                next_stack@.len() == 0,
                all_sound(frontier, s0, r0, ply),
                search(frontier, (4 - ply) as nat) == legal_moves(s0, r0),
                ply == 0 ==> results@.len() == 0,
                best_result_len as int == (if ply == 0 {
                    0
                } else {
                    ply - 1
                }),
            ensures
                moves_of(results@) == legal_moves(s0, r0),
                results@.len() > 0,
                forall|i: int| 0 <= i < results@.len() ==> playable(s0, #[trigger] results@[i]@),
                forall|i: int|
                    0 <= i < results@.len() ==> (#[trigger] results@[i]@).len() == results@[0]@.len(),
            decreases 4 - ply,
        {
            let ghost total = stack@.len();
            while stack.len() > 0
                invariant
                    s0 == self@,
                    r0 == dice@,
                    s0.own_total() <= 15,
                    s0.their_total() <= 15,
                    r0.wf(),
                    0 <= ply <= 4,
                    total == frontier.len(),
                    total > 0,
                    stack@.len() <= total,
                    nodes_of(stack@) == frontier.take(stack@.len() as int),
                    all_sound(frontier, s0, r0, ply),
                    nodes_of(next_stack@) == expand(frontier, stack@.len() as int),
                    stack@.len() == total ==> best_result_len as int == (if ply == 0 {
                        0
                    } else {
                        ply - 1
                    }),
                    stack@.len() == total && ply == 0 ==> results@.len() == 0,
                    stack@.len() < total ==> best_result_len as int == ply,
                    stack@.len() < total ==> moves_of(results@) == backwards(frontier).take(
                        total - stack@.len(),
                    ),
                decreases stack@.len(),
            {
                let ghost j = stack@.len() - 1;
                let ghost old_next = next_stack@;
                let ghost old_results = results@;
                let ghost old_stack = stack@;
                let (d, board, previous_moves) = stack.pop().unwrap();
                proof {
                    assert(nodes_of(old_stack)[j] == frontier[j]);
                    assert(node_of((d, board, previous_moves)) == frontier[j]);
                    assert(sound(frontier[j], s0, r0, ply));
                    assert(nodes_of(stack@) =~= frontier.take(j));
                }
                let ghost n = frontier[j];
                let previous_moves_len = previous_moves.len();
                if previous_moves_len > best_result_len {
                    results.clear();
                    best_result_len = previous_moves.len();
                    results.push(previous_moves);
                } else if previous_moves_len == best_result_len {
                    results.push(previous_moves);
                }
                proof {
                    assert(previous_moves@ == n.steps);
                    assert(backwards(frontier)[total - 1 - j] == n.steps);
                    if j == total - 1 {
                        assert(results@ =~= seq![previous_moves]);
                    } else {
                        assert(results@ =~= old_results.push(previous_moves));
                    }
                    assert(moves_of(results@) =~= backwards(frontier).take(total - j));
                }
                if !d.is_used() {
                    let half_moves = board.generate_half_moves(d);
                    let count = half_moves.len();
                    let mut idx: u8 = 0;
                    proof {
                        assert(nodes_of(next_stack@) =~= expand(frontier, j + 1) + children(n, 0));
                    }
                    while idx < count
                        invariant
                            idx <= count,
                            count as int == half_moves@.len(),
                            offers_of(half_moves@) == crate::rules::moves::half_moves(
                                n.layout,
                                n.roll,
                            ),
                            n == node_of((d, board, previous_moves)),
                            sound(n, s0, r0, ply),
                            s0.own_total() <= 15,
                            s0.their_total() <= 15,
                            r0.wf(),
                            nodes_of(next_stack@) == expand(frontier, j + 1) + children(
                                n,
                                idx as int,
                            ),
                        decreases count - idx,
                    {
                        let (hv, remaining_dice) = *half_moves.get(idx as usize).unwrap();
                        proof {
                            assert(offers_of(half_moves@)[idx as int] == (hv@, remaining_dice@));
                            lemma_child_sound(n, s0, r0, ply, idx as int);
                            crate::rules::roll::lemma_available(r0);
                        }
                        let mut board = board.clone();
                        board.make_half_move_unchecked(&hv);
                        let mut mv = previous_moves;
                        mv.append(hv);
                        let ghost before = next_stack@;
                        next_stack.push((remaining_dice, board, mv));
                        idx = idx + 1;
                        proof {
                            assert(node_of((remaining_dice, board, mv)) == child(
                                n,
                                crate::rules::moves::half_moves(n.layout, n.roll)[idx - 1],
                            ));
                            assert(nodes_of(next_stack@) =~= nodes_of(before).push(
                                node_of((remaining_dice, board, mv)),
                            ));
                            assert(children(n, idx as int) =~= children(n, idx - 1).push(
                                child(n, crate::rules::moves::half_moves(n.layout, n.roll)[idx - 1]),
                            ));
                            assert(nodes_of(next_stack@) =~= expand(frontier, j + 1) + children(
                                n,
                                idx as int,
                            ));
                        }
                    }
                    proof {
                        assert(children(n, count as int) == offspring(n));
                    }
                } else {
                    proof {
                        assert(nodes_of(next_stack@) =~= expand(frontier, j + 1) + offspring(n));
                    }
                }
            }
            proof {
                assert(moves_of(results@) =~= backwards(frontier));
                crate::rules::search::lemma_next_sound(frontier, s0, r0, ply);
                assert forall|i: int| 0 <= i < results@.len() implies playable(
                    s0,
                    #[trigger] results@[i]@,
                ) && results@[i]@.len() == ply by {
                    assert(moves_of(results@)[i] == results@[i]@);
                    assert(sound(frontier[total - 1 - i], s0, r0, ply));
                }
            }
            if next_stack.len() == 0 {
                proof {
                    assert(nodes_of(next_stack@).len() == 0);
                }
                break ;
            }
            proof {
                assert(nodes_of(next_stack@).len() > 0);
            }
            stack.clear();
            let ghost next = nodes_of(next_stack@);
            let m = next_stack.len();
            let mut i: usize = 0;
            proof {
                assert(nodes_of(stack@) =~= distinct(next, 0));
            }
            while i < m
                invariant
                    i <= m,
                    m == next_stack@.len(),
                    next == nodes_of(next_stack@),
                    nodes_of(stack@) == distinct(next, i as int),
                decreases m - i,
            {
                let e = next_stack[i];
                let mut found = false;
                let mut q: usize = 0;
                let len = stack.len();
                while q < len
                    invariant
                        q <= len,
                        len == stack@.len(),
                        found == exists|t: int|
                            0 <= t < q && same_steps(
                                #[trigger] nodes_of(stack@)[t].steps,
                                e.2@,
                            ),
                    decreases len - q,
                {
                    if stack[q].2.unordered_equal(&e.2) {
                        found = true;
                        proof {
                            assert(same_steps(nodes_of(stack@)[q as int].steps, e.2@));
                        }
                    }
                    q = q + 1;
                }
                proof {
                    assert(next[i as int] == node_of(e));
                    assert(found == known(nodes_of(stack@), next[i as int].steps));
                }
                if !found {
                    let ghost before = stack@;
                    stack.push(e);
                    proof {
                        assert(nodes_of(stack@) =~= nodes_of(before).push(node_of(e)));
                    }
                }
                i = i + 1;
            }
            next_stack.clear();
            proof {
                assert(nodes_of(stack@) == next_frontier(frontier));
                assert(r0.uses_left() <= 4);
                frontier = next_frontier(frontier);
                ply = ply + 1;
            }
        }
        results
    }

}

} // verus!
