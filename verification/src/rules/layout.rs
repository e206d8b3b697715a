use vstd::prelude::*;

verus! {

/// A place where a checker can stand, named from the mover's side.
pub enum Spot {
    /// The bar, where hit checkers wait to re-enter.
    Bar,
    /// Off the board, borne off.
    Home,
    /// One of the 24 points; the mover travels from 0 towards 23.
    Point(int),
}

/// One checker moved by one die.
pub struct Step {
    pub from: Spot,
    pub to: Spot,
}

/// A position seen by the player to move: `points[i] > 0` are the mover's
/// checkers, `points[i] < 0` the opponent's.
pub struct Layout {
    pub points: Seq<int>,
    pub active_bar: int,
    pub passive_bar: int,
    pub active_home: int,
    pub passive_home: int,
    pub white_to_move: bool,
}

/// The mover's checkers among `v` checkers on a point.
pub open spec fn own(v: int) -> int {
    if v > 0 {
        v
    } else {
        0
    }
}

/// The opponent's checkers among `v` checkers on a point.
pub open spec fn theirs(v: int) -> int {
    if v < 0 {
        -v
    } else {
        0
    }
}

/// The mover's checkers on the points `lo..hi`.
pub open spec fn own_between(points: Seq<int>, lo: int, hi: int) -> int
    decreases hi - lo,
{
    if hi <= lo {
        0
    } else {
        own_between(points, lo, hi - 1) + own(points[hi - 1])
    }
}

/// The opponent's checkers on the points `lo..hi`.
pub open spec fn theirs_between(points: Seq<int>, lo: int, hi: int) -> int
    decreases hi - lo,
{
    if hi <= lo {
        0
    } else {
        theirs_between(points, lo, hi - 1) + theirs(points[hi - 1])
    }
}

impl Layout {
    /// The board without any checker, white to move.
    pub open spec fn empty() -> Layout {
        Layout {
            points: Seq::new(24, |i: int| 0int),
            active_bar: 0,
            passive_bar: 0,
            active_home: 0,
            passive_home: 0,
            white_to_move: true,
        }
    }

    /// The standard starting position, white to move.
    pub open spec fn start() -> Layout {
        Layout {
            points: seq![
                2int, 0, 0, 0, 0, -5,
                0, -3, 0, 0, 0, 5,
                -5, 0, 0, 0, 3, 0,
                5, 0, 0, 0, 0, -2,
            ],
            ..Layout::empty()
        }
    }

    /// The position with `v` checkers on point `i`.
    pub open spec fn with_point(self, i: int, v: int) -> Layout {
        Layout { points: self.points.update(i, v), ..self }
    }

    /// There are 24 points.
    pub open spec fn wf(self) -> bool {
        self.points.len() == 24
    }

    /// No point, bar or home holds more than 15 checkers or fewer than none.
    pub open spec fn bounded(self) -> bool {
        &&& self.wf()
        &&& forall|i: int| 0 <= i < 24 ==> -15 <= #[trigger] self.points[i] <= 15
        &&& 0 <= self.active_bar <= 15
        &&& 0 <= self.passive_bar <= 15
        &&& 0 <= self.active_home <= 15
        &&& 0 <= self.passive_home <= 15
    }

    /// There are 24 points and no counter is negative.
    pub open spec fn tidy(self) -> bool {
        &&& self.wf()
        &&& 0 <= self.active_bar
        &&& 0 <= self.passive_bar
        &&& 0 <= self.active_home
        &&& 0 <= self.passive_home
    }

    /// All of the mover's checkers: on the points, on the bar and borne off.
    pub open spec fn own_total(self) -> int {
        own_between(self.points, 0, 24) + self.active_bar + self.active_home
    }

    /// All of the opponent's checkers: on the points, on the bar and borne off.
    pub open spec fn their_total(self) -> int {
        theirs_between(self.points, 0, 24) + self.passive_bar + self.passive_home
    }

    /// Each side has its 15 checkers and the counters are in range.
    pub open spec fn full_set(self) -> bool {
        &&& self.bounded()
        &&& self.own_total() == 15
        &&& self.their_total() == 15
    }

    /// The same position seen by the other player: the points reversed and
    /// negated, bars and homes exchanged.
    pub open spec fn flipped(self) -> Layout {
        Layout {
            points: Seq::new(24, |i: int| -self.points[23 - i]),
            active_bar: self.passive_bar,
            passive_bar: self.active_bar,
            active_home: self.passive_home,
            passive_home: self.active_home,
            white_to_move: !self.white_to_move,
        }
    }

    /// The mover has nothing on the bar and everything else in the home board
    /// (points 18..23) or borne off.
    pub open spec fn can_bear_off(self) -> bool {
        self.active_bar == 0 && own_between(self.points, 18, 24) + self.active_home == 15
    }

    /// The position with one of the mover's checkers taken from `from`.
    pub open spec fn lift(self, from: Spot) -> Layout {
        match from {
            Spot::Bar => Layout { active_bar: self.active_bar - 1, ..self },
            Spot::Home => self,
            Spot::Point(i) => Layout { points: self.points.update(i, self.points[i] - 1), ..self },
        }
    }

    /// The position with one of the mover's checkers put on `to`; a lone
    /// opposing checker there goes to the bar.
    pub open spec fn land(self, to: Spot) -> Layout {
        match to {
            Spot::Bar => self,
            Spot::Home => Layout { active_home: self.active_home + 1, ..self },
            Spot::Point(j) => if self.points[j] == -1 {
                Layout {
                    points: self.points.update(j, 1),
                    passive_bar: self.passive_bar + 1,
                    ..self
                }
            } else {
                Layout { points: self.points.update(j, self.points[j] + 1), ..self }
            },
        }
    }

    /// The position after `st`, same mover.
    pub open spec fn step(self, st: Step) -> Layout {
        self.lift(st.from).land(st.to)
    }

    /// The position after the first `n` steps of `steps`, same mover.
    pub open spec fn play(self, steps: Seq<Step>, n: int) -> Layout
        decreases n,
    {
        if n <= 0 {
            self
        } else {
            self.play(steps, n - 1).step(steps[n - 1])
        }
    }

    /// The position after the whole move, seen by the player who moves next.
    pub open spec fn after_move(self, steps: Seq<Step>) -> Layout {
        self.play(steps, steps.len() as int).flipped()
    }

    /// `st` takes a checker that is there and puts it where it may stand:
    /// not from home, not to the bar, not onto two or more opposing checkers.
    pub open spec fn admits(self, st: Step) -> bool {
        &&& match st.from {
            Spot::Bar => self.active_bar > 0,
            Spot::Home => false,
            Spot::Point(i) => 0 <= i < 24 && self.points[i] > 0,
        }
        &&& match st.to {
            Spot::Bar => false,
            Spot::Home => true,
            Spot::Point(j) => 0 <= j < 24 && self.points[j] >= -1 && st.from != Spot::Point(j),
        }
    }

    /// Each of `steps` in turn takes a checker that is there, puts it where it
    /// may stand and raises no counter above 15.
    pub open spec fn accepts(self, steps: Seq<Step>) -> bool {
        forall|k: int|
            0 <= k < steps.len() ==> (#[trigger] self.play(steps, k)).admits(steps[k])
                && self.play(steps, k).has_room(steps[k])
    }

    /// The counters that `st` raises are below 15.
    pub open spec fn has_room(self, st: Step) -> bool {
        match st.to {
            Spot::Bar => true,
            Spot::Home => self.active_home < 15,
            Spot::Point(j) => self.points[j] < 15 && (self.points[j] == -1 ==> self.passive_bar
                < 15),
        }
    }
}

/// Changing one point changes the mover's count by what that point gains.
pub proof fn lemma_own_update(points: Seq<int>, i: int, v: int, lo: int, hi: int)
    requires
        0 <= lo,
        hi <= points.len(),
        0 <= i < points.len(),
    ensures
        own_between(points.update(i, v), lo, hi) == own_between(points, lo, hi) + (if lo <= i < hi {
            own(v) - own(points[i])
        } else {
            0
        }),
    decreases hi - lo,
{
    if hi > lo {
        lemma_own_update(points, i, v, lo, hi - 1);
    }
}

/// Changing one point changes the opponent's count by what that point gains.
pub proof fn lemma_theirs_update(points: Seq<int>, i: int, v: int, lo: int, hi: int)
    requires
        0 <= lo,
        hi <= points.len(),
        0 <= i < points.len(),
    ensures
        theirs_between(points.update(i, v), lo, hi) == theirs_between(points, lo, hi) + (if lo <= i
            < hi {
            theirs(v) - theirs(points[i])
        } else {
            0
        }),
    decreases hi - lo,
{
    if hi > lo {
        lemma_theirs_update(points, i, v, lo, hi - 1);
    }
}

/// A count over a range is not negative, and not below what one of its
/// points holds.
pub proof fn lemma_counts(points: Seq<int>, lo: int, hi: int)
    requires
        0 <= lo,
        hi <= points.len(),
    ensures
        0 <= own_between(points, lo, hi),
        0 <= theirs_between(points, lo, hi),
        forall|i: int| lo <= i < hi ==> own(#[trigger] points[i]) <= own_between(points, lo, hi),
        forall|i: int|
            lo <= i < hi ==> theirs(#[trigger] points[i]) <= theirs_between(points, lo, hi),
    decreases hi - lo,
{
    if hi > lo {
        lemma_counts(points, lo, hi - 1);
    }
}

/// A count over a range is the sum of the counts over its two parts.
pub proof fn lemma_split(points: Seq<int>, lo: int, mid: int, hi: int)
    requires
        lo <= mid <= hi,
    ensures
        own_between(points, lo, hi) == own_between(points, lo, mid) + own_between(points, mid, hi),
        theirs_between(points, lo, hi) == theirs_between(points, lo, mid) + theirs_between(
            points,
            mid,
            hi,
        ),
    decreases hi - mid,
{
    if hi > mid {
        lemma_split(points, lo, mid, hi - 1);
    }
}

/// A step that the position admits moves one checker and loses none: the
/// position stays tidy and both players keep their number of checkers.
pub proof fn lemma_step_keeps_totals(s: Layout, st: Step)
    requires
        s.tidy(),
        s.admits(st),
    ensures
        s.step(st).tidy(),
        s.step(st).own_total() == s.own_total(),
        s.step(st).their_total() == s.their_total(),
        s.step(st).white_to_move == s.white_to_move,
{
    let a = s.lift(st.from);
    match st.from {
        Spot::Point(i) => {
            lemma_own_update(s.points, i, s.points[i] - 1, 0, 24);
            lemma_theirs_update(s.points, i, s.points[i] - 1, 0, 24);
        },
        _ => {},
    }
    assert(a.own_total() == s.own_total() - 1);
    assert(a.their_total() == s.their_total());
    match st.to {
        Spot::Point(j) => {
            if a.points[j] == -1 {
                lemma_own_update(a.points, j, 1, 0, 24);
                lemma_theirs_update(a.points, j, 1, 0, 24);
            } else {
                lemma_own_update(a.points, j, a.points[j] + 1, 0, 24);
                lemma_theirs_update(a.points, j, a.points[j] + 1, 0, 24);
            }
        },
        _ => {},
    }
}

/// Where neither player has more than 15 checkers, a step that the position
/// admits raises no counter above 15.
pub proof fn lemma_step_has_room(s: Layout, st: Step)
    requires
        s.tidy(),
        s.admits(st),
        s.own_total() <= 15,
        s.their_total() <= 15,
    ensures
        s.has_room(st),
{
    lemma_counts(s.points, 0, 24);
    match st.to {
        Spot::Point(j) => {
            match st.from {
                Spot::Point(i) => {
                    lemma_own_update(s.points, i, 0, 0, 24);
                    lemma_counts(s.points.update(i, 0), 0, 24);
                    assert(s.points.update(i, 0)[j] == s.points[j]);
                },
                _ => {},
            }
            assert(theirs(s.points[j]) <= theirs_between(s.points, 0, 24));
        },
        Spot::Home => {
            match st.from {
                Spot::Point(i) => {
                    assert(own(s.points[i]) <= own_between(s.points, 0, 24));
                },
                _ => {},
            }
        },
        _ => {},
    }
}

/// What the first `n` steps lead to depends on those steps alone.
pub proof fn lemma_play_prefix(s: Layout, a: Seq<Step>, b: Seq<Step>, n: int)
    requires
        forall|i: int| 0 <= i < n ==> a[i] == b[i],
    ensures
        s.play(a, n) == s.play(b, n),
    decreases n,
{
    if n > 0 {
        lemma_play_prefix(s, a, b, n - 1);
    }
}

/// Seen from the other side, the mover's checkers are the opponent's.
pub proof fn lemma_flipped_counts(s: Layout, lo: int, hi: int)
    requires
        s.wf(),
        0 <= lo <= hi <= 24,
    ensures
        own_between(s.flipped().points, lo, hi) == theirs_between(s.points, 24 - hi, 24 - lo),
        theirs_between(s.flipped().points, lo, hi) == own_between(s.points, 24 - hi, 24 - lo),
    decreases hi - lo,
{
    if hi > lo {
        lemma_flipped_counts(s, lo, hi - 1);
        lemma_split(s.points, 24 - hi, 24 - hi + 1, 24 - lo);
        assert(own_between(s.points, 24 - hi, 24 - hi + 1) == own(s.points[24 - hi])) by {
            assert(own_between(s.points, 24 - hi, 24 - hi) == 0);
        }
        assert(theirs_between(s.points, 24 - hi, 24 - hi + 1) == theirs(s.points[24 - hi])) by {
            assert(theirs_between(s.points, 24 - hi, 24 - hi) == 0);
        }
    }
}

/// Turning the board round twice gives the position back.
pub proof fn lemma_flipped_twice(s: Layout)
    requires
        s.wf(),
    ensures
        s.flipped().flipped() == s,
        s.flipped().wf(),
{
    assert(s.flipped().flipped().points =~= s.points);
}

/// Turning the board round exchanges the two players' totals.
pub proof fn lemma_flipped_totals(s: Layout)
    requires
        s.wf(),
    ensures
        s.flipped().own_total() == s.their_total(),
        s.flipped().their_total() == s.own_total(),
        s.flipped().tidy() == s.tidy(),
{
    lemma_flipped_counts(s, 0, 24);
}

} // verus!
