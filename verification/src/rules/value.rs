use vstd::prelude::*;
use crate::rules::layout::{own, own_between, theirs_between, Layout};

verus! {

/// How the game stands for the player to move: 0 while it runs; 1, 2, 3 for
/// a win, a gammon, a backgammon of the mover; -1, -2, -3 for those of the
/// opponent.
///
/// Who has borne off all 15 checkers has won. It is a gammon if the loser has
/// borne off none, and a backgammon if the loser moreover has a checker on
/// the bar or in the winner's home board.
pub open spec fn rank(s: Layout) -> int {
    if s.active_home == 15 {
        if s.passive_home != 0 {
            1
        } else if s.passive_bar == 0 && theirs_between(s.points, 18, 24) == 0 {
            2
        } else {
            3
        }
    } else if s.passive_home == 15 {
        if s.active_home != 0 {
            -1
        } else if s.active_bar == 0 && own_between(s.points, 0, 6) == 0 {
            -2
        } else {
            -3
        }
    } else {
        0
    }
}

/// The smaller of `a` and `b`.
pub open spec fn least(a: int, b: int) -> int {
    if a <= b {
        a
    } else {
        b
    }
}

/// What `v` checkers on point `i` are worth to the mover: each checker
/// counts the pips it has to go until it is borne off, at most 19, the
/// mover's for the mover and the opponent's against; a point of two or more
/// in one's own home board counts one more.
pub open spec fn point_value(i: int, v: int) -> int {
    (if v > 0 {
        v * least(24 - i, 19)
    } else if v < 0 {
        v * least(i + 1, 19)
    } else {
        0
    }) + (if i >= 18 && v >= 2 {
        1int
    } else if i < 6 && v <= -2 {
        -1int
    } else {
        0int
    })
}

/// What the checkers on the points below `n` are worth to the mover.
pub open spec fn points_value(points: Seq<int>, n: int) -> int
    decreases n,
{
    if n <= 0 {
        0
    } else {
        points_value(points, n - 1) + point_value(n - 1, points[n - 1])
    }
}

/// The score of a running game: the worth of the points, 21 for each checker
/// borne off and 5 against each checker on the bar, the opponent's counted
/// against.
pub open spec fn running_score(s: Layout) -> int {
    points_value(s.points, 24) + 21 * (s.active_home - s.passive_home) - 5 * (s.active_bar
        - s.passive_bar)
}

/// The score of the position for the player to move: 1000, 2000 or 3000 for
/// a game won by a win, a gammon or a backgammon, the same below zero for a
/// game lost, and the running score else.
pub open spec fn score(s: Layout) -> int {
    if rank(s) != 0 {
        1000 * rank(s)
    } else {
        running_score(s)
    }
}

/// The score for white: the mover's score, negated when black is to move.
pub open spec fn score_for_white(s: Layout) -> int {
    if s.white_to_move {
        score(s)
    } else {
        -score(s)
    }
}

/// The points are worth at most 19 for each of the mover's checkers and six
/// points made, less one for each of the opponent's; and the other way
/// round.
pub proof fn lemma_points_value(points: Seq<int>, n: int)
    requires
        0 <= n <= 24,
        points.len() == 24,
    ensures
        points_value(points, n) <= 19 * own_between(points, 0, n) - theirs_between(points, 0, n)
            + (if n > 18 {
            n - 18
        } else {
            0
        }),
        points_value(points, n) >= own_between(points, 0, n) - 19 * theirs_between(points, 0, n)
            - (if n < 6 {
            n
        } else {
            6
        }),
    decreases n,
{
    if n > 0 {
        lemma_points_value(points, n - 1);
        let v = points[n - 1];
        let c = if v > 0 {
            least(25 - n, 19)
        } else {
            least(n, 19)
        };
        assert(1 <= c <= 19);
        if v > 0 {
            assert(v <= v * c <= 19 * v) by (nonlinear_arith)
                requires
                    v > 0,
                    1 <= c <= 19,
            ;
        } else if v < 0 {
            assert(19 * v <= v * c <= v) by (nonlinear_arith)
                requires
                    v < 0,
                    1 <= c <= 19,
            ;
        }
    }
}

/// While the game runs, the score of a position with 15 checkers a side
/// stays within 396 either way, far from the 1000 of a game won.
pub proof fn lemma_running_score_bounded(s: Layout)
    requires
        s.full_set(),
        rank(s) == 0,
    ensures
        -396 <= score(s) <= 396,
{
    lemma_points_value(s.points, 24);
    crate::rules::layout::lemma_counts(s.points, 0, 24);
}

/// A game that is over scores 1000, 2000 or 3000, for the mover or against.
pub proof fn lemma_final_score(s: Layout)
    requires
        rank(s) != 0,
    ensures
        score(s) == 1000 * rank(s),
        score(s) == 1000 || score(s) == 2000 || score(s) == 3000 || score(s) == -1000 || score(s)
            == -2000 || score(s) == -3000,
{
}

} // verus!
