use vstd::prelude::*;
use crate::rules::layout::{Layout, Spot, Step};
use crate::rules::moves::{
    bear_offs,
    exact_offs,
    half_moves,
    over_with,
    overshoots,
    runs,
    runs_with,
};
use crate::rules::roll::{lemma_available, Roll};

verus! {

/// `offer` is among the half-moves that the rules offer in `s` with `r`.
pub open spec fn offered(s: Layout, r: Roll, offer: (Step, Roll)) -> bool {
    exists|i: int| 0 <= i < half_moves(s, r).len() && #[trigger] half_moves(s, r)[i] == offer
}

/// `offer` is among `list`.
pub open spec fn among(list: Seq<(Step, Roll)>, offer: (Step, Roll)) -> bool {
    exists|i: int| 0 <= i < list.len() && #[trigger] list[i] == offer
}

/// What stands in one of two lists stands in their concatenation.
proof fn lemma_among_concat(a: Seq<(Step, Roll)>, b: Seq<(Step, Roll)>, offer: (Step, Roll))
    ensures
        among(a + b, offer) <==> among(a, offer) || among(b, offer),
{
    if among(a, offer) {
        let i = choose|i: int| 0 <= i < a.len() && #[trigger] a[i] == offer;
        assert((a + b)[i] == offer);
    }
    if among(b, offer) {
        let i = choose|i: int| 0 <= i < b.len() && #[trigger] b[i] == offer;
        assert((a + b)[a.len() + i] == offer);
    }
    if among(a + b, offer) {
        let i = choose|i: int| 0 <= i < (a + b).len() && #[trigger] (a + b)[i] == offer;
        if i < a.len() {
            assert(a[i] == offer);
        } else {
            assert(b[i - a.len()] == offer);
        }
    }
}

/// What stands in a list, or is pushed onto it, stands in the longer list.
proof fn lemma_among_push(a: Seq<(Step, Roll)>, x: (Step, Roll), offer: (Step, Roll))
    ensures
        among(a.push(x), offer) <==> among(a, offer) || x == offer,
{
    if among(a, offer) {
        let i = choose|i: int| 0 <= i < a.len() && #[trigger] a[i] == offer;
        assert(a.push(x)[i] == offer);
    }
    if x == offer {
        assert(a.push(x)[a.len() as int] == offer);
    }
    if among(a.push(x), offer) {
        let i = choose|i: int| 0 <= i < a.push(x).len() && #[trigger] a.push(x)[i] == offer;
        if i < a.len() {
            assert(a[i] == offer);
        }
    }
}

/// The run that die `d` offers from point `i`.
pub open spec fn run_offer(r: Roll, d: int, i: int) -> (Step, Roll) {
    (Step { from: Spot::Point(i), to: Spot::Point(i + d) }, r.spend(d))
}

/// The bear-off that die `d` offers from point `p`.
pub open spec fn off_offer(r: Roll, d: int, p: int) -> (Step, Roll) {
    (Step { from: Spot::Point(p), to: Spot::Home }, r.spend(d))
}

/// The runs with die `d` from below `n` are exactly the runs from a point
/// with a checker to a point that is open.
proof fn lemma_runs_with_among(s: Layout, r: Roll, d: int, n: int, offer: (Step, Roll))
    requires
        0 <= n,
    ensures
        among(runs_with(s, r, d, n), offer) <==> exists|i: int|
            0 <= i < n && s.points[i] > 0 && s.points[i + d] >= -1 && offer == #[trigger] run_offer(
                r,
                d,
                i,
            ),
    decreases n,
{
    if n > 0 {
        lemma_runs_with_among(s, r, d, n - 1, offer);
        let rest = runs_with(s, r, d, n - 1);
        let i = n - 1;
        if s.points[i] > 0 && s.points[i + d] >= -1 {
            lemma_among_push(rest, run_offer(r, d, i), offer);
        }
        if among(runs_with(s, r, d, n), offer) {
            if among(rest, offer) {
                let j = choose|j: int|
                    0 <= j < n - 1 && s.points[j] > 0 && s.points[j + d] >= -1 && offer
                        == #[trigger] run_offer(r, d, j);
                assert(offer == run_offer(r, d, j));
            } else {
                assert(offer == run_offer(r, d, i));
            }
        }
        if exists|j: int|
            0 <= j < n && s.points[j] > 0 && s.points[j + d] >= -1 && offer == #[trigger] run_offer(
                r,
                d,
                j,
            ) {
            let j = choose|j: int|
                0 <= j < n && s.points[j] > 0 && s.points[j + d] >= -1 && offer
                    == #[trigger] run_offer(r, d, j);
            if j < n - 1 {
                assert(offer == run_offer(r, d, j));
            }
        }
    }
}

/// The runs with the first `k` dice are exactly the runs of one of those
/// dice from a point with a checker to a point that is open.
pub proof fn lemma_runs_among(s: Layout, r: Roll, k: int, offer: (Step, Roll))
    requires
        r.wf(),
        0 <= k <= r.available().len(),
    ensures
        among(runs(s, r, k), offer) <==> exists|t: int, i: int|
            0 <= t < k && 0 <= i < 24 - r.available()[t] && s.points[i] > 0 && s.points[i
                + r.available()[t]] >= -1 && offer == #[trigger] run_offer(r, r.available()[t], i),
    decreases k,
{
    if k > 0 {
        lemma_available(r);
        lemma_runs_among(s, r, k - 1, offer);
        let d = r.available()[k - 1];
        lemma_runs_with_among(s, r, d, 24 - d, offer);
        lemma_among_concat(runs(s, r, k - 1), runs_with(s, r, d, 24 - d), offer);
        if among(runs(s, r, k), offer) {
            if among(runs(s, r, k - 1), offer) {
                let (t, i) = choose|t: int, i: int|
                    0 <= t < k - 1 && 0 <= i < 24 - r.available()[t] && s.points[i] > 0 && s.points[i
                        + r.available()[t]] >= -1 && offer == #[trigger] run_offer(
                        r,
                        r.available()[t],
                        i,
                    );
                assert(offer == run_offer(r, r.available()[t], i));
            } else {
                let i = choose|i: int|
                    0 <= i < 24 - d && s.points[i] > 0 && s.points[i + d] >= -1 && offer
                        == #[trigger] run_offer(r, d, i);
                assert(offer == run_offer(r, r.available()[k - 1], i));
            }
        }
        if exists|t: int, i: int|
            0 <= t < k && 0 <= i < 24 - r.available()[t] && s.points[i] > 0 && s.points[i
                + r.available()[t]] >= -1 && offer == #[trigger] run_offer(r, r.available()[t], i) {
            let (t, i) = choose|t: int, i: int|
                0 <= t < k && 0 <= i < 24 - r.available()[t] && s.points[i] > 0 && s.points[i
                    + r.available()[t]] >= -1 && offer == #[trigger] run_offer(
                    r,
                    r.available()[t],
                    i,
                );
            if t < k - 1 {
                assert(offer == run_offer(r, r.available()[t], i));
            } else {
                assert(offer == run_offer(r, d, i));
            }
        }
    }
}

/// The exact bear-offs with the first `k` dice are exactly those of a die
/// with a checker on its own point.
pub proof fn lemma_exact_among(s: Layout, r: Roll, k: int, offer: (Step, Roll))
    requires
        0 <= k <= r.available().len(),
    ensures
        among(exact_offs(s, r, k), offer) <==> exists|t: int|
            0 <= t < k && s.points[24 - r.available()[t]] > 0 && offer == #[trigger] off_offer(
                r,
                r.available()[t],
                24 - r.available()[t],
            ),
        exact_offs(s, r, k).len() == 0 <==> forall|t: int|
            0 <= t < k ==> s.points[24 - #[trigger] r.available()[t]] <= 0,
    decreases k,
{
    if k > 0 {
        lemma_exact_among(s, r, k - 1, offer);
        let rest = exact_offs(s, r, k - 1);
        let d = r.available()[k - 1];
        if s.points[24 - d] > 0 {
            lemma_among_push(rest, off_offer(r, d, 24 - d), offer);
        }
        if among(exact_offs(s, r, k), offer) {
            if among(rest, offer) {
                let t = choose|t: int|
                    0 <= t < k - 1 && s.points[24 - r.available()[t]] > 0 && offer
                        == #[trigger] off_offer(r, r.available()[t], 24 - r.available()[t]);
                assert(offer == off_offer(r, r.available()[t], 24 - r.available()[t]));
            } else {
                assert(offer == off_offer(r, r.available()[k - 1], 24 - r.available()[k - 1]));
            }
        }
        if exists|t: int|
            0 <= t < k && s.points[24 - r.available()[t]] > 0 && offer == #[trigger] off_offer(
                r,
                r.available()[t],
                24 - r.available()[t],
            ) {
            let t = choose|t: int|
                0 <= t < k && s.points[24 - r.available()[t]] > 0 && offer == #[trigger] off_offer(
                    r,
                    r.available()[t],
                    24 - r.available()[t],
                );
            if t < k - 1 {
                assert(offer == off_offer(r, r.available()[t], 24 - r.available()[t]));
            }
        }
        if exact_offs(s, r, k).len() == 0 {
            assert forall|t: int| 0 <= t < k implies s.points[24 - #[trigger] r.available()[t]]
                <= 0 by {
                if t < k - 1 {
                }
            }
        }
        if forall|t: int| 0 <= t < k ==> s.points[24 - #[trigger] r.available()[t]] <= 0 {
            assert(s.points[24 - r.available()[k - 1]] <= 0);
        }
    }
}

/// The overshoots with die `d` from below `n` are exactly the bear-offs
/// from one of the last `d` points that holds a checker.
proof fn lemma_over_with_among(s: Layout, r: Roll, d: int, n: int, offer: (Step, Roll))
    requires
        1 <= d <= 6,
        24 - d <= n <= 24,
    ensures
        among(over_with(s, r, d, n), offer) <==> exists|p: int|
            24 - d <= p < n && s.points[p] > 0 && offer == #[trigger] off_offer(r, d, p),
    decreases n,
{
    if n > 24 - d {
        lemma_over_with_among(s, r, d, n - 1, offer);
        let rest = over_with(s, r, d, n - 1);
        let p = n - 1;
        if s.points[p] > 0 {
            lemma_among_push(rest, off_offer(r, d, p), offer);
        }
        if among(over_with(s, r, d, n), offer) {
            if among(rest, offer) {
                let q = choose|q: int|
                    24 - d <= q < n - 1 && s.points[q] > 0 && offer == #[trigger] off_offer(r, d, q);
                assert(offer == off_offer(r, d, q));
            } else {
                assert(offer == off_offer(r, d, p));
            }
        }
        if exists|q: int| 24 - d <= q < n && s.points[q] > 0 && offer == #[trigger] off_offer(r, d, q) {
            let q = choose|q: int|
                24 - d <= q < n && s.points[q] > 0 && offer == #[trigger] off_offer(r, d, q);
            if q < n - 1 {
                assert(offer == off_offer(r, d, q));
            }
        }
    }
}

/// The overshoots with the first `k` dice are exactly the bear-offs with
/// one of those dice from one of its last points that holds a checker.
pub proof fn lemma_overshoots_among(s: Layout, r: Roll, k: int, offer: (Step, Roll))
    requires
        r.wf(),
        0 <= k <= r.available().len(),
    ensures
        among(overshoots(s, r, k), offer) <==> exists|t: int, p: int|
            0 <= t < k && 24 - r.available()[t] <= p < 24 && s.points[p] > 0 && offer
                == #[trigger] off_offer(r, r.available()[t], p),
    decreases k,
{
    if k > 0 {
        lemma_available(r);
        lemma_overshoots_among(s, r, k - 1, offer);
        let d = r.available()[k - 1];
        lemma_over_with_among(s, r, d, 24, offer);
        lemma_among_concat(overshoots(s, r, k - 1), over_with(s, r, d, 24), offer);
        if among(overshoots(s, r, k), offer) {
            if among(overshoots(s, r, k - 1), offer) {
                let (t, p) = choose|t: int, p: int|
                    0 <= t < k - 1 && 24 - r.available()[t] <= p < 24 && s.points[p] > 0 && offer
                        == #[trigger] off_offer(r, r.available()[t], p);
                assert(offer == off_offer(r, r.available()[t], p));
            } else {
                let p = choose|p: int|
                    24 - d <= p < 24 && s.points[p] > 0 && offer == #[trigger] off_offer(r, d, p);
                assert(offer == off_offer(r, r.available()[k - 1], p));
            }
        }
        if exists|t: int, p: int|
            0 <= t < k && 24 - r.available()[t] <= p < 24 && s.points[p] > 0 && offer
                == #[trigger] off_offer(r, r.available()[t], p) {
            let (t, p) = choose|t: int, p: int|
                0 <= t < k && 24 - r.available()[t] <= p < 24 && s.points[p] > 0 && offer
                    == #[trigger] off_offer(r, r.available()[t], p);
            if t < k - 1 {
                assert(offer == off_offer(r, r.available()[t], p));
            } else {
                assert(offer == off_offer(r, d, p));
            }
        }
    }
}

/// With nothing on the bar, a die offers the run from a point with a checker
/// to an open point.
pub proof fn lemma_run_offered(s: Layout, r: Roll, t: int, i: int)
    requires
        r.wf(),
        s.active_bar == 0,
        0 <= t < r.available().len(),
        0 <= i < 24 - r.available()[t],
        s.points[i] > 0,
        s.points[i + r.available()[t]] >= -1,
    ensures
        offered(s, r, run_offer(r, r.available()[t], i)),
{
    let k = r.available().len() as int;
    let offer = run_offer(r, r.available()[t], i);
    lemma_runs_among(s, r, k, offer);
    assert(among(runs(s, r, k), offer));
    lemma_among_concat(runs(s, r, k), bear_offs(s, r), offer);
    let j = choose|j: int| 0 <= j < half_moves(s, r).len() && #[trigger] half_moves(s, r)[j] == offer;
}

/// Where the mover may bear off and no die finds a checker on its own
/// point, a die offers the bear-off from any of its last points that holds a
/// checker.
pub proof fn lemma_over_offered(s: Layout, r: Roll, t: int, p: int)
    requires
        r.wf(),
        s.active_bar == 0,
        s.can_bear_off(),
        exact_offs(s, r, r.available().len() as int).len() == 0,
        0 <= t < r.available().len(),
        24 - r.available()[t] <= p < 24,
        s.points[p] > 0,
    ensures
        offered(s, r, off_offer(r, r.available()[t], p)),
{
    let k = r.available().len() as int;
    let offer = off_offer(r, r.available()[t], p);
    lemma_overshoots_among(s, r, k, offer);
    assert(among(overshoots(s, r, k), offer));
    lemma_among_concat(runs(s, r, k), bear_offs(s, r), offer);
    let j = choose|j: int| 0 <= j < half_moves(s, r).len() && #[trigger] half_moves(s, r)[j] == offer;
}

/// Where the mover may bear off and a die finds a checker on its own point,
/// there is a half-move.
pub proof fn lemma_exact_offered(s: Layout, r: Roll)
    requires
        s.active_bar == 0,
        s.can_bear_off(),
        exact_offs(s, r, r.available().len() as int).len() > 0,
    ensures
        half_moves(s, r).len() > 0,
{
}

/// With nothing on the bar, an offer that goes home is a bear-off with a
/// die from one of its last points, and from its own point where any die
/// finds a checker on its own.
pub proof fn lemma_home_offer(s: Layout, r: Roll, p: int, r2: Roll)
    requires
        r.wf(),
        s.active_bar == 0,
        offered(s, r, (Step { from: Spot::Point(p), to: Spot::Home }, r2)),
    ensures
        s.can_bear_off(),
        s.points[p] > 0,
        exists|t: int|
            0 <= t < r.available().len() && r2 == r.spend(#[trigger] r.available()[t]) && 24
                - r.available()[t] <= p < 24 && (exact_offs(s, r, r.available().len() as int).len()
                > 0 ==> p == 24 - r.available()[t]),
{
    let k = r.available().len() as int;
    let offer = (Step { from: Spot::Point(p), to: Spot::Home }, r2);
    lemma_available(r);
    lemma_runs_among(s, r, k, offer);
    lemma_exact_among(s, r, k, offer);
    lemma_overshoots_among(s, r, k, offer);
    let j = choose|j: int| 0 <= j < half_moves(s, r).len() && #[trigger] half_moves(s, r)[j] == offer;
    if s.can_bear_off() {
        lemma_among_concat(runs(s, r, k), bear_offs(s, r), offer);
        assert(among(half_moves(s, r), offer));
    } else {
        assert(among(runs(s, r, k), offer));
    }
    if among(runs(s, r, k), offer) {
        let (t, i) = choose|t: int, i: int|
            0 <= t < k && 0 <= i < 24 - r.available()[t] && s.points[i] > 0 && s.points[i
                + r.available()[t]] >= -1 && offer == #[trigger] run_offer(r, r.available()[t], i);
        assert(false);
    }
    if exact_offs(s, r, k).len() > 0 {
        let t = choose|t: int|
            0 <= t < k && s.points[24 - r.available()[t]] > 0 && offer == #[trigger] off_offer(
                r,
                r.available()[t],
                24 - r.available()[t],
            );
        assert(r2 == r.spend(r.available()[t]));
    } else {
        let (t, q) = choose|t: int, q: int|
            0 <= t < k && 24 - r.available()[t] <= q < 24 && s.points[q] > 0 && offer
                == #[trigger] off_offer(r, r.available()[t], q);
        assert(r2 == r.spend(r.available()[t]));
    }
}

} // verus!
