use vstd::prelude::*;
use crate::rules::counting::{count_if, lemma_same_counts};
use crate::rules::layout::{Layout, Spot, Step};
use crate::rules::moves::same_steps;

verus! {

/// How many of the first `n` steps leave point `j`.
pub open spec fn departures(a: Seq<Step>, n: int, j: int) -> int {
    count_if(a, n, |st: Step| st.from == Spot::Point(j))
}

/// How many of the first `n` steps arrive on point `j`.
pub open spec fn arrivals(a: Seq<Step>, n: int, j: int) -> int {
    count_if(a, n, |st: Step| st.to == Spot::Point(j))
}

/// How many of the first `n` steps leave the bar.
pub open spec fn entries_made(a: Seq<Step>, n: int) -> int {
    count_if(a, n, |st: Step| st.from is Bar)
}

/// How many of the first `n` steps go home.
pub open spec fn borne_off(a: Seq<Step>, n: int) -> int {
    count_if(a, n, |st: Step| st.to is Home)
}

/// What a point that held `v` holds after `arr` arrivals and `dep`
/// departures: a single opposing checker is gone with the first arrival.
pub open spec fn settled(v: int, arr: int, dep: int) -> int {
    if v == -1 && arr > 0 {
        arr - dep
    } else {
        v + arr - dep
    }
}

/// On how many of the points below `m` the first `n` steps hit a single
/// opposing checker.
pub open spec fn hits(points: Seq<int>, a: Seq<Step>, n: int, m: int) -> int
    decreases m,
{
    if m <= 0 {
        0
    } else {
        hits(points, a, n, m - 1) + if points[m - 1] == -1 && arrivals(a, n, m - 1) > 0 {
            1int
        } else {
            0int
        }
    }
}

/// The position after the first `n` steps of `a` is the starting position
/// with, on each point, the arrivals added and the departures taken off.
pub open spec fn netted(s0: Layout, a: Seq<Step>, n: int) -> bool {
    let s = s0.play(a, n);
    &&& s.tidy()
    &&& s.white_to_move == s0.white_to_move
    &&& s.passive_home == s0.passive_home
    &&& s.active_bar == s0.active_bar - entries_made(a, n)
    &&& s.active_home == s0.active_home + borne_off(a, n)
    &&& s.passive_bar == s0.passive_bar + hits(s0.points, a, n, 24)
    &&& forall|j: int|
        0 <= j < 24 ==> {
            &&& #[trigger] s.points[j] == settled(s0.points[j], arrivals(a, n, j), departures(a, n, j))
            &&& arrivals(a, n, j) >= 0
            &&& departures(a, n, j) >= 0
            &&& s0.points[j] <= -1 && arrivals(a, n, j) == 0 ==> departures(a, n, j) == 0
            &&& s0.points[j] < -1 ==> arrivals(a, n, j) == 0
            &&& s0.points[j] >= 0 || arrivals(a, n, j) > 0 ==> s.points[j] >= 0
        }
}

/// One more step changes the hits by the hit it makes.
proof fn lemma_hits_step(points: Seq<int>, a: Seq<Step>, n: int, m: int)
    requires
        0 <= m <= 24,
        0 <= n < a.len(),
        forall|j: int| 0 <= j < 24 ==> arrivals(a, n, j) >= 0,
    ensures
        hits(points, a, n + 1, m) == hits(points, a, n, m) + (match a[n].to {
            Spot::Point(j) => if 0 <= j < m && points[j] == -1 && arrivals(a, n, j) == 0 {
                1int
            } else {
                0int
            },
            _ => 0int,
        }),
    decreases m,
{
    if m > 0 {
        lemma_hits_step(points, a, n, m - 1);
        assert(arrivals(a, n + 1, m - 1) == arrivals(a, n, m - 1) + if a[n].to == Spot::Point(m - 1) {
            1int
        } else {
            0int
        });
    }
}

/// Steps that the position accepts one after the other net out.
pub proof fn lemma_netted(s0: Layout, a: Seq<Step>, n: int)
    requires
        s0.tidy(),
        s0.accepts(a),
        0 <= n <= a.len(),
    ensures
        netted(s0, a, n),
    decreases n,
{
    if n == 0 {
        assert(hits(s0.points, a, 0, 24) == 0) by {
            lemma_no_hits(s0.points, a, 24);
        }
    } else {
        lemma_netted(s0, a, n - 1);
        let k = n - 1;
        let s = s0.play(a, k);
        let st = a[k];
        assert(s.admits(st));
        let lifted = s.lift(st.from);
        let t = s0.play(a, n);
        assert(t == lifted.land(st.to));
        assert forall|j: int| 0 <= j < 24 implies arrivals(a, k, j) >= 0 by {
            let v = s.points[j];
        }
        lemma_hits_step(s0.points, a, k, 24);
        assert forall|j: int| 0 <= j < 24 implies {
            &&& #[trigger] t.points[j] == settled(s0.points[j], arrivals(a, n, j), departures(a, n, j))
            &&& arrivals(a, n, j) >= 0
            &&& departures(a, n, j) >= 0
            &&& s0.points[j] <= -1 && arrivals(a, n, j) == 0 ==> departures(a, n, j) == 0
            &&& s0.points[j] < -1 ==> arrivals(a, n, j) == 0
            &&& s0.points[j] >= 0 || arrivals(a, n, j) > 0 ==> t.points[j] >= 0
        } by {
            assert(s.points[j] == settled(s0.points[j], arrivals(a, k, j), departures(a, k, j)));
            assert(arrivals(a, n, j) == arrivals(a, k, j) + if st.to == Spot::Point(j) {
                1int
            } else {
                0int
            });
            assert(departures(a, n, j) == departures(a, k, j) + if st.from == Spot::Point(j) {
                1int
            } else {
                0int
            });
        }
        assert(entries_made(a, n) == entries_made(a, k) + if st.from is Bar {
            1int
        } else {
            0int
        });
        assert(borne_off(a, n) == borne_off(a, k) + if st.to is Home {
            1int
        } else {
            0int
        });
    }
}

/// Before any step nothing is hit.
proof fn lemma_no_hits(points: Seq<int>, a: Seq<Step>, m: int)
    ensures
        hits(points, a, 0, m) == 0,
    decreases m,
{
    if m > 0 {
        lemma_no_hits(points, a, m - 1);
    }
}

/// Sequences with the same arrivals have the same hits.
proof fn lemma_same_hits(points: Seq<int>, a: Seq<Step>, b: Seq<Step>, n: int, m: int)
    requires
        forall|j: int| 0 <= j < 24 ==> arrivals(a, n, j) == arrivals(b, n, j),
        0 <= m <= 24,
    ensures
        hits(points, a, n, m) == hits(points, b, n, m),
    decreases m,
{
    if m > 0 {
        lemma_same_hits(points, a, b, n, m - 1);
    }
}

/// Two sequences of the same steps, in whatever order, lead to the same
/// position if the starting position accepts both.
pub proof fn lemma_same_steps_same_end(s0: Layout, a: Seq<Step>, b: Seq<Step>)
    requires
        s0.tidy(),
        s0.accepts(a),
        s0.accepts(b),
        same_steps(a, b),
    ensures
        a.len() == b.len(),
        s0.play(a, a.len() as int) == s0.play(b, b.len() as int),
{
    let n = a.len() as int;
    lemma_same_counts(a, b, |st: Step| st.from is Bar);
    lemma_same_counts(a, b, |st: Step| st.to is Home);
    lemma_netted(s0, a, n);
    lemma_netted(s0, b, n);
    assert forall|j: int| 0 <= j < 24 implies arrivals(a, n, j) == arrivals(b, n, j) && departures(
        a,
        n,
        j,
    ) == departures(b, n, j) by {
        lemma_same_counts(a, b, |st: Step| st.to == Spot::Point(j));
        lemma_same_counts(a, b, |st: Step| st.from == Spot::Point(j));
    }
    lemma_same_hits(s0.points, a, b, n, 24);
    let x = s0.play(a, n);
    let y = s0.play(b, n);
    assert forall|j: int| 0 <= j < 24 implies x.points[j] == y.points[j] by {
        assert(x.points[j] == settled(s0.points[j], arrivals(a, n, j), departures(a, n, j)));
        assert(y.points[j] == settled(s0.points[j], arrivals(b, n, j), departures(b, n, j)));
    }
    assert(x.points =~= y.points);
}

} // verus!
