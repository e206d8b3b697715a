use vstd::prelude::*;
use crate::rules::layout::{Layout, Spot, Step};
use crate::rules::roll::Roll;

verus! {

/// How often `st` stands among the first `n` steps of `steps`.
pub open spec fn occurrences(steps: Seq<Step>, st: Step, n: int) -> int
    decreases n,
{
    if n <= 0 {
        0
    } else {
        occurrences(steps, st, n - 1) + if steps[n - 1] == st {
            1int
        } else {
            0int
        }
    }
}

/// `a` and `b` hold the same steps the same number of times, in any order.
pub open spec fn same_steps(a: Seq<Step>, b: Seq<Step>) -> bool {
    forall|st: Step| #[trigger]
        occurrences(a, st, a.len() as int) == occurrences(b, st, b.len() as int)
}

/// A step that the first `n` of `steps` do not hold occurs zero times.
pub proof fn lemma_absent(steps: Seq<Step>, st: Step, n: int)
    requires
        n <= steps.len(),
        forall|i: int| 0 <= i < n ==> steps[i] != st,
    ensures
        occurrences(steps, st, n) == 0,
    decreases n,
{
    if n > 0 {
        lemma_absent(steps, st, n - 1);
    }
}

/// Re-entries from the bar with the first `k` available dice.
pub open spec fn entries(s: Layout, r: Roll, k: int) -> Seq<(Step, Roll)>
    decreases k,
{
    if k <= 0 {
        Seq::empty()
    } else {
        let rest = entries(s, r, k - 1);
        let d = r.available()[k - 1];
        if s.points[d - 1] >= -1 {
            rest.push((Step { from: Spot::Bar, to: Spot::Point(d - 1) }, r.spend(d)))
        } else {
            rest
        }
    }
}

/// Moves along the board with die `d` from the points below `n`, lowest
/// point first.
pub open spec fn runs_with(s: Layout, r: Roll, d: int, n: int) -> Seq<(Step, Roll)>
    decreases n,
{
    if n <= 0 {
        Seq::empty()
    } else {
        let rest = runs_with(s, r, d, n - 1);
        let i = n - 1;
        if s.points[i] > 0 && s.points[i + d] >= -1 {
            rest.push((Step { from: Spot::Point(i), to: Spot::Point(i + d) }, r.spend(d)))
        } else {
            rest
        }
    }
}

/// Moves along the board with the first `k` available dice.
pub open spec fn runs(s: Layout, r: Roll, k: int) -> Seq<(Step, Roll)>
    decreases k,
{
    if k <= 0 {
        Seq::empty()
    } else {
        let d = r.available()[k - 1];
        runs(s, r, k - 1) + runs_with(s, r, d, 24 - d)
    }
}

/// Bear-offs by the exact die, from point `24 - d`, with the first `k`
/// available dice.
pub open spec fn exact_offs(s: Layout, r: Roll, k: int) -> Seq<(Step, Roll)>
    decreases k,
{
    if k <= 0 {
        Seq::empty()
    } else {
        let rest = exact_offs(s, r, k - 1);
        let d = r.available()[k - 1];
        if s.points[24 - d] > 0 {
            rest.push((Step { from: Spot::Point(24 - d), to: Spot::Home }, r.spend(d)))
        } else {
            rest
        }
    }
}

/// Bear-offs with a die `d` larger than needed, from the points
/// `24 - d .. n`, lowest point first.
pub open spec fn over_with(s: Layout, r: Roll, d: int, n: int) -> Seq<(Step, Roll)>
    decreases n,
{
    if n <= 24 - d || n <= 0 {
        Seq::empty()
    } else {
        let rest = over_with(s, r, d, n - 1);
        let p = n - 1;
        if s.points[p] > 0 {
            rest.push((Step { from: Spot::Point(p), to: Spot::Home }, r.spend(d)))
        } else {
            rest
        }
    }
}

/// Bear-offs by overshoot with the first `k` available dice.
pub open spec fn overshoots(s: Layout, r: Roll, k: int) -> Seq<(Step, Roll)>
    decreases k,
{
    if k <= 0 {
        Seq::empty()
    } else {
        let d = r.available()[k - 1];
        overshoots(s, r, k - 1) + over_with(s, r, d, 24)
    }
}

/// Bear-offs in a position that allows them: by the exact die where there is
/// one, else by overshoot.
pub open spec fn bear_offs(s: Layout, r: Roll) -> Seq<(Step, Roll)> {
    let k = r.available().len() as int;
    if exact_offs(s, r, k).len() == 0 {
        overshoots(s, r, k)
    } else {
        exact_offs(s, r, k)
    }
}

/// Every half-move that one die of `r` allows in `s`, each with the roll
/// that is left after it, in the order in which they are produced. With a
/// checker on the bar only re-entries count.
pub open spec fn half_moves(s: Layout, r: Roll) -> Seq<(Step, Roll)> {
    let k = r.available().len() as int;
    if s.active_bar != 0 {
        entries(s, r, k)
    } else if s.can_bear_off() {
        runs(s, r, k) + bear_offs(s, r)
    } else {
        runs(s, r, k)
    }
}

/// `st` is what the die value `d` does: it enters from the bar on point
/// `d - 1`, runs `d` points, or bears off from one of the last `d` points.
pub open spec fn uses(st: Step, d: int) -> bool {
    match (st.from, st.to) {
        (Spot::Bar, Spot::Point(j)) => j == d - 1,
        (Spot::Point(i), Spot::Point(j)) => j == i + d,
        (Spot::Point(p), Spot::Home) => p + d >= 24,
        _ => false,
    }
}

/// What the rules ask of one offered half-move: the position admits it, it
/// is what one available die does and the roll that comes with it is the roll
/// after that die; it leaves the bar exactly when a checker waits there; and
/// it goes home only where the mover may bear off.
pub open spec fn fair(s: Layout, r: Roll, offer: (Step, Roll)) -> bool {
    &&& s.admits(offer.0)
    &&& offer.0.from is Bar <==> s.active_bar != 0
    &&& offer.0.to is Home ==> s.can_bear_off()
    &&& exists|d: int|
        r.available().contains(d) && uses(offer.0, d) && offer.1 == #[trigger] r.spend(d)
}

/// Every offer of `list` is fair.
pub open spec fn all_fair(s: Layout, r: Roll, list: Seq<(Step, Roll)>) -> bool {
    forall|i: int| 0 <= i < list.len() ==> fair(s, r, #[trigger] list[i])
}

/// Re-entries are fair, and there is at most one for each die.
proof fn lemma_entries_fair(s: Layout, r: Roll, k: int)
    requires
        s.tidy(),
        r.wf(),
        s.active_bar != 0,
        0 <= k <= r.available().len(),
    ensures
        all_fair(s, r, entries(s, r, k)),
        entries(s, r, k).len() <= k,
    decreases k,
{
    if k > 0 {
        lemma_entries_fair(s, r, k - 1);
        crate::rules::roll::lemma_available(r);
        let d = r.available()[k - 1];
        let offer = (Step { from: Spot::Bar, to: Spot::Point(d - 1) }, r.spend(d));
        if s.points[d - 1] >= -1 {
            assert(r.available().contains(d) && uses(offer.0, d) && offer.1 == r.spend(d));
            assert(fair(s, r, offer));
        }
    }
}

/// The runs with one die are fair, at most one from each point.
proof fn lemma_runs_with_fair(s: Layout, r: Roll, d: int, n: int)
    requires
        s.tidy(),
        s.active_bar == 0,
        r.available().contains(d),
        1 <= d <= 6,
        0 <= n <= 24 - d,
    ensures
        all_fair(s, r, runs_with(s, r, d, n)),
        runs_with(s, r, d, n).len() <= n,
    decreases n,
{
    if n > 0 {
        lemma_runs_with_fair(s, r, d, n - 1);
        let i = n - 1;
        let offer = (Step { from: Spot::Point(i), to: Spot::Point(i + d) }, r.spend(d));
        if s.points[i] > 0 && s.points[i + d] >= -1 {
            assert(r.available().contains(d) && uses(offer.0, d) && offer.1 == r.spend(d));
            assert(fair(s, r, offer));
        }
    }
}

/// The runs are fair, at most 23 for each die.
proof fn lemma_runs_fair(s: Layout, r: Roll, k: int)
    requires
        s.tidy(),
        r.wf(),
        s.active_bar == 0,
        0 <= k <= r.available().len(),
    ensures
        all_fair(s, r, runs(s, r, k)),
        runs(s, r, k).len() <= 23 * k,
    decreases k,
{
    if k > 0 {
        lemma_runs_fair(s, r, k - 1);
        crate::rules::roll::lemma_available(r);
        let d = r.available()[k - 1];
        lemma_runs_with_fair(s, r, d, 24 - d);
    }
}

/// Bear-offs by the exact die are fair, at most one for each die.
proof fn lemma_exact_offs_fair(s: Layout, r: Roll, k: int)
    requires
        s.tidy(),
        r.wf(),
        s.can_bear_off(),
        0 <= k <= r.available().len(),
    ensures
        all_fair(s, r, exact_offs(s, r, k)),
        exact_offs(s, r, k).len() <= k,
    decreases k,
{
    if k > 0 {
        lemma_exact_offs_fair(s, r, k - 1);
        crate::rules::roll::lemma_available(r);
        let d = r.available()[k - 1];
        let offer = (Step { from: Spot::Point(24 - d), to: Spot::Home }, r.spend(d));
        if s.points[24 - d] > 0 {
            assert(r.available().contains(d) && uses(offer.0, d) && offer.1 == r.spend(d));
            assert(fair(s, r, offer));
        }
    }
}

/// The overshoots with one die are fair, at most one from each point.
proof fn lemma_over_with_fair(s: Layout, r: Roll, d: int, n: int)
    requires
        s.tidy(),
        s.can_bear_off(),
        r.available().contains(d),
        1 <= d <= 6,
        24 - d <= n <= 24,
    ensures
        all_fair(s, r, over_with(s, r, d, n)),
        over_with(s, r, d, n).len() <= n - (24 - d),
    decreases n,
{
    if n > 24 - d {
        lemma_over_with_fair(s, r, d, n - 1);
        let p = n - 1;
        let offer = (Step { from: Spot::Point(p), to: Spot::Home }, r.spend(d));
        if s.points[p] > 0 {
            assert(r.available().contains(d) && uses(offer.0, d) && offer.1 == r.spend(d));
            assert(fair(s, r, offer));
        }
    }
}

/// Overshoots are fair, at most six for each die.
proof fn lemma_overshoots_fair(s: Layout, r: Roll, k: int)
    requires
        s.tidy(),
        r.wf(),
        s.can_bear_off(),
        0 <= k <= r.available().len(),
    ensures
        all_fair(s, r, overshoots(s, r, k)),
        overshoots(s, r, k).len() <= 6 * k,
    decreases k,
{
    if k > 0 {
        lemma_overshoots_fair(s, r, k - 1);
        crate::rules::roll::lemma_available(r);
        let d = r.available()[k - 1];
        lemma_over_with_fair(s, r, d, 24);
    }
}

/// Every half-move that the rules offer is fair, and there are at most 58
/// of them.
pub proof fn lemma_half_moves_fair(s: Layout, r: Roll)
    requires
        s.tidy(),
        r.wf(),
    ensures
        all_fair(s, r, half_moves(s, r)),
        half_moves(s, r).len() <= 58,
{
    crate::rules::roll::lemma_available(r);
    let k = r.available().len() as int;
    if s.active_bar != 0 {
        lemma_entries_fair(s, r, k);
    } else {
        lemma_runs_fair(s, r, k);
        if s.can_bear_off() {
            lemma_exact_offs_fair(s, r, k);
            lemma_overshoots_fair(s, r, k);
        }
    }
}

/// A fair offer moves one checker and leaves a well-formed roll with one use
/// less.
pub proof fn lemma_fair_offer(s: Layout, r: Roll, offer: (Step, Roll))
    requires
        s.tidy(),
        r.wf(),
        fair(s, r, offer),
    ensures
        offer.1.wf(),
        offer.1.uses_left() == r.uses_left() - 1,
        r.uses_left() >= 1,
        !r.all_used(),
{
    let d = choose|d: int|
        r.available().contains(d) && uses(offer.0, d) && offer.1 == #[trigger] r.spend(d);
    crate::rules::roll::lemma_spend(r, d);
    crate::rules::roll::lemma_available(r);
}

/// A roll after one of its dice is well formed.
pub proof fn lemma_spend_wf(r: Roll, d: int)
    requires
        r.wf(),
        r.available().contains(d),
    ensures
        r.spend(d).wf(),
{
    crate::rules::roll::lemma_spend(r, d);
}

} // verus!
