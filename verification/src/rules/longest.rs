use vstd::prelude::*;

use crate::rules::layout::{
    lemma_counts,
    lemma_own_update,
    lemma_split,
    own_between,
    Layout,
    Spot,
    Step,
};
use crate::rules::lines::{
    frontier_at,
    is_line,
    lemma_cover_double,
    lemma_first_frontier,
    lemma_frontier_grows,
    lemma_frontier_reached,
    lemma_line_length,
    lemma_line_shorter,
    roll_at,
};
use crate::rules::moves::{exact_offs, fair, half_moves, lemma_half_moves_fair, uses};
use crate::rules::offers::{
    lemma_exact_offered,
    lemma_home_offer,
    lemma_over_offered,
    lemma_run_offered,
    off_offer,
    offered,
    run_offer,
};
use crate::rules::roll::{lemma_available, Roll};
use crate::rules::search::{
    backwards,
    child,
    expand,
    legal_moves,
    lemma_distinct,
    next_frontier,
    root,
    search,
    sound,
    Node,
};

verus! {

/// Where the mover may bear off, no checker of the mover stands outside the
/// home board.
proof fn lemma_home_only(s: Layout)
    requires
        s.tidy(),
        s.can_bear_off(),
        s.own_total() <= 15,
    ensures
        forall|i: int| 0 <= i < 18 ==> #[trigger] s.points[i] <= 0,
{
    lemma_split(s.points, 0, 18, 24);
    lemma_counts(s.points, 0, 18);
    lemma_counts(s.points, 18, 24);
    assert forall|i: int| 0 <= i < 18 implies #[trigger] s.points[i] <= 0 by {
        assert(crate::rules::layout::own(s.points[i]) <= own_between(s.points, 0, 18));
    }
}

/// Bearing a checker off keeps the right to bear off.
proof fn lemma_off_keeps_bear_off(s: Layout, p: int)
    requires
        s.tidy(),
        s.can_bear_off(),
        s.own_total() <= 15,
        0 <= p < 24,
        s.points[p] > 0,
    ensures
        s.step(Step { from: Spot::Point(p), to: Spot::Home }).can_bear_off(),
        s.step(Step { from: Spot::Point(p), to: Spot::Home }).active_bar == 0,
        s.step(Step { from: Spot::Point(p), to: Spot::Home }).points == s.points.update(
            p,
            s.points[p] - 1,
        ),
{
    lemma_home_only(s);
    lemma_own_update(s.points, p, s.points[p] - 1, 18, 24);
}

/// A run inside the home board keeps the right to bear off.
proof fn lemma_run_keeps_bear_off(s: Layout, i: int, j: int)
    requires
        s.tidy(),
        s.can_bear_off(),
        s.own_total() <= 15,
        0 <= i < j < 24,
        s.points[i] > 0,
        s.points[j] >= -1,
    ensures
        s.step(Step { from: Spot::Point(i), to: Spot::Point(j) }).can_bear_off(),
        s.step(Step { from: Spot::Point(i), to: Spot::Point(j) }).active_bar == 0,
        forall|q: int|
            0 <= q < 24 && q != i ==> #[trigger] s.step(
                Step { from: Spot::Point(i), to: Spot::Point(j) },
            ).points[q] >= s.points[q],
{
    lemma_home_only(s);
    let a = s.lift(Spot::Point(i));
    lemma_own_update(s.points, i, s.points[i] - 1, 18, 24);
    if a.points[j] == -1 {
        lemma_own_update(a.points, j, 1, 18, 24);
    } else {
        lemma_own_update(a.points, j, a.points[j] + 1, 18, 24);
    }
}

/// A position in which the mover may bear off, with a checker on one of the
/// last points of the one die that is left, has a half-move.
proof fn lemma_die_bears_off(s: Layout, r: Roll, p: int)
    requires
        r.wf(),
        s.active_bar == 0,
        s.can_bear_off(),
        r.available().len() == 1,
        24 - r.available()[0] <= p < 24,
        s.points[p] > 0,
    ensures
        half_moves(s, r).len() > 0,
{
    if exact_offs(s, r, 1).len() > 0 {
        lemma_exact_offered(s, r);
    } else {
        lemma_over_offered(s, r, 0, p);
    }
}

/// With two different dice, a line of two half-moves makes the search reach
/// two half-moves, whatever it dropped after the first.
proof fn lemma_single_second(s: Layout, r: Roll, steps: Seq<Step>, rolls: Seq<Roll>)
    requires
        s.tidy(),
        r.wf(),
        r is Single,
        s.own_total() <= 15,
        s.their_total() <= 15,
        is_line(s, r, steps, rolls, 2),
    ensures
        frontier_at(s, r, 2).len() > 0,
{
    lemma_line_shorter(s, r, steps, rolls, 2, 1);
    lemma_line_length(s, r, steps, rolls, 2);
    lemma_available(r);
    let st1 = steps[0];
    let r1 = rolls[0];
    let st2 = steps[1];
    let r2 = rolls[1];
    let s1 = s.step(st1);
    assert(s.play(steps, 0) == s);
    assert(s.play(steps, 1) == s1);
    assert(offered(s, r, (st1, r1)));
    assert(offered(s1, r1, (st2, r2)));
    let u = lemma_first_frontier(s, r, (st1, r1));
    let w = frontier_at(s, r, 1)[u];
    if w.roll == r1 {
        lemma_frontier_grows(s, r, 1, u);
    } else {
        lemma_half_moves_fair(s, r);
        let i1 = choose|i: int| 0 <= i < half_moves(s, r).len() && #[trigger] half_moves(s, r)[i] == (st1, r1);
        let i2 = choose|i: int|
            0 <= i < half_moves(s, r).len() && #[trigger] half_moves(s, r)[i] == (st1, w.roll);
        assert(fair(s, r, half_moves(s, r)[i1]));
        assert(fair(s, r, half_moves(s, r)[i2]));
        let d = choose|d: int| r.available().contains(d) && uses(st1, d) && r1 == #[trigger] r.spend(d);
        let e = choose|e: int|
            r.available().contains(e) && uses(st1, e) && w.roll == #[trigger] r.spend(e);
        assert(d != e);
        assert(st1.to is Home);
        assert(st1.from is Point);
        let p = st1.from->Point_0;
        assert(st1 == Step { from: Spot::Point(p), to: Spot::Home });
        assert(s.active_bar == 0);
        lemma_home_offer(s, r, p, r1);
        lemma_home_offer(s, r, p, w.roll);
        let t1 = choose|t: int|
            0 <= t < r.available().len() && r1 == r.spend(#[trigger] r.available()[t]) && 24
                - r.available()[t] <= p < 24 && (exact_offs(s, r, r.available().len() as int).len()
                > 0 ==> p == 24 - r.available()[t]);
        let t2 = choose|t: int|
            0 <= t < r.available().len() && w.roll == r.spend(#[trigger] r.available()[t]) && 24
                - r.available()[t] <= p < 24 && (exact_offs(s, r, r.available().len() as int).len()
                > 0 ==> p == 24 - r.available()[t]);
        assert(t1 != t2);
        let d1 = r.available()[t1];
        let d2 = r.available()[t2];
        assert(d1 != d2);
        assert(exact_offs(s, r, r.available().len() as int).len() == 0);
        assert(r1 == r.spend(d1));
        assert(r1.available() =~= seq![d2]);
        lemma_off_keeps_bear_off(s, p);
        crate::rules::layout::lemma_step_keeps_totals(s, st1);
        crate::rules::moves::lemma_spend_wf(r, d1);
        lemma_half_moves_fair(s1, r1);
        let j2 = choose|j: int| 0 <= j < half_moves(s1, r1).len() && #[trigger] half_moves(s1, r1)[j] == (st2, r2);
        assert(fair(s1, r1, half_moves(s1, r1)[j2]));
        let e2 = choose|x: int| r1.available().contains(x) && uses(st2, x) && r2 == #[trigger] r1.spend(x);
        assert(e2 == d2) by {
            let idx = choose|idx: int| 0 <= idx < r1.available().len() && r1.available()[idx] == e2;
        }
        assert(st2.from is Point);
        let i = st2.from->Point_0;
        assert(s1.points[i] > 0 && 0 <= i < 24);
        assert(s.points[i] >= s1.points[i]);
        if st2.to is Home {
            let q = i;
            assert(st2 == Step { from: Spot::Point(q), to: Spot::Home });
            lemma_home_offer(s1, r1, q, r2);
            assert(24 - d2 <= q < 24);
            lemma_over_offered(s, r, t2, q);
            let offer = off_offer(r, d2, q);
            let u3 = lemma_first_frontier(s, r, offer);
            let w3 = frontier_at(s, r, 1)[u3];
            lemma_home_offer(s, r, q, w3.roll);
            let t3 = choose|t: int|
                0 <= t < r.available().len() && w3.roll == r.spend(#[trigger] r.available()[t]) && 24
                    - r.available()[t] <= q < 24 && (exact_offs(
                    s,
                    r,
                    r.available().len() as int,
                ).len() > 0 ==> q == 24 - r.available()[t]);
            let d3 = r.available()[t3];
            let left = if t3 == t1 {
                d2
            } else {
                d1
            };
            assert(w3.roll.available() =~= seq![left]);
            lemma_off_keeps_bear_off(s, q);
            let s3 = s.step(offer.0);
            assert(s3.points[p] > 0);
            assert(sound(w3, s, r, 1));
            lemma_die_bears_off(s3, w3.roll, p);
            lemma_frontier_grows(s, r, 1, u3);
        } else {
            assert(st2.to is Point);
            let j = st2.to->Point_0;
            assert(j == i + d2);
            assert(st2 == Step { from: Spot::Point(i), to: Spot::Point(j) });
            assert(s1.points[j] >= -1 && 0 <= j < 24);
            assert(s.points[j] >= s1.points[j]);
            lemma_run_offered(s, r, t2, i);
            let offer = run_offer(r, d2, i);
            assert(offer.0 == st2);
            let u2 = lemma_first_frontier(s, r, offer);
            let w2 = frontier_at(s, r, 1)[u2];
            let k2 = choose|k: int|
                0 <= k < half_moves(s, r).len() && #[trigger] half_moves(s, r)[k] == (st2, w2.roll);
            assert(fair(s, r, half_moves(s, r)[k2]));
            let x2 = choose|x: int|
                r.available().contains(x) && uses(st2, x) && w2.roll == #[trigger] r.spend(x);
            assert(x2 == d2);
            assert(w2.roll.available() =~= seq![d1]);
            lemma_run_keeps_bear_off(s, i, j);
            let s2 = s.step(st2);
            assert(p != i);
            assert(s2.points[p] >= s.points[p]);
            assert(sound(w2, s, r, 1));
            lemma_die_bears_off(s2, w2.roll, p);
            lemma_frontier_grows(s, r, 1, u2);
        }
    }
}

/// No line is longer than the legal moves: whatever half-moves are played
/// one after the other as the rules offer them, there are no more of them
/// than the legal moves have.
pub proof fn lemma_longest(s: Layout, r: Roll, steps: Seq<Step>, rolls: Seq<Roll>, n: int)
    requires
        s.tidy(),
        r.wf(),
        s.own_total() <= 15,
        s.their_total() <= 15,
        0 <= n,
        is_line(s, r, steps, rolls, n),
    ensures
        legal_moves(s, r).len() > 0,
        n <= legal_moves(s, r)[0].len(),
{
    lemma_line_length(s, r, steps, rolls, n);
    assert(frontier_at(s, r, 0) == seq![root(s, r)]);
    if n == 0 {
        lemma_frontier_reached(s, r, 0, 0);
    } else if r is Double {
        let u = lemma_cover_double(s, r, steps, rolls, n, n);
        lemma_frontier_reached(s, r, 0, n as nat);
    } else {
        lemma_line_shorter(s, r, steps, rolls, n, 1);
        assert(s.play(steps, 0) == s);
        let u = lemma_first_frontier(s, r, (steps[0], rolls[0]));
        if n == 1 {
            lemma_frontier_reached(s, r, 0, 1);
        } else {
            lemma_line_shorter(s, r, steps, rolls, n, 2);
            lemma_single_second(s, r, steps, rolls);
            lemma_frontier_reached(s, r, 0, 2);
        }
    }
}

/// All of `steps` can be played one after the other from `s` with `r`,
/// each a half-move that the rules offer where the one before has led.
pub open spec fn playable_line(s: Layout, r: Roll, steps: Seq<Step>) -> bool {
    exists|rolls: Seq<Roll>|
        rolls.len() == steps.len() && #[trigger] is_line(s, r, steps, rolls, steps.len() as int)
}

/// The steps of `n` are a line from `s` with `r` that leads to the node's
/// position and roll.
pub open spec fn traced(n: Node, s: Layout, r: Roll, ply: int) -> bool {
    exists|rolls: Seq<Roll>|
        {
            &&& rolls.len() == ply
            &&& n.steps.len() == ply
            &&& #[trigger] is_line(s, r, n.steps, rolls, ply)
            &&& roll_at(r, rolls, ply) == n.roll
            &&& n.layout == s.play(n.steps, ply)
        }
}

/// Every node of `f` is traced.
pub open spec fn all_traced(f: Seq<Node>, s: Layout, r: Roll, ply: int) -> bool {
    forall|i: int| 0 <= i < f.len() ==> traced(#[trigger] f[i], s, r, ply)
}

/// The child of a traced node by one of its half-moves is traced.
proof fn lemma_child_traced(n: Node, s: Layout, r: Roll, ply: int, i: int)
    requires
        0 <= ply,
        traced(n, s, r, ply),
        0 <= i < half_moves(n.layout, n.roll).len(),
    ensures
        traced(child(n, half_moves(n.layout, n.roll)[i]), s, r, ply + 1),
{
    let rolls = choose|rolls: Seq<Roll>|
        {
            &&& rolls.len() == ply
            &&& n.steps.len() == ply
            &&& #[trigger] is_line(s, r, n.steps, rolls, ply)
            &&& roll_at(r, rolls, ply) == n.roll
            &&& n.layout == s.play(n.steps, ply)
        };
    let offer = half_moves(n.layout, n.roll)[i];
    let c = child(n, offer);
    let more = rolls.push(offer.1);
    crate::rules::lines::lemma_line_prefix(s, r, n.steps, rolls, c.steps, more, ply);
    crate::rules::layout::lemma_play_prefix(s, n.steps, c.steps, ply);
    assert(roll_at(r, more, ply) == n.roll);
    assert(offered(s.play(c.steps, ply), roll_at(r, more, ply), (c.steps[ply], more[ply])));
    assert(is_line(s, r, c.steps, more, ply + 1));
    assert(c.layout == s.play(c.steps, ply + 1));
}

/// The next frontier of traced nodes is traced.
proof fn lemma_next_traced(f: Seq<Node>, s: Layout, r: Roll, ply: int)
    requires
        0 <= ply,
        all_traced(f, s, r, ply),
    ensures
        all_traced(next_frontier(f), s, r, ply + 1),
{
    let e = expand(f, 0);
    lemma_distinct(e, e.len() as int);
    let d = next_frontier(f);
    assert forall|u: int| 0 <= u < d.len() implies traced(#[trigger] d[u], s, r, ply + 1) by {
        let j = choose|j: int| 0 <= j < e.len() && d[u] == e[j];
        let (a, b) = crate::rules::lines::lemma_expand_origin(f, 0, j);
        assert(traced(f[a], s, r, ply));
        lemma_child_traced(f[a], s, r, ply, b);
    }
}

/// The moves that a search from traced nodes finds are lines.
proof fn lemma_search_traced(f: Seq<Node>, s: Layout, r: Roll, ply: int, fuel: nat)
    requires
        0 <= ply,
        all_traced(f, s, r, ply),
    ensures
        forall|i: int|
            0 <= i < search(f, fuel).len() ==> playable_line(s, r, #[trigger] search(f, fuel)[i]),
    decreases fuel,
{
    let next = next_frontier(f);
    if fuel == 0 || next.len() == 0 {
        let m = backwards(f);
        assert forall|i: int| 0 <= i < m.len() implies playable_line(s, r, #[trigger] m[i]) by {
            let n = f[f.len() - 1 - i];
            assert(traced(n, s, r, ply));
            let rolls = choose|rolls: Seq<Roll>|
                {
                    &&& rolls.len() == ply
                    &&& n.steps.len() == ply
                    &&& #[trigger] is_line(s, r, n.steps, rolls, ply)
                    &&& roll_at(r, rolls, ply) == n.roll
                    &&& n.layout == s.play(n.steps, ply)
                };
            assert(is_line(s, r, m[i], rolls, m[i].len() as int));
        }
        assert(search(f, fuel) == m);
    } else {
        lemma_next_traced(f, s, r, ply);
        lemma_search_traced(next, s, r, ply + 1, (fuel - 1) as nat);
        assert(search(f, fuel) == search(next, (fuel - 1) as nat));
    }
}

/// The legal moves are the longest lines: each legal move is a line, played
/// half-move by half-move as the rules offer them, and no line has more
/// half-moves than the legal moves have.
pub proof fn lemma_legal_moves_are_longest(s: Layout, r: Roll)
    requires
        s.tidy(),
        r.wf(),
        s.own_total() <= 15,
        s.their_total() <= 15,
    ensures
        legal_moves(s, r).len() > 0,
        forall|i: int|
            0 <= i < legal_moves(s, r).len() ==> playable_line(s, r, #[trigger] legal_moves(s, r)[i]),
        forall|steps: Seq<Step>, rolls: Seq<Roll>, n: int|
            0 <= n && #[trigger] is_line(s, r, steps, rolls, n) ==> n <= legal_moves(s, r)[0].len(),
{
    let f = seq![root(s, r)];
    assert(traced(f[0], s, r, 0)) by {
        let rolls = Seq::<Roll>::empty();
        assert(is_line(s, r, f[0].steps, rolls, 0));
    }
    lemma_search_traced(f, s, r, 0, 4);
    crate::rules::laws::lemma_legal_moves(s, r);
    assert forall|steps: Seq<Step>, rolls: Seq<Roll>, n: int|
        0 <= n && #[trigger] is_line(s, r, steps, rolls, n) implies n <= legal_moves(s, r)[0].len() by {
        lemma_longest(s, r, steps, rolls, n);
    }
}

} // verus!
