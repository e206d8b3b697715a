use vstd::prelude::*;
use crate::rules::counting::{lemma_occurrences_prefix, lemma_same_counts};
use crate::rules::laws::{lemma_same_steps_reflexive, lemma_same_steps_transitive, no_two_alike};
use crate::rules::layout::{lemma_play_prefix, Layout, Step};
use crate::rules::moves::{half_moves, occurrences, same_steps};
use crate::rules::offers::offered;
use crate::rules::roll::Roll;
use crate::rules::search::{
    all_sound,
    child,
    distinct,
    expand,
    known,
    lemma_child_sound,
    lemma_distinct,
    lemma_next_sound,
    next_frontier,
    offspring,
    root,
    search,
    sound,
    Node,
};

verus! {

/// The roll before step `k` of a line that starts with `r`.
pub open spec fn roll_at(r: Roll, rolls: Seq<Roll>, k: int) -> Roll {
    if k <= 0 {
        r
    } else {
        rolls[k - 1]
    }
}

/// The first `n` of `steps` can be played one after the other from `s` with
/// `r`: each is a half-move that the rules offer where the one before has
/// led, and `rolls` holds the roll that is left after each.
pub open spec fn is_line(s: Layout, r: Roll, steps: Seq<Step>, rolls: Seq<Roll>, n: int) -> bool
    decreases n,
{
    if n <= 0 {
        true
    } else {
        &&& n <= steps.len()
        &&& n <= rolls.len()
        &&& is_line(s, r, steps, rolls, n - 1)
        &&& offered(s.play(steps, n - 1), roll_at(r, rolls, n - 1), (steps[n - 1], rolls[n - 1]))
    }
}

/// The partial moves of `k` half-moves that the search holds.
pub open spec fn frontier_at(s: Layout, r: Roll, k: nat) -> Seq<Node>
    decreases k,
{
    if k == 0 {
        seq![root(s, r)]
    } else {
        next_frontier(frontier_at(s, r, (k - 1) as nat))
    }
}

/// The node that the first `k` steps of a line lead to.
pub open spec fn line_node(s: Layout, r: Roll, steps: Seq<Step>, rolls: Seq<Roll>, k: int) -> Node {
    Node { roll: roll_at(r, rolls, k), layout: s.play(steps, k), steps: steps.take(k) }
}

/// A line that is a line up to `n` is one up to any `k` below.
pub proof fn lemma_line_shorter(
    s: Layout,
    r: Roll,
    steps: Seq<Step>,
    rolls: Seq<Roll>,
    n: int,
    k: int,
)
    requires
        is_line(s, r, steps, rolls, n),
        0 <= k <= n,
    ensures
        is_line(s, r, steps, rolls, k),
        n > 0 ==> n <= steps.len() && n <= rolls.len(),
    decreases n - k,
{
    if k < n {
        lemma_line_shorter(s, r, steps, rolls, n, k + 1);
    }
}

/// Being a line up to `n` depends on the first `n` steps and rolls alone.
pub proof fn lemma_line_prefix(
    s: Layout,
    r: Roll,
    a: Seq<Step>,
    ra: Seq<Roll>,
    b: Seq<Step>,
    rb: Seq<Roll>,
    n: int,
)
    requires
        is_line(s, r, a, ra, n),
        n <= b.len(),
        n <= rb.len(),
        forall|i: int| 0 <= i < n ==> a[i] == b[i] && ra[i] == rb[i],
    ensures
        is_line(s, r, b, rb, n),
    decreases n,
{
    if n > 0 {
        lemma_line_prefix(s, r, a, ra, b, rb, n - 1);
        lemma_play_prefix(s, a, b, n - 1);
    }
}

/// The nodes along a line are sound.
pub proof fn lemma_line_sound(s: Layout, r: Roll, steps: Seq<Step>, rolls: Seq<Roll>, n: int, k: int)
    requires
        s.tidy(),
        r.wf(),
        s.own_total() <= 15,
        s.their_total() <= 15,
        is_line(s, r, steps, rolls, n),
        0 <= k <= n,
    ensures
        sound(line_node(s, r, steps, rolls, k), s, r, k),
    decreases k,
{
    lemma_line_shorter(s, r, steps, rolls, n, k);
    if k == 0 {
        assert(steps.take(0) =~= Seq::<Step>::empty());
    } else {
        lemma_line_sound(s, r, steps, rolls, n, k - 1);
        let before = line_node(s, r, steps, rolls, k - 1);
        let offer = (steps[k - 1], rolls[k - 1]);
        let i = choose|i: int|
            0 <= i < half_moves(before.layout, before.roll).len() && #[trigger] half_moves(
                before.layout,
                before.roll,
            )[i] == offer;
        lemma_child_sound(before, s, r, k - 1, i);
        assert(steps.take(k - 1).push(steps[k - 1]) =~= steps.take(k));
        assert(child(before, offer) == line_node(s, r, steps, rolls, k));
    }
}

/// A line is no longer than the roll has uses.
pub proof fn lemma_line_length(s: Layout, r: Roll, steps: Seq<Step>, rolls: Seq<Roll>, n: int)
    requires
        s.tidy(),
        r.wf(),
        s.own_total() <= 15,
        s.their_total() <= 15,
        is_line(s, r, steps, rolls, n),
        0 <= n,
    ensures
        n <= r.uses_left() <= 4,
{
    lemma_line_sound(s, r, steps, rolls, n, n);
    crate::rules::roll::lemma_available(line_node(s, r, steps, rolls, n).roll);
    crate::rules::roll::lemma_available(r);
}

/// The frontiers of the search are sound, without two nodes alike.
pub proof fn lemma_frontier_sound(s: Layout, r: Roll, k: nat)
    requires
        s.tidy(),
        r.wf(),
        s.own_total() <= 15,
        s.their_total() <= 15,
    ensures
        all_sound(frontier_at(s, r, k), s, r, k as int),
        no_two_alike(frontier_at(s, r, k)),
    decreases k,
{
    if k == 0 {
        assert(sound(frontier_at(s, r, 0)[0], s, r, 0));
    } else {
        lemma_frontier_sound(s, r, (k - 1) as nat);
        let f = frontier_at(s, r, (k - 1) as nat);
        lemma_next_sound(f, s, r, k - 1);
        let e = expand(f, 0);
        lemma_distinct(e, e.len() as int);
    }
}

/// The child of a node of `f[from..]` by one of its half-moves stands in
/// the expansion.
pub proof fn lemma_expand_member(f: Seq<Node>, from: int, j: int, i: int) -> (t: int)
    requires
        0 <= from <= j < f.len(),
        !f[j].roll.all_used(),
        0 <= i < half_moves(f[j].layout, f[j].roll).len(),
    ensures
        0 <= t < expand(f, from).len(),
        expand(f, from)[t] == child(f[j], half_moves(f[j].layout, f[j].roll)[i]),
    decreases f.len() - from,
{
    if from == j {
        let kids = offspring(f[j]);
        assert(kids[i] == child(f[j], half_moves(f[j].layout, f[j].roll)[i]));
        expand(f, from + 1).len() + i
    } else {
        lemma_expand_member(f, from + 1, j, i)
    }
}

/// Every node of an expansion is the child of a node by one of its
/// half-moves.
pub proof fn lemma_expand_origin(f: Seq<Node>, from: int, t: int) -> (ji: (int, int))
    requires
        0 <= from,
        0 <= t < expand(f, from).len(),
    ensures
        from <= ji.0 < f.len(),
        !f[ji.0].roll.all_used(),
        0 <= ji.1 < half_moves(f[ji.0].layout, f[ji.0].roll).len(),
        expand(f, from)[t] == child(f[ji.0], half_moves(f[ji.0].layout, f[ji.0].roll)[ji.1]),
    decreases f.len() - from,
{
    let rest = expand(f, from + 1);
    if t < rest.len() {
        lemma_expand_origin(f, from + 1, t)
    } else {
        (from, t - rest.len())
    }
}

/// Of every node that is dropped as a repetition, the steps stand in a node
/// that is kept.
pub proof fn lemma_distinct_covers(next: Seq<Node>, n: int, t: int) -> (u: int)
    requires
        0 <= t < n <= next.len(),
    ensures
        0 <= u < distinct(next, n).len(),
        same_steps(distinct(next, n)[u].steps, next[t].steps),
    decreases n,
{
    let kept = distinct(next, n - 1);
    if t < n - 1 {
        let u = lemma_distinct_covers(next, n - 1, t);
        assert(distinct(next, n)[u] == kept[u]);
        u
    } else if known(kept, next[n - 1].steps) {
        let u = choose|u: int| 0 <= u < kept.len() && same_steps(#[trigger] kept[u].steps, next[t].steps);
        u
    } else {
        lemma_same_steps_reflexive(next[t].steps);
        kept.len() as int
    }
}

/// Appending the same step keeps two sequences alike.
pub proof fn lemma_same_steps_push(a: Seq<Step>, b: Seq<Step>, x: Step)
    requires
        same_steps(a, b),
    ensures
        same_steps(a.push(x), b.push(x)),
{
    assert forall|st: Step| #[trigger]
        occurrences(a.push(x), st, a.push(x).len() as int) == occurrences(
            b.push(x),
            st,
            b.push(x).len() as int,
        ) by {
        lemma_occurrences_prefix(a.push(x), a, st, a.len() as int);
        lemma_occurrences_prefix(b.push(x), b, st, b.len() as int);
        assert(occurrences(a, st, a.len() as int) == occurrences(b, st, b.len() as int));
    }
}

/// A sequence alike to a single step is that step.
pub proof fn lemma_same_steps_single(a: Seq<Step>, x: Step)
    requires
        same_steps(a, seq![x]),
    ensures
        a =~= seq![x],
{
    lemma_same_counts(a, seq![x], |st: Step| true);
    let b = seq![x];
    assert(occurrences(a, x, 1) == occurrences(b, x, 1));
    assert(occurrences(b, x, 1) == occurrences(b, x, 0) + 1);
    assert(occurrences(a, x, 1) == occurrences(a, x, 0) + if a[0] == x {
        1int
    } else {
        0int
    });
}

/// An empty frontier stays empty.
pub proof fn lemma_frontier_dies(s: Layout, r: Roll, j: nat, k: nat)
    requires
        j <= k,
        frontier_at(s, r, k).len() > 0,
    ensures
        frontier_at(s, r, j).len() > 0,
    decreases k - j,
{
    if j < k {
        lemma_frontier_dies(s, r, j + 1, k);
        if frontier_at(s, r, j).len() == 0 {
            let f = frontier_at(s, r, j);
            assert(expand(f, 0).len() == 0);
            assert(distinct(expand(f, 0), 0).len() == 0);
        }
    }
}

/// The search that reaches a frontier finds moves at least that long.
pub proof fn lemma_frontier_reached(s: Layout, r: Roll, j: nat, k: nat)
    requires
        s.tidy(),
        r.wf(),
        s.own_total() <= 15,
        s.their_total() <= 15,
        j <= k <= 4,
        frontier_at(s, r, k).len() > 0,
    ensures
        search(frontier_at(s, r, j), (4 - j) as nat).len() > 0,
        search(frontier_at(s, r, j), (4 - j) as nat)[0].len() >= k,
    decreases k - j,
{
    lemma_frontier_dies(s, r, j, k);
    lemma_frontier_sound(s, r, j);
    if j == k {
        crate::rules::laws::lemma_search(frontier_at(s, r, j), s, r, j as int, (4 - j) as nat);
    } else {
        lemma_frontier_dies(s, r, j + 1, k);
        lemma_frontier_reached(s, r, j + 1, k);
        assert(frontier_at(s, r, j + 1) == next_frontier(frontier_at(s, r, j)));
    }
}

/// With a double, the search holds for every line a node with the steps of
/// the line in some order, in the same position and with the same roll.
pub proof fn lemma_cover_double(
    s: Layout,
    r: Roll,
    steps: Seq<Step>,
    rolls: Seq<Roll>,
    n: int,
    k: int,
) -> (u: int)
    requires
        s.tidy(),
        r.wf(),
        r is Double,
        s.own_total() <= 15,
        s.their_total() <= 15,
        is_line(s, r, steps, rolls, n),
        0 <= k <= n,
    ensures
        0 <= u < frontier_at(s, r, k as nat).len(),
        same_steps(frontier_at(s, r, k as nat)[u].steps, steps.take(k)),
        frontier_at(s, r, k as nat)[u].layout == s.play(steps, k),
        frontier_at(s, r, k as nat)[u].roll == roll_at(r, rolls, k),
    decreases k,
{
    lemma_line_shorter(s, r, steps, rolls, n, k);
    if k == 0 {
        assert(steps.take(0) =~= Seq::<Step>::empty());
        lemma_same_steps_reflexive(Seq::<Step>::empty());
        0
    } else {
        let u0 = lemma_cover_double(s, r, steps, rolls, n, k - 1);
        let f = frontier_at(s, r, (k - 1) as nat);
        let m0 = f[u0];
        lemma_frontier_sound(s, r, (k - 1) as nat);
        lemma_frontier_sound(s, r, k as nat);
        assert(sound(m0, s, r, k - 1));
        let offer = (steps[k - 1], rolls[k - 1]);
        let i = choose|i: int|
            0 <= i < half_moves(m0.layout, m0.roll).len() && #[trigger] half_moves(
                m0.layout,
                m0.roll,
            )[i] == offer;
        lemma_child_sound(m0, s, r, k - 1, i);
        crate::rules::roll::lemma_available(m0.roll);
        let t = lemma_expand_member(f, 0, u0, i);
        let e = expand(f, 0);
        let u = lemma_distinct_covers(e, e.len() as int, t);
        let w = frontier_at(s, r, k as nat)[u];
        assert(frontier_at(s, r, k as nat) == distinct(e, e.len() as int));
        let c = child(m0, offer);
        lemma_same_steps_push(m0.steps, steps.take(k - 1), steps[k - 1]);
        assert(steps.take(k - 1).push(steps[k - 1]) =~= steps.take(k));
        lemma_same_steps_transitive(w.steps, c.steps, steps.take(k));
        assert(sound(w, s, r, k));
        lemma_line_sound(s, r, steps, rolls, n, k);
        let ln = line_node(s, r, steps, rolls, k);
        assert(sound(ln, s, r, k));
        crate::rules::net::lemma_same_steps_same_end(s, w.steps, steps.take(k));
        lemma_play_prefix(s, steps, steps.take(k), k);
        u
    }
}

/// For every half-move that is offered at the start, the first frontier
/// holds a node with that half-move alone, which is offered with the node's
/// roll.
pub proof fn lemma_first_frontier(s: Layout, r: Roll, offer: (Step, Roll)) -> (u: int)
    requires
        s.tidy(),
        r.wf(),
        s.own_total() <= 15,
        s.their_total() <= 15,
        offered(s, r, offer),
    ensures
        0 <= u < frontier_at(s, r, 1).len(),
        frontier_at(s, r, 1)[u].steps =~= seq![offer.0],
        frontier_at(s, r, 1)[u].layout == s.step(offer.0),
        offered(s, r, (offer.0, frontier_at(s, r, 1)[u].roll)),
        sound(frontier_at(s, r, 1)[u], s, r, 1),
{
    let f = frontier_at(s, r, 0);
    assert(f == seq![root(s, r)]);
    assert(frontier_at(s, r, 1) == next_frontier(f));
    let i = choose|i: int| 0 <= i < half_moves(s, r).len() && #[trigger] half_moves(s, r)[i] == offer;
    assert(sound(f[0], s, r, 0));
    lemma_child_sound(f[0], s, r, 0, i);
    crate::rules::roll::lemma_available(r);
    let t = lemma_expand_member(f, 0, 0, i);
    let e = expand(f, 0);
    let u = lemma_distinct_covers(e, e.len() as int, t);
    let w = frontier_at(s, r, 1)[u];
    assert(e[t].steps =~= seq![offer.0]);
    lemma_same_steps_single(w.steps, offer.0);
    lemma_distinct(e, e.len() as int);
    let j = choose|j: int| 0 <= j < e.len() && distinct(e, e.len() as int)[u] == e[j];
    let (a, b) = lemma_expand_origin(f, 0, j);
    assert(w == child(f[0], half_moves(s, r)[b]));
    assert(w.steps[0] == half_moves(s, r)[b].0);
    assert(half_moves(s, r)[b] == (offer.0, w.roll));
    lemma_frontier_sound(s, r, 1);
    u
}

/// A node of a frontier that has a half-move makes the next frontier.
pub proof fn lemma_frontier_grows(s: Layout, r: Roll, k: nat, u: int)
    requires
        s.tidy(),
        r.wf(),
        s.own_total() <= 15,
        s.their_total() <= 15,
        0 <= u < frontier_at(s, r, k).len(),
        half_moves(frontier_at(s, r, k)[u].layout, frontier_at(s, r, k)[u].roll).len() > 0,
    ensures
        frontier_at(s, r, k + 1).len() > 0,
{
    let f = frontier_at(s, r, k);
    lemma_frontier_sound(s, r, k);
    assert(sound(f[u], s, r, k as int));
    lemma_child_sound(f[u], s, r, k as int, 0);
    crate::rules::roll::lemma_available(f[u].roll);
    let t = lemma_expand_member(f, 0, u, 0);
    let e = expand(f, 0);
    lemma_distinct(e, e.len() as int);
    assert(frontier_at(s, r, k + 1) == next_frontier(f));
}

} // verus!
