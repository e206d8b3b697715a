use vstd::prelude::*;
use crate::rules::layout::{
    lemma_play_prefix,
    lemma_step_has_room,
    lemma_step_keeps_totals,
    Layout,
    Step,
};
use crate::rules::moves::{fair, half_moves, lemma_fair_offer, lemma_half_moves_fair, same_steps};
use crate::rules::roll::Roll;

verus! {

/// One partial move of the search: the steps so far, the position after them
/// and the roll that is left.
pub struct Node {
    pub roll: Roll,
    pub layout: Layout,
    pub steps: Seq<Step>,
}

/// The node that `offer` leads to from `n`.
pub open spec fn child(n: Node, offer: (Step, Roll)) -> Node {
    Node { roll: offer.1, layout: n.layout.step(offer.0), steps: n.steps.push(offer.0) }
}

/// The nodes that the first `k` half-moves of `n` lead to.
pub open spec fn children(n: Node, k: int) -> Seq<Node> {
    Seq::new(k as nat, |i: int| child(n, half_moves(n.layout, n.roll)[i]))
}

/// The nodes that one more half-move leads to from `n`; none once the roll is
/// used up.
pub open spec fn offspring(n: Node) -> Seq<Node> {
    if n.roll.all_used() {
        Seq::empty()
    } else {
        children(n, half_moves(n.layout, n.roll).len() as int)
    }
}

/// The offspring of the nodes `f[j..]`, those of the last node first.
pub open spec fn expand(f: Seq<Node>, j: int) -> Seq<Node>
    decreases f.len() - j,
{
    if j < 0 || j >= f.len() {
        Seq::empty()
    } else {
        expand(f, j + 1) + offspring(f[j])
    }
}

/// Some node of `kept` holds the steps `steps` in some order.
pub open spec fn known(kept: Seq<Node>, steps: Seq<Step>) -> bool {
    exists|i: int| 0 <= i < kept.len() && same_steps(#[trigger] kept[i].steps, steps)
}

/// The first `n` nodes of `next` without those whose steps an earlier node
/// holds in another order.
pub open spec fn distinct(next: Seq<Node>, n: int) -> Seq<Node>
    decreases n,
{
    if n <= 0 {
        Seq::empty()
    } else {
        let kept = distinct(next, n - 1);
        if known(kept, next[n - 1].steps) {
            kept
        } else {
            kept.push(next[n - 1])
        }
    }
}

/// The partial moves that are one half-move longer than those of `f`.
pub open spec fn next_frontier(f: Seq<Node>) -> Seq<Node> {
    distinct(expand(f, 0), expand(f, 0).len() as int)
}

/// The steps of the nodes of `f`, last node first.
pub open spec fn backwards(f: Seq<Node>) -> Seq<Seq<Step>> {
    Seq::new(f.len(), |i: int| f[f.len() - 1 - i].steps)
}

/// The moves of the last frontier that is not empty, searching on from `f`
/// for at most `fuel` more half-moves.
pub open spec fn search(f: Seq<Node>, fuel: nat) -> Seq<Seq<Step>>
    decreases fuel,
{
    let next = next_frontier(f);
    if fuel == 0 || next.len() == 0 {
        backwards(f)
    } else {
        search(next, (fuel - 1) as nat)
    }
}

/// Where the search starts: nothing played yet.
pub open spec fn root(s: Layout, r: Roll) -> Node {
    Node { roll: r, layout: s, steps: Seq::empty() }
}

/// The legal moves in position `s` with roll `r`: the longest sequences of
/// half-moves that can be played, one for each set of half-moves, in the
/// order in which the search finds them. A roll allows four half-moves at
/// most.
pub open spec fn legal_moves(s: Layout, r: Roll) -> Seq<Seq<Step>> {
    search(seq![root(s, r)], 4)
}

/// What holds of a node that the search from `s0`, `r0` reaches after `ply`
/// half-moves.
pub open spec fn sound(n: Node, s0: Layout, r0: Roll, ply: int) -> bool {
    &&& n.steps.len() == ply
    &&& n.layout == s0.play(n.steps, ply)
    &&& s0.accepts(n.steps)
    &&& n.layout.tidy()
    &&& n.layout.own_total() == s0.own_total()
    &&& n.layout.their_total() == s0.their_total()
    &&& n.layout.white_to_move == s0.white_to_move
    &&& n.roll.wf()
    &&& n.roll.uses_left() == r0.uses_left() - ply
    &&& r0 is Double ==> n.roll == (Roll::Double { value: r0->value, used: r0->used + ply })
}

/// Every node of `f` is sound at `ply`.
pub open spec fn all_sound(f: Seq<Node>, s0: Layout, r0: Roll, ply: int) -> bool {
    forall|i: int| 0 <= i < f.len() ==> sound(#[trigger] f[i], s0, r0, ply)
}

/// A half-move offered at a sound node can be played there, and leads to a
/// sound node one ply on.
pub proof fn lemma_child_sound(n: Node, s0: Layout, r0: Roll, ply: int, i: int)
    requires
        sound(n, s0, r0, ply),
        s0.own_total() <= 15,
        s0.their_total() <= 15,
        0 <= i < half_moves(n.layout, n.roll).len(),
    ensures
        fair(n.layout, n.roll, half_moves(n.layout, n.roll)[i]),
        n.layout.admits(half_moves(n.layout, n.roll)[i].0),
        n.layout.has_room(half_moves(n.layout, n.roll)[i].0),
        sound(child(n, half_moves(n.layout, n.roll)[i]), s0, r0, ply + 1),
        n.roll.uses_left() >= 1,
{
    let offer = half_moves(n.layout, n.roll)[i];
    let c = child(n, offer);
    lemma_half_moves_fair(n.layout, n.roll);
    assert(fair(n.layout, n.roll, offer));
    lemma_fair_offer(n.layout, n.roll, offer);
    let d = choose|d: int|
        n.roll.available().contains(d) && crate::rules::moves::uses(offer.0, d) && offer.1
            == #[trigger] n.roll.spend(d);
    assert(offer.1 == n.roll.spend(d));
    lemma_step_keeps_totals(n.layout, offer.0);
    lemma_step_has_room(n.layout, offer.0);
    lemma_play_prefix(s0, n.steps, c.steps, ply);
    assert(c.layout == s0.play(c.steps, ply + 1));
    assert forall|k: int| 0 <= k < c.steps.len() implies (#[trigger] s0.play(c.steps, k)).admits(
        c.steps[k],
    ) && s0.play(c.steps, k).has_room(c.steps[k]) by {
        lemma_play_prefix(s0, n.steps, c.steps, k);
        if k < ply {
            assert(s0.play(n.steps, k).admits(n.steps[k]));
        }
    }
}

/// The offspring of sound nodes are sound one ply on.
pub proof fn lemma_expand_sound(f: Seq<Node>, j: int, s0: Layout, r0: Roll, ply: int)
    requires
        all_sound(f, s0, r0, ply),
        s0.own_total() <= 15,
        s0.their_total() <= 15,
        0 <= j <= f.len(),
    ensures
        all_sound(expand(f, j), s0, r0, ply + 1),
        expand(f, j).len() > 0 ==> r0.uses_left() - ply >= 1,
    decreases f.len() - j,
{
    if j < f.len() {
        lemma_expand_sound(f, j + 1, s0, r0, ply);
        let n = f[j];
        let kids = offspring(n);
        assert forall|i: int| 0 <= i < kids.len() implies sound(#[trigger] kids[i], s0, r0, ply + 1) by {
            lemma_child_sound(n, s0, r0, ply, i);
        }
        if kids.len() > 0 {
            lemma_child_sound(n, s0, r0, ply, 0);
        }
    }
}

/// Dropping repeated nodes keeps the others, the first of them for sure.
pub proof fn lemma_distinct(next: Seq<Node>, n: int)
    requires
        0 <= n <= next.len(),
    ensures
        distinct(next, n).len() <= n,
        n > 0 ==> distinct(next, n).len() > 0,
        forall|i: int|
            0 <= i < distinct(next, n).len() ==> exists|j: int|
                0 <= j < n && #[trigger] distinct(next, n)[i] == next[j],
        forall|a: int, b: int|
            0 <= a < b < distinct(next, n).len() ==> !same_steps(
                #[trigger] distinct(next, n)[a].steps,
                #[trigger] distinct(next, n)[b].steps,
            ),
    decreases n,
{
    if n > 0 {
        lemma_distinct(next, n - 1);
        let kept = distinct(next, n - 1);
        let out = distinct(next, n);
        assert forall|i: int| 0 <= i < out.len() implies exists|j: int|
            0 <= j < n && #[trigger] out[i] == next[j] by {
            if i < kept.len() {
                let j = choose|j: int| 0 <= j < n - 1 && kept[i] == next[j];
                assert(out[i] == next[j]);
            } else {
                assert(out[i] == next[n - 1]);
            }
        }
        assert forall|a: int, b: int| 0 <= a < b < out.len() implies !same_steps(
            #[trigger] out[a].steps,
            #[trigger] out[b].steps,
        ) by {
            if b >= kept.len() {
                assert(!known(kept, next[n - 1].steps));
                assert(kept[a] == out[a]);
            }
        }
    }
}

/// The next frontier of sound nodes is sound one ply on.
pub proof fn lemma_next_sound(f: Seq<Node>, s0: Layout, r0: Roll, ply: int)
    requires
        all_sound(f, s0, r0, ply),
        s0.own_total() <= 15,
        s0.their_total() <= 15,
    ensures
        all_sound(next_frontier(f), s0, r0, ply + 1),
        next_frontier(f).len() > 0 ==> r0.uses_left() - ply >= 1,
        next_frontier(f).len() > 0 <==> expand(f, 0).len() > 0,
{
    let e = expand(f, 0);
    lemma_expand_sound(f, 0, s0, r0, ply);
    lemma_distinct(e, e.len() as int);
    let d = next_frontier(f);
    assert forall|i: int| 0 <= i < d.len() implies sound(#[trigger] d[i], s0, r0, ply + 1) by {
        let j = choose|j: int| 0 <= j < e.len() && d[i] == e[j];
        assert(sound(e[j], s0, r0, ply + 1));
    }
}

} // verus!
