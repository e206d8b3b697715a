use vstd::prelude::*;
use crate::rules::layout::{
    lemma_counts,
    lemma_flipped_totals,
    lemma_flipped_twice,
    Layout,
    Spot,
    Step,
};
use crate::rules::moves::{fair, half_moves, lemma_half_moves_fair, occurrences, same_steps};
use crate::rules::roll::Roll;
use crate::rules::search::{
    all_sound,
    backwards,
    legal_moves,
    lemma_distinct,
    lemma_next_sound,
    next_frontier,
    root,
    search,
    sound,
    Node,
};

verus! {

/// Holding the same steps in any order is reflexive.
pub proof fn lemma_same_steps_reflexive(a: Seq<Step>)
    ensures
        same_steps(a, a),
{
}

/// Holding the same steps in any order is symmetric.
pub proof fn lemma_same_steps_symmetric(a: Seq<Step>, b: Seq<Step>)
    requires
        same_steps(a, b),
    ensures
        same_steps(b, a),
{
    assert forall|st: Step| #[trigger]
        occurrences(b, st, b.len() as int) == occurrences(a, st, a.len() as int) by {
        assert(occurrences(a, st, a.len() as int) == occurrences(b, st, b.len() as int));
    }
}

/// Holding the same steps in any order is transitive.
pub proof fn lemma_same_steps_transitive(a: Seq<Step>, b: Seq<Step>, c: Seq<Step>)
    requires
        same_steps(a, b),
        same_steps(b, c),
    ensures
        same_steps(a, c),
{
    assert forall|st: Step| #[trigger]
        occurrences(a, st, a.len() as int) == occurrences(c, st, c.len() as int) by {
        assert(occurrences(a, st, a.len() as int) == occurrences(b, st, b.len() as int));
        assert(occurrences(b, st, b.len() as int) == occurrences(c, st, c.len() as int));
    }
}

/// No two nodes of `f` hold the same steps, in whatever order.
pub open spec fn no_two_alike(f: Seq<Node>) -> bool {
    forall|a: int, b: int|
        0 <= a < b < f.len() ==> !same_steps(#[trigger] f[a].steps, #[trigger] f[b].steps)
}

/// The steps `steps` can be played from `s0` one after the other, and lead
/// to a tidy position of the same mover in which both players have the
/// checkers they had.
pub open spec fn playable(s0: Layout, steps: Seq<Step>) -> bool {
    let end = s0.play(steps, steps.len() as int);
    &&& s0.accepts(steps)
    &&& end.tidy()
    &&& end.own_total() == s0.own_total()
    &&& end.their_total() == s0.their_total()
    &&& end.white_to_move == s0.white_to_move
}

/// What holds of the moves that a search from sound, distinct nodes finds.
pub proof fn lemma_search(f: Seq<Node>, s0: Layout, r0: Roll, ply: int, fuel: nat)
    requires
        all_sound(f, s0, r0, ply),
        no_two_alike(f),
        f.len() > 0,
        s0.own_total() <= 15,
        s0.their_total() <= 15,
    ensures
        search(f, fuel).len() > 0,
        forall|i: int| 0 <= i < search(f, fuel).len() ==> playable(s0, #[trigger] search(f, fuel)[i]),
        forall|i: int|
            0 <= i < search(f, fuel).len() ==> (#[trigger] search(f, fuel)[i]).len() == search(
                f,
                fuel,
            )[0].len(),
        forall|a: int, b: int|
            0 <= a < b < search(f, fuel).len() ==> !same_steps(
                #[trigger] search(f, fuel)[a],
                #[trigger] search(f, fuel)[b],
            ),
        search(f, fuel)[0].len() >= ply,
    decreases fuel,
{
    let next = next_frontier(f);
    if fuel == 0 || next.len() == 0 {
        let m = backwards(f);
        assert forall|i: int| 0 <= i < m.len() implies playable(s0, #[trigger] m[i]) && m[i].len()
            == ply by {
            assert(sound(f[f.len() - 1 - i], s0, r0, ply));
        }
        assert forall|a: int, b: int| 0 <= a < b < m.len() implies !same_steps(
            #[trigger] m[a],
            #[trigger] m[b],
        ) by {
            let x = f.len() - 1 - b;
            let y = f.len() - 1 - a;
            assert(!same_steps(f[x].steps, f[y].steps));
            if same_steps(m[a], m[b]) {
                lemma_same_steps_symmetric(m[a], m[b]);
            }
        }
    } else {
        lemma_next_sound(f, s0, r0, ply);
        let e = crate::rules::search::expand(f, 0);
        lemma_distinct(e, e.len() as int);
        lemma_search(next, s0, r0, ply + 1, (fuel - 1) as nat);
    }
}

/// The legal moves of a position in which neither player has more than 15
/// checkers: there is at least one; each can be played from the position and
/// keeps every checker; all have the same number of half-moves; and no two
/// hold the same half-moves in another order.
pub proof fn lemma_legal_moves(s: Layout, r: Roll)
    requires
        s.tidy(),
        r.wf(),
        s.own_total() <= 15,
        s.their_total() <= 15,
    ensures
        legal_moves(s, r).len() > 0,
        forall|i: int| 0 <= i < legal_moves(s, r).len() ==> playable(s, #[trigger] legal_moves(s, r)[i]),
        forall|i: int|
            0 <= i < legal_moves(s, r).len() ==> (#[trigger] legal_moves(s, r)[i]).len()
                == legal_moves(s, r)[0].len(),
        forall|a: int, b: int|
            0 <= a < b < legal_moves(s, r).len() ==> !same_steps(
                #[trigger] legal_moves(s, r)[a],
                #[trigger] legal_moves(s, r)[b],
            ),
{
    let f = seq![root(s, r)];
    assert(sound(f[0], s, r, 0));
    lemma_search(f, s, r, 0, 4);
}

/// The starting position has 15 checkers a side.
pub proof fn lemma_start_full_set()
    ensures
        Layout::start().full_set(),
{
    reveal_with_fuel(crate::rules::layout::own_between, 25);
    reveal_with_fuel(crate::rules::layout::theirs_between, 25);
}

/// A tidy position with 15 checkers a side has no counter beyond 15.
pub proof fn lemma_full_set(s: Layout)
    requires
        s.tidy(),
        s.own_total() == 15,
        s.their_total() == 15,
    ensures
        s.full_set(),
{
    lemma_counts(s.points, 0, 24);
    assert forall|i: int| 0 <= i < 24 implies -15 <= #[trigger] s.points[i] <= 15 by {
        assert(crate::rules::layout::own(s.points[i]) <= 15);
        assert(crate::rules::layout::theirs(s.points[i]) <= 15);
    }
}

/// A legal move keeps 15 checkers a side.
pub proof fn lemma_move_keeps_full_set(s: Layout, r: Roll, i: int)
    requires
        s.full_set(),
        r.wf(),
        0 <= i < legal_moves(s, r).len(),
    ensures
        s.after_move(legal_moves(s, r)[i]).full_set(),
        s.after_move(legal_moves(s, r)[i]).white_to_move != s.white_to_move,
{
    lemma_legal_moves(s, r);
    let m = legal_moves(s, r)[i];
    assert(playable(s, m));
    let end = s.play(m, m.len() as int);
    lemma_flipped_totals(end);
    lemma_flipped_twice(end);
    lemma_full_set(end.flipped());
}

/// `b` is what some legal move with some roll makes of `a`.
pub open spec fn follows(a: Layout, b: Layout) -> bool {
    exists|r: Roll, i: int|
        r.wf() && 0 <= i < legal_moves(a, r).len() && b == a.after_move(
            #[trigger] legal_moves(a, r)[i],
        )
}

/// `positions` is a game from the starting position on: each position
/// follows from the one before by a legal move.
pub open spec fn is_game(positions: Seq<Layout>) -> bool {
    &&& positions.len() > 0
    &&& positions[0] == Layout::start()
    &&& forall|k: int| 0 < k < positions.len() ==> follows(positions[k - 1], #[trigger] positions[k])
}

/// However a game goes, each player has 15 checkers in every position of it:
/// on the points, on the bar and borne off together.
pub proof fn lemma_game_keeps_checkers(positions: Seq<Layout>, k: int)
    requires
        is_game(positions),
        0 <= k < positions.len(),
    ensures
        positions[k].full_set(),
        positions[k].own_total() == 15,
        positions[k].their_total() == 15,
    decreases k,
{
    if k == 0 {
        lemma_start_full_set();
    } else {
        lemma_game_keeps_checkers(positions, k - 1);
        let a = positions[k - 1];
        let b = positions[k];
        assert(follows(a, b));
        let (r, i) = choose|r: Roll, i: int|
            r.wf() && 0 <= i < legal_moves(a, r).len() && b == a.after_move(
                #[trigger] legal_moves(a, r)[i],
            );
        lemma_move_keeps_full_set(a, r, i);
    }
}

/// Every half-move that the rules offer goes to a point that is free, the
/// mover's own or held by a single opposing checker, or goes home from a
/// position in which the mover may bear off.
pub proof fn lemma_targets(s: Layout, r: Roll, i: int)
    requires
        s.tidy(),
        r.wf(),
        0 <= i < half_moves(s, r).len(),
    ensures
        match half_moves(s, r)[i].0.to {
            Spot::Point(j) => 0 <= j < 24 && s.points[j] >= -1,
            Spot::Home => s.can_bear_off(),
            Spot::Bar => false,
        },
{
    lemma_half_moves_fair(s, r);
    assert(fair(s, r, half_moves(s, r)[i]));
}

} // verus!
