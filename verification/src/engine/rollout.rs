use vstd::prelude::*;
use crate::game::{Board, Dice, GameOutcome, Move, Player};
use crate::misc::chance::random_in;
use crate::rules::expect::first_best;
use crate::rules::laws::playable;
use crate::rules::layout::{lemma_flipped_totals, Layout, Step};
use crate::rules::roll::{nth_roll, Roll};
use crate::rules::search::legal_moves;
use crate::rules::value::{rank, score, score_for_white};

verus! {

/// One in fixed point: draws and their powers count 16777216 to one.
pub const ONE: u64 = 16777216;

/// The square of the fraction `x`, rounded down.
pub open spec fn squared(x: int) -> int {
    x * x / 16777216
}

/// The index that the draw `x` picks among `len` ranked moves: the 16th
/// power of the fraction `x`, times `len - 1`, rounded down. Small indices
/// are picked far more often than large ones.
pub open spec fn biased(x: int, len: int) -> int {
    squared(squared(squared(squared(x)))) * (len - 1) / 16777216
}

/// The square of a fraction is a fraction.
proof fn lemma_squared(x: int)
    requires
        0 <= x <= 16777216,
    ensures
        0 <= x * x <= 16777216 * 16777216,
        0 <= squared(x) <= 16777216,
        x < 16777216 ==> squared(x) < 16777216,
{
    assert(0 <= x * x <= 16777216 * 16777216) by (nonlinear_arith)
        requires
            0 <= x <= 16777216,
    ;
    if x < 16777216 {
        assert(x * x < 16777216 * 16777216) by (nonlinear_arith)
            requires
                0 <= x < 16777216,
        ;
    }
}

/// The index that the draw `draw` picks among `len` ranked moves.
pub fn biased_index(draw: u32, len: usize) -> (index: usize)
    requires
        draw < 16777216,
        len >= 1,
    ensures
        index as int == biased(draw as int, len as int),
        index < len,
{
    let x1 = draw as u64;
    proof {
        lemma_squared(x1 as int);
    }
    let x2 = x1 * x1 / ONE;
    proof {
        lemma_squared(x2 as int);
    }
    let x4 = x2 * x2 / ONE;
    proof {
        lemma_squared(x4 as int);
    }
    let x8 = x4 * x4 / ONE;
    proof {
        lemma_squared(x8 as int);
    }
    let x16 = x8 * x8 / ONE;
    let n = (len - 1) as u128;
    assert(0 <= x16 * n <= 16777215 * n) by (nonlinear_arith)
        requires
            0 <= x16 <= 16777215,
            0 <= n,
    ;
    let index = (x16 as u128 * n) / 16777216u128;
    index as usize
}

/// `order` lists the indices below `n` by rising score, equal scores in
/// their own order.
pub open spec fn ranks(order: Seq<usize>, scores: Seq<int>, n: int) -> bool {
    &&& order.len() == n
    &&& forall|p: int| 0 <= p < n ==> 0 <= #[trigger] order[p] < n
    &&& forall|p: int, q: int|
        0 <= p < q < n ==> scores[order[p] as int] < scores[order[q] as int] || (scores[order[p] as int]
            == scores[order[q] as int] && #[trigger] order[p] < #[trigger] order[q])
}

/// The indices of `scores` by rising score, equal scores in their own order.
pub fn rank_scores(scores: &Vec<i16>) -> (order: Vec<usize>)
    ensures
        ranks(order@, scores@.map_values(|v: i16| v as int), scores@.len() as int),
{
    let ghost ints = scores@.map_values(|v: i16| v as int);
    let mut order: Vec<usize> = Vec::new();
    let mut i: usize = 0;
    while i < scores.len()
        invariant
            i <= scores@.len(),
            ints == scores@.map_values(|v: i16| v as int),
            ranks(order@, ints, i as int),
        decreases scores@.len() - i,
    {
        let mut p: usize = order.len();
        while p > 0 && scores[order[p - 1]] > scores[i]
            invariant
                p <= order@.len(),
                order@.len() == i,
                i < scores@.len(),
                ints == scores@.map_values(|v: i16| v as int),
                ranks(order@, ints, i as int),
                forall|q: int| p <= q < i ==> ints[order@[q] as int] > ints[i as int],
            decreases p,
        {
            p = p - 1;
        }
        let ghost before = order@;
        order.insert(p, i);
        proof {
            let after = order@;
            assert forall|a: int, b: int| 0 <= a < b < i + 1 implies ints[after[a] as int]
                < ints[after[b] as int] || (ints[after[a] as int] == ints[after[b] as int]
                && #[trigger] after[a] < #[trigger] after[b]) by {
                if b < p {
                    assert(after[a] == before[a] && after[b] == before[b]);
                } else if b == p {
                    assert(after[a] == before[a]);
                    if a == p - 1 {
                    } else {
                        assert(before[a] < before[p - 1] || ints[before[a] as int] <= ints[before[p
                            - 1] as int]);
                    }
                } else if a < p {
                    assert(after[a] == before[a] && after[b] == before[b - 1]);
                } else if a == p {
                    assert(after[b] == before[b - 1]);
                } else {
                    assert(after[a] == before[a - 1] && after[b] == before[b - 1]);
                }
            }
        }
        i = i + 1;
    }
    order
}

/// What each move leaves: the score of the position after it, for the
/// player who then moves.
pub fn successor_evals(board: &Board, moves: &Vec<Move>) -> (evals: Vec<i16>)
    requires
        forall|j: int| 0 <= j < moves@.len() ==> playable(board@, #[trigger] moves@[j]@),
    ensures
        evals@.len() == moves@.len(),
        forall|j: int|
            0 <= j < moves@.len() ==> (#[trigger] evals@[j]) as int == score(
                board@.after_move(moves@[j]@),
            ),
{
    let mut evals: Vec<i16> = Vec::new();
    let mut i: usize = 0;
    while i < moves.len()
        invariant
            i <= moves@.len(),
            evals@.len() == i,
            forall|j: int| 0 <= j < moves@.len() ==> playable(board@, #[trigger] moves@[j]@),
            forall|j: int|
                0 <= j < i ==> (#[trigger] evals@[j]) as int == score(board@.after_move(moves@[j]@)),
        decreases moves@.len() - i,
    {
        let mut new_board = board.clone();
        new_board.make_move_unchecked(moves[i]);
        evals.push(new_board.eval());
        i = i + 1;
    }
    evals
}

/// The move that the draw `draw` picks: the moves are ranked by what they
/// leave the opponent, the worst for the opponent first, and the draw picks
/// the rank `biased(draw, len)`.
pub fn pick_ranked(board: &Board, moves: &Vec<Move>, draw: u32) -> (index: usize)
    requires
        moves@.len() > 0,
        draw < 16777216,
        forall|j: int| 0 <= j < moves@.len() ==> playable(board@, #[trigger] moves@[j]@),
    ensures
        index < moves@.len(),
        exists|order: Seq<usize>|
            ranks(
                order,
                Seq::new(moves@.len(), |j: int| score(board@.after_move(moves@[j]@))),
                moves@.len() as int,
            ) && index == #[trigger] order[biased(draw as int, moves@.len() as int)],
{
    let evals = successor_evals(board, moves);
    let order = rank_scores(&evals);
    let rank = biased_index(draw, moves.len());
    proof {
        assert(evals@.map_values(|v: i16| v as int) =~= Seq::new(
            moves@.len(),
            |j: int| score(board@.after_move(moves@[j]@)),
        ));
    }
    order[rank]
}

/// What each legal move in `a` with `r` leaves: the score of the position
/// after it, for the player who then moves.
pub open spec fn replies(a: Layout, r: Roll) -> Seq<int> {
    Seq::new(legal_moves(a, r).len(), |j: int| score(a.after_move(legal_moves(a, r)[j])))
}

/// `steps` is the legal move in `a` with `r` that some draw picks: the legal
/// moves ranked by what they leave, the move at the rank `biased(draw, n)`
/// for a draw below 16777216.
pub open spec fn drawn_move(a: Layout, r: Roll, steps: Seq<Step>) -> bool {
    exists|draw: int, order: Seq<usize>|
        0 <= draw < 16777216 && ranks(order, replies(a, r), legal_moves(a, r).len() as int)
            && steps == legal_moves(a, r)[#[trigger] order[biased(
            draw,
            legal_moves(a, r).len() as int,
        )] as int]
}

/// `b` is what the legal move in `a` with `r` that some draw picks makes of
/// `a`.
pub open spec fn drawn_step(a: Layout, r: Roll, b: Layout) -> bool {
    exists|steps: Seq<Step>| #[trigger] drawn_move(a, r, steps) && b == a.after_move(steps)
}

/// `r` is a fresh roll of two dice; with `ordered`, one of the 21 rolls that
/// name the smaller die first.
pub open spec fn rolled(r: Roll, ordered: bool) -> bool {
    exists|x: int, y: int|
        1 <= x <= 6 && 1 <= y <= 6 && (ordered ==> x <= y) && r == #[trigger] Roll::fresh(x, y)
}

/// Each of the 21 rolls is a fresh roll that names the smaller die first.
pub proof fn lemma_nth_rolled(i: int)
    requires
        0 <= i < 21,
    ensures
        rolled(nth_roll(i), true),
{
    let (x, y) = if i < 6 {
        (1int, 1 + i)
    } else if i < 11 {
        (2int, i - 4)
    } else if i < 15 {
        (3int, i - 8)
    } else if i < 18 {
        (4int, i - 11)
    } else if i < 20 {
        (5int, i - 13)
    } else {
        (6int, 6int)
    };
    assert(nth_roll(i) == Roll::fresh(x, y));
}

/// A legal move drawn with a bias towards those that leave the opponent a
/// poor position: the legal moves are ranked by what they leave, and a draw
/// below 16777216 picks the rank.
pub fn find_highest_eval_move(board: &Board, dice: Dice) -> (m: Move)
    requires
        dice.wf(),
        board@.own_total() <= 15,
        board@.their_total() <= 15,
    ensures
        exists|j: int| 0 <= j < legal_moves(board@, dice@).len() && m@ == #[trigger] legal_moves(board@, dice@)[j],
        playable(board@, m@),
        drawn_move(board@, dice@, m@),
{
    let legal_moves = board.generage_moves(dice);
    let draw = random_in(0, 16777215);
    let index = pick_ranked(board, &legal_moves, draw);
    proof {
        assert(crate::game::board::moves_of(legal_moves@)[index as int] == legal_moves@[index as int]@);
        lemma_picked(board@, dice@, legal_moves@, draw as int, index as int);
    }
    legal_moves[index]
}

/// What `pick_ranked` picks among the generated moves is a drawn move.
pub proof fn lemma_picked(a: Layout, r: Roll, moves: Seq<Move>, draw: int, index: int)
    requires
        crate::game::board::moves_of(moves) == legal_moves(a, r),
        moves.len() > 0,
        0 <= draw < 16777216,
        0 <= index < moves.len(),
        exists|order: Seq<usize>|
            ranks(
                order,
                Seq::new(moves.len(), |j: int| score(a.after_move(moves[j]@))),
                moves.len() as int,
            ) && index == #[trigger] order[biased(draw, moves.len() as int)],
    ensures
        drawn_move(a, r, moves[index]@),
        drawn_step(a, r, a.after_move(moves[index]@)),
{
    let order = choose|order: Seq<usize>|
        ranks(
            order,
            Seq::new(moves.len(), |j: int| score(a.after_move(moves[j]@))),
            moves.len() as int,
        ) && index == #[trigger] order[biased(draw, moves.len() as int)];
    let views = crate::game::board::moves_of(moves);
    assert(views.len() == moves.len());
    assert forall|j: int| 0 <= j < moves.len() implies views[j] == moves[j]@ by {}
    assert(Seq::new(moves.len(), |j: int| score(a.after_move(moves[j]@))) =~= replies(a, r));
    assert(moves[index]@ == legal_moves(a, r)[order[biased(draw, legal_moves(a, r).len() as int)] as int]);
    assert(drawn_move(a, r, moves[index]@));
}

/// A legal move drawn uniformly.
pub fn choose_random_move(board: &Board, dice: Dice) -> (m: Move)
    requires
        dice.wf(),
        board@.own_total() <= 15,
        board@.their_total() <= 15,
    ensures
        exists|j: int| 0 <= j < legal_moves(board@, dice@).len() && m@ == #[trigger] legal_moves(board@, dice@)[j],
        playable(board@, m@),
{
    let legal_moves = board.generage_moves(dice);
    let last = legal_moves.len() - 1;
    let index = if last > 0xFFFF_FFFF {
        0
    } else {
        random_in(0, last as u32) as usize
    };
    proof {
        assert(crate::game::board::moves_of(legal_moves@)[index as int] == legal_moves@[index as int]@);
    }
    legal_moves[index]
}

/// Position `j` of `path` is what a drawn move makes of the one before, in
/// which the game is not over. The move is a legal move with a fresh roll;
/// the first move is one with the roll `first` where one is given.
pub open spec fn plays_on(path: Seq<Layout>, first: Option<Roll>, ordered: bool, j: int) -> bool {
    rank(path[j - 1]) == 0 && (if j == 1 && first is Some {
        drawn_step(path[j - 1], first->Some_0, path[j])
    } else {
        exists|r: Roll| rolled(r, ordered) && #[trigger] drawn_step(path[j - 1], r, path[j])
    })
}

/// `path` is a play-out: each position after the first is what a drawn move
/// makes of the one before, in which the game is not over.
pub open spec fn is_play_out(path: Seq<Layout>, first: Option<Roll>, ordered: bool) -> bool {
    &&& path.len() > 0
    &&& forall|j: int| 0 < j < path.len() ==> #[trigger] plays_on(path, first, ordered, j)
}

/// A play-out with one more drawn move in a running game is a play-out.
pub proof fn lemma_play_out_grows(
    path: Seq<Layout>,
    first: Option<Roll>,
    ordered: bool,
    next: Layout,
    r: Roll,
)
    requires
        is_play_out(path, first, ordered),
        rank(path.last()) == 0,
        drawn_step(path.last(), r, next),
        if path.len() == 1 && first is Some {
            r == first->Some_0
        } else {
            rolled(r, ordered)
        },
    ensures
        is_play_out(path.push(next), first, ordered),
{
    let longer = path.push(next);
    assert forall|j: int| 0 < j < longer.len() implies #[trigger] plays_on(
        longer,
        first,
        ordered,
        j,
    ) by {
        if j < path.len() {
            assert(plays_on(path, first, ordered, j));
            assert(longer[j] == path[j]);
            assert(longer[j - 1] == path[j - 1]);
        } else {
            assert(longer[j] == next);
            assert(longer[j - 1] == path.last());
            assert(drawn_step(longer[j - 1], r, longer[j]));
        }
    }
}

/// The score of `s` for `root_player`: the mover's score, negated where the
/// other player is to move.
pub open spec fn score_for(s: Layout, root_player: Player) -> int {
    if (root_player == Player::White) == s.white_to_move {
        score(s)
    } else {
        -score(s)
    }
}

/// `reward` is what a play-out of at most `depth` moves from `start` can
/// give `root_player`: the score of the position that drawn moves lead to,
/// after `depth` of them or, where the game is over before, after fewer.
pub open spec fn played_out(
    start: Layout,
    first: Option<Roll>,
    ordered: bool,
    depth: int,
    root_player: Player,
    reward: int,
) -> bool {
    exists|path: Seq<Layout>|
        {
            &&& #[trigger] is_play_out(path, first, ordered)
            &&& path[0] == start
            &&& path.len() <= depth + 1
            &&& path.len() == depth + 1 || rank(path.last()) != 0
            &&& reward == score_for(path.last(), root_player)
        }
}

/// Plays on from `board` for at most `depth` moves, each side rolling and
/// drawing a move with `find_highest_eval_move`, and stops early when the
/// game is over. Returns the score of the last position for white.
pub fn simulate_random_game(board: &Board, depth: usize) -> (v: i16)
    requires
        board@.own_total() <= 15,
        board@.their_total() <= 15,
    ensures
        -7500 <= v <= 7500,
        depth == 0 || rank(board@) != 0 ==> v as int == score_for_white(board@),
        played_out(board@, None, false, depth as int, Player::White, v as int),
{
    let mut current_board = board.clone();
    let mut i: usize = 0;
    let ghost mut path: Seq<Layout> = seq![board@];
    while i < depth
        invariant
            current_board@.own_total() <= 15,
            current_board@.their_total() <= 15,
            i <= depth,
            i == 0 ==> current_board@ == board@,
            i > 0 ==> rank(board@) == 0,
            is_play_out(path, None, false),
            path.len() == i + 1,
            path[0] == board@,
            path.last() == current_board@,
        ensures
            i <= depth,
            i == 0 ==> current_board@ == board@,
            i > 0 ==> rank(board@) == 0,
            is_play_out(path, None, false),
            path.len() == i + 1,
            path[0] == board@,
            path.last() == current_board@,
            i == depth || rank(current_board@) != 0,
        decreases depth - i,
    {
        let dice = Dice::roll();
        if GameOutcome::Ongoing != current_board.outcome() {
            break ;
        }
        let ghost before = current_board@;
        let m = find_highest_eval_move(&current_board, dice);
        proof {
            lemma_flipped_totals(current_board@.play(m@, m@.len() as int));
        }
        current_board.make_move_unchecked(m);
        i = i + 1;
        proof {
            assert(drawn_step(before, dice@, current_board@));
            let (x, y) = choose|x: int, y: int|
                1 <= x <= 6 && 1 <= y <= 6 && dice@ == Roll::fresh(x, y);
            assert(dice@ == Roll::fresh(x, y));
            assert(rolled(dice@, false));
            lemma_play_out_grows(path, None, false, current_board@, dice@);
            path = path.push(current_board@);
        }
    }
    current_board.eval_absolute()
}

/// What the position after the move `steps` scores for the player who
/// moves in `s`.
pub open spec fn mover_score(s: Layout, steps: Seq<Step>) -> int {
    if s.white_to_move {
        score_for_white(s.after_move(steps))
    } else {
        -score_for_white(s.after_move(steps))
    }
}

/// The first `n` of `values` added up.
pub open spec fn sum_of(values: Seq<int>, n: int) -> int
    decreases n,
{
    if n <= 0 {
        0
    } else {
        sum_of(values, n - 1) + values[n - 1]
    }
}

/// A sum depends on the values added alone.
pub proof fn lemma_sum_prefix(a: Seq<int>, b: Seq<int>, n: int)
    requires
        n <= a.len(),
        n <= b.len(),
        forall|i: int| 0 <= i < n ==> a[i] == b[i],
    ensures
        sum_of(a, n) == sum_of(b, n),
    decreases n,
{
    if n > 0 {
        lemma_sum_prefix(a, b, n - 1);
    }
}

/// `total` can be what `simulations` random games of at most `depth` moves
/// from `after` add up to for the player who moved there: each game gives
/// what a play-out gives white, counted for white if white moved and
/// against white else.
pub open spec fn tally(after: Layout, simulations: int, depth: int, white_moved: bool, total: int) -> bool {
    exists|values: Seq<int>|
        {
            let sum = #[trigger] sum_of(values, simulations);
            &&& values.len() == simulations
            &&& forall|k: int|
                0 <= k < simulations ==> played_out(
                    after,
                    None,
                    false,
                    depth,
                    Player::White,
                    #[trigger] values[k],
                )
            &&& total == (if white_moved {
                sum
            } else {
                -sum
            })
        }
}

/// `totals` can be what the random games after each legal move add up to
/// for the mover: one total for each move, each the tally of `simulations`
/// games from the position after the move, and so within what that many
/// games can score; with `depth` 0 no move is played and each total is the
/// score after the move, `simulations` times.
pub open spec fn tallied(s: Layout, r: Roll, simulations: int, depth: int, totals: Seq<int>) -> bool {
    &&& totals.len() == legal_moves(s, r).len()
    &&& totals.len() > 0
    &&& forall|j: int|
        0 <= j < totals.len() ==> -7500 * simulations <= #[trigger] totals[j] <= 7500 * simulations
    &&& forall|j: int|
        0 <= j < totals.len() ==> tally(
            s.after_move(legal_moves(s, r)[j]),
            simulations,
            depth,
            s.white_to_move,
            #[trigger] totals[j],
        )
    &&& depth == 0 ==> forall|j: int|
        0 <= j < totals.len() ==> #[trigger] totals[j] == simulations * mover_score(
            s,
            legal_moves(s, r)[j],
        )
}

/// The index of the first largest total.
pub fn best_total(totals: &Vec<i128>) -> (best: usize)
    requires
        totals@.len() > 0,
    ensures
        best as int == first_best(totals@.map_values(|v: i128| v as int), totals@.len() as int),
        best < totals@.len(),
{
    let ghost ints = totals@.map_values(|v: i128| v as int);
    let mut best: usize = 0;
    let mut i: usize = 1;
    while i < totals.len()
        invariant
            1 <= i <= totals@.len(),
            ints == totals@.map_values(|v: i128| v as int),
            best as int == first_best(ints, i as int),
            best < i,
        decreases totals@.len() - i,
    {
        if totals[i] > totals[best] {
            best = i;
        }
        i = i + 1;
    }
    best
}

/// The legal move after which `simulations` random games of at most `depth`
/// moves end best for the player to move on the whole; the first such move.
pub fn monte_carlo_search(board: &Board, dice: Dice, simulations: usize, depth: usize) -> (m: Move)
    requires
        dice.wf(),
        board@.own_total() <= 15,
        board@.their_total() <= 15,
    ensures
        playable(board@, m@),
        exists|totals: Seq<int>| #[trigger]
            tallied(board@, dice@, simulations as int, depth as int, totals) && m@ == legal_moves(
                board@,
                dice@,
            )[first_best(totals, totals.len() as int)],
{
    let legal_moves = board.generage_moves(dice);
    let ghost spec_moves = crate::rules::search::legal_moves(board@, dice@);
    let mut totals: Vec<i128> = Vec::new();
    let mut i: usize = 0;
    proof {
        assert(crate::game::board::moves_of(legal_moves@).len() == legal_moves@.len());
    }
    while i < legal_moves.len()
        invariant
            i <= legal_moves@.len(),
            legal_moves@.len() > 0,
            totals@.len() == i,
            crate::game::board::moves_of(legal_moves@) == spec_moves,
            spec_moves.len() == legal_moves@.len(),
            forall|j: int| 0 <= j < legal_moves@.len() ==> playable(board@, #[trigger] legal_moves@[j]@),
            forall|j: int|
                0 <= j < i ==> -7500 * simulations <= #[trigger] totals@[j] <= 7500 * simulations,
            forall|j: int|
                0 <= j < i && depth == 0 ==> #[trigger] totals@[j] as int == simulations * mover_score(
                    board@,
                    spec_moves[j],
                ),
            forall|j: int|
                0 <= j < i ==> tally(
                    board@.after_move(spec_moves[j]),
                    simulations as int,
                    depth as int,
                    board@.white_to_move,
                    #[trigger] totals@[j] as int,
                ),
            board@.own_total() <= 15,
            board@.their_total() <= 15,
        decreases legal_moves@.len() - i,
    {
        let m = legal_moves[i];
        proof {
            lemma_flipped_totals(board@.play(m@, m@.len() as int));
            assert(crate::game::board::moves_of(legal_moves@)[i as int] == m@);
        }
        let mut new_board = board.clone();
        new_board.make_move_unchecked(m);
        let ghost c = mover_score(board@, m@);
        let ghost mut values: Seq<int> = Seq::empty();
        let mut score: i128 = 0;
        let mut k: usize = 0;
        while k < simulations
            invariant
                k <= simulations,
                -7500 * k <= score <= 7500 * k,
                depth == 0 ==> score as int == k * c,
                c == mover_score(board@, m@),
                new_board@ == board@.after_move(m@),
                new_board@.own_total() <= 15,
                new_board@.their_total() <= 15,
                values.len() == k,
                forall|t: int|
                    0 <= t < k ==> played_out(
                        new_board@,
                        None,
                        false,
                        depth as int,
                        Player::White,
                        #[trigger] values[t],
                    ),
                score as int == (if board@.white_to_move {
                    sum_of(values, k as int)
                } else {
                    -sum_of(values, k as int)
                }),
            decreases simulations - k,
        {
            let v = simulate_random_game(&new_board, depth) as i128;
            match board.get_active_player() {
                Player::White => {
                    score = score + v;
                },
                Player::Black => {
                    score = score - v;
                },
            }
            proof {
                assert((k + 1) * c == k * c + c) by (nonlinear_arith);
                let before = values;
                values = values.push(v as int);
                lemma_sum_prefix(before, values, k as int);
            }
            k = k + 1;
        }
        proof {
            assert(sum_of(values, simulations as int) == sum_of(values, simulations as int));
            assert(tally(
                board@.after_move(m@),
                simulations as int,
                depth as int,
                board@.white_to_move,
                score as int,
            ));
        }
        totals.push(score);
        i = i + 1;
    }
    let best = best_total(&totals);
    proof {
        let ints = totals@.map_values(|v: i128| v as int);
        assert(crate::game::board::moves_of(legal_moves@)[best as int] == legal_moves@[best as int]@);
        assert(tallied(board@, dice@, simulations as int, depth as int, ints));
    }
    legal_moves[best]
}

} // verus!
