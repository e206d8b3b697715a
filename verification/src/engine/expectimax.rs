use vstd::prelude::*;
use crate::game::{Board, Dice, Move};
use crate::misc::cache::{no_scores, scores_in, table_get, table_insert, table_new, Key, Table};
use crate::rules::expect::{
    alpha_beta as alpha_beta_score,
    average,
    best_reply,
    first_best,
    move_score,
    weighted_sum,
    INFINITE,
    LIMIT,
    SCALE,
};
use crate::rules::laws::playable;
use crate::rules::layout::{lemma_flipped_totals, Layout, Step};
use crate::rules::roll::{all_rolls, lemma_all_rolls, nth_roll, weight, weight_upto};
use crate::rules::search::legal_moves;

verus! {

/// Every score in the table is within the limit of search scores.
pub open spec fn within_limit(table: Map<Key, i64>) -> bool {
    forall|k: Key| table.contains_key(k) ==> -LIMIT <= #[trigger] table[k] <= LIMIT
}

/// The position after a playable move has no more checkers than before.
proof fn lemma_after_move(s: Layout, steps: Seq<Step>)
    requires
        playable(s, steps),
        s.own_total() <= 15,
        s.their_total() <= 15,
    ensures
        s.after_move(steps).own_total() <= 15,
        s.after_move(steps).their_total() <= 15,
{
    lemma_flipped_totals(s.play(steps, steps.len() as int));
}

/// The move with the best score among the legal moves with `dice`, the
/// first of them where several are best. A move's score is what the opponent
/// can expect after it, searched `depth` moves deep, negated.
pub fn find_best_move(board: &Board, dice: Dice, depth: u8) -> (best: Move)
    requires
        dice.wf(),
        board@.own_total() <= 15,
        board@.their_total() <= 15,
    ensures
        best@ == legal_moves(board@, dice@)[first_best(
            Seq::new(
                legal_moves(board@, dice@).len(),
                |j: int| move_score(board@, legal_moves(board@, dice@)[j], depth as nat),
            ),
            legal_moves(board@, dice@).len() as int,
        )],
        playable(board@, best@),
{
    let legal_moves = board.generage_moves(dice);
    let ghost spec_moves = crate::rules::search::legal_moves(board@, dice@);
    let ghost scores_spec = Seq::new(
        spec_moves.len(),
        |j: int| move_score(board@, spec_moves[j], depth as nat),
    );
    let mut evals: Vec<i64> = Vec::new();
    let mut i: usize = 0;
    proof {
        assert(crate::game::board::moves_of(legal_moves@).len() == legal_moves@.len());
    }
    while i < legal_moves.len()
        invariant
            i <= legal_moves@.len(),
            legal_moves@.len() == spec_moves.len(),
            crate::game::board::moves_of(legal_moves@) == spec_moves,
            forall|j: int| 0 <= j < legal_moves@.len() ==> playable(board@, #[trigger] legal_moves@[j]@),
            board@.own_total() <= 15,
            board@.their_total() <= 15,
            evals@.len() == i,
            forall|j: int| 0 <= j < i ==> evals@[j] as int == #[trigger] scores_spec[j],
            scores_spec == Seq::new(
                spec_moves.len(),
                |j: int| move_score(board@, spec_moves[j], depth as nat),
            ),
        decreases legal_moves@.len() - i,
    {
        proof {
            assert(crate::game::board::moves_of(legal_moves@)[i as int] == legal_moves@[i as int]@);
        }
        let eval = score_move(board, legal_moves[i], depth);
        evals.push(eval);
        i = i + 1;
    }
    let best = pick_best(&evals);
    proof {
        assert(evals@.map_values(|v: i64| v as int) =~= scores_spec);
        assert(crate::game::board::moves_of(legal_moves@)[best as int] == legal_moves@[best as int]@);
    }
    legal_moves[best]
}

/// What playing `m` is worth to the player to move: what the opponent can
/// expect after it, searched `depth` moves deep, negated.
pub fn score_move(board: &Board, m: Move, depth: u8) -> (v: i64)
    requires
        playable(board@, m@),
        board@.own_total() <= 15,
        board@.their_total() <= 15,
    ensures
        v as int == move_score(board@, m@, depth as nat),
        -LIMIT <= v <= LIMIT,
{
    let mut new_board = board.clone();
    new_board.make_move_unchecked(m);
    proof {
        lemma_after_move(board@, m@);
    }
    let mut seen = table_new();
    -average_eval(&new_board, -INFINITE, INFINITE, depth, &mut seen)
}

/// The index of the first largest score.
pub fn pick_best(scores: &Vec<i64>) -> (best: usize)
    requires
        scores@.len() > 0,
    ensures
        best as int == first_best(scores@.map_values(|v: i64| v as int), scores@.len() as int),
        best < scores@.len(),
{
    let ghost ints = scores@.map_values(|v: i64| v as int);
    let mut best: usize = 0;
    let mut i: usize = 1;
    while i < scores.len()
        invariant
            1 <= i <= scores@.len(),
            ints == scores@.map_values(|v: i64| v as int),
            best as int == first_best(ints, i as int),
            best < i,
        decreases scores@.len() - i,
    {
        if scores[i] > scores[best] {
            best = i;
        }
        i = i + 1;
    }
    best
}

/// What the player to move can expect before rolling, searched `depth`
/// moves deep: the scores for the 21 rolls, weighted, over 36.
pub fn search_eval(board: &Board, depth: u8) -> (v: i64)
    requires
        board@.own_total() <= 15,
        board@.their_total() <= 15,
    ensures
        v as int == average(board@, -INFINITE, INFINITE as int, depth as nat, no_scores()).0,
        -LIMIT <= v <= LIMIT,
{
    let mut seen = table_new();
    average_eval(board, -INFINITE, INFINITE, depth, &mut seen)
}

/// A table that holds no score yet.
pub fn new_table() -> (table: Table)
    ensures
        scores_in(table) == no_scores(),
        within_limit(scores_in(table)),
{
    table_new()
}

/// The average over the rolls of `alpha_beta`, each roll weighted by the
/// number of ways it comes up. Every roll is searched with the same window.
pub fn average_eval(board: &Board, alpha: i64, beta: i64, depth: u8, seen: &mut Table) -> (v: i64)
    requires
        board@.own_total() <= 15,
        board@.their_total() <= 15,
        -INFINITE <= alpha <= INFINITE,
        -INFINITE <= beta <= INFINITE,
        within_limit(scores_in(*old(seen))),
    ensures
        (v as int, scores_in(*final(seen))) == average(
            board@,
            alpha as int,
            beta as int,
            depth as nat,
            scores_in(*old(seen)),
        ),
        -LIMIT <= v <= LIMIT,
        within_limit(scores_in(*final(seen))),
    decreases depth, 4int, 0int,
{
    let all = Dice::all();
    let ghost start = scores_in(*seen);
    let mut sum: i64 = 0;
    let mut i: usize = 0;
    proof {
        lemma_all_rolls();
    }
    while i < 21
        invariant
            i <= 21,
            board@.own_total() <= 15,
            board@.their_total() <= 15,
            -INFINITE <= alpha <= INFINITE,
            -INFINITE <= beta <= INFINITE,
            all@.map_values(|d: Dice| d@) == all_rolls(),
            forall|j: int| 0 <= j < 21 ==> (#[trigger] all@[j]).wf(),
            within_limit(scores_in(*seen)),
            -491520000 * weight_upto(i as int) <= sum <= 491520000 * weight_upto(i as int),
            0 <= weight_upto(i as int) <= 2 * i,
            weighted_sum(board@, alpha as int, beta as int, depth as nat, 0, 0, start)
                == weighted_sum(
                board@,
                alpha as int,
                beta as int,
                depth as nat,
                i as int,
                sum as int,
                scores_in(*seen),
            ),
        decreases 21 - i,
    {
        let dice = all[i];
        proof {
            assert(all@.map_values(|d: Dice| d@)[i as int] == all@[i as int]@);
            assert(dice@ == nth_roll(i as int));
        }
        let eval = alpha_beta(board, depth, alpha, beta, dice, seen);
        let w = dice.weight() as i64;
        assert(-491520000 * w <= eval * w <= 491520000 * w && eval * w == w * eval) by (nonlinear_arith)
            requires
                -491520000 <= eval <= 491520000,
                1 <= w <= 2,
        ;
        proof {
            assert(weight_upto(i as int + 1) == weight_upto(i as int) + weight(nth_roll(i as int)));
        }
        sum = sum + eval * w;
        i = i + 1;
    }
    proof {
        assert(weight_upto(21) == 36);
    }
    if sum >= 0 {
        sum / 36
    } else {
        -((-sum) / 36)
    }
}

/// The score of the position for its mover who has rolled `dice`, searched
/// `depth` moves deep within the window `alpha..beta`. A score that `seen`
/// holds for the position and the dice is returned as it is; a new score is
/// stored there.
pub fn alpha_beta(board: &Board, depth: u8, alpha: i64, beta: i64, dice: Dice, seen: &mut Table) -> (v:
    i64)
    requires
        dice.wf(),
        board@.own_total() <= 15,
        board@.their_total() <= 15,
        -INFINITE <= alpha <= INFINITE,
        -INFINITE <= beta <= INFINITE,
        within_limit(scores_in(*old(seen))),
    ensures
        (v as int, scores_in(*final(seen))) == alpha_beta_score(
            board@,
            depth as nat,
            alpha as int,
            beta as int,
            dice@,
            scores_in(*old(seen)),
        ),
        -LIMIT <= v <= LIMIT,
        within_limit(scores_in(*final(seen))),
    decreases depth, 2int, 0int,
{
    if depth == 0 {
        return board.eval() as i64 * SCALE;
    }
    let key = board.cache_key(&dice);
    match table_get(seen, key) {
        Some(cached_eval) => {
            return cached_eval;
        },
        None => {},
    }
    let legal_moves = board.generage_moves(dice);
    if legal_moves.len() == 0 {
        return board.eval() as i64 * SCALE;
    }
    let ghost spec_moves = crate::rules::search::legal_moves(board@, dice@);
    let ghost start = scores_in(*seen);
    let ghost alpha0 = alpha;
    let mut alpha = alpha;
    let mut best_eval: i64 = -INFINITE;
    let mut i: usize = 0;
    proof {
        assert(crate::game::board::moves_of(legal_moves@).len() == legal_moves@.len());
    }
    while i < legal_moves.len()
        invariant_except_break
            i <= legal_moves@.len(),
            depth > 0,
            legal_moves@.len() == spec_moves.len(),
            crate::game::board::moves_of(legal_moves@) == spec_moves,
            forall|j: int| 0 <= j < legal_moves@.len() ==> playable(board@, #[trigger] legal_moves@[j]@),
            board@.own_total() <= 15,
            board@.their_total() <= 15,
            -INFINITE <= alpha <= INFINITE,
            -INFINITE <= beta <= INFINITE,
            within_limit(scores_in(*seen)),
            i == 0 ==> best_eval == -INFINITE,
            i > 0 ==> -LIMIT <= best_eval <= LIMIT,
            best_reply(
                board@,
                depth as nat,
                alpha0 as int,
                beta as int,
                spec_moves,
                0,
                -INFINITE,
                start,
            ) == best_reply(
                board@,
                depth as nat,
                alpha as int,
                beta as int,
                spec_moves,
                i as int,
                best_eval as int,
                scores_in(*seen),
            ),
        ensures
            i > 0 || legal_moves@.len() == 0,
            -LIMIT <= best_eval <= LIMIT || legal_moves@.len() == 0,
            within_limit(scores_in(*seen)),
            (best_eval as int, scores_in(*seen)) == best_reply(
                board@,
                depth as nat,
                alpha0 as int,
                beta as int,
                spec_moves,
                0,
                -INFINITE,
                start,
            ),
        decreases legal_moves@.len() - i,
    {
        let m = legal_moves[i];
        proof {
            assert(crate::game::board::moves_of(legal_moves@)[i as int] == m@);
            lemma_after_move(board@, m@);
        }
        let mut new_board = board.clone();
        new_board.make_move_unchecked(m);
        let eval = -average_eval(&new_board, -beta, -alpha, depth - 1, seen);
        if eval > best_eval {
            best_eval = eval;
        }
        if best_eval > alpha {
            alpha = best_eval;
        }
        i = i + 1;
        if beta <= alpha {
            break ;
        }
    }
    table_insert(seen, key, best_eval);
    best_eval
}

} // verus!
