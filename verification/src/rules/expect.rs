use vstd::prelude::*;
use crate::misc::cache::Key;
use crate::rules::layout::{Layout, Step};
use crate::rules::roll::{nth_roll, weight, Roll};
use crate::rules::search::legal_moves;
use crate::rules::value::score;

verus! {

/// Search scores count 65536 to one point of the evaluation, so that the
/// average over the rolls keeps its fraction.
pub const SCALE: i64 = 65536;

/// No search score is beyond this: the largest evaluation, scaled.
pub const LIMIT: i64 = 491520000;

/// Stands for a window that is open on one side.
pub const INFINITE: i64 = 1000000000000;

/// Point `i` and the points below it as one number to base 31, each point
/// a digit `count + 15`.
pub open spec fn points_code(points: Seq<int>, n: int) -> int
    decreases n,
{
    if n <= 0 {
        0
    } else {
        points_code(points, n - 1) * 31 + (points[n - 1] + 15)
    }
}

/// 31 to the power `n`.
pub open spec fn pow31(n: nat) -> int
    decreases n,
{
    if n == 0 {
        1
    } else {
        31 * pow31((n - 1) as nat)
    }
}

/// The powers of 31 grow, and the 24th still fits 128 bits.
pub proof fn lemma_pow31(n: nat)
    requires
        n <= 24,
    ensures
        1 <= pow31(n) <= pow31(24) <= u128::MAX,
    decreases 24 - n,
{
    if n < 24 {
        lemma_pow31(n + 1);
    } else {
        reveal_with_fuel(pow31, 25);
    }
}

/// The code of bounded points is below the power of 31 of their number.
pub proof fn lemma_points_code_range(points: Seq<int>, n: int)
    requires
        0 <= n <= 24,
        forall|i: int| 0 <= i < n ==> -15 <= #[trigger] points[i] <= 15,
    ensures
        0 <= points_code(points, n) < pow31(n as nat),
    decreases n,
{
    if n > 0 {
        lemma_points_code_range(points, n - 1);
    }
}

/// Bounded points with the same code are the same points.
pub proof fn lemma_points_code_injective(a: Seq<int>, b: Seq<int>, n: int)
    requires
        0 <= n <= 24,
        forall|i: int| 0 <= i < n ==> -15 <= #[trigger] a[i] <= 15,
        forall|i: int| 0 <= i < n ==> -15 <= #[trigger] b[i] <= 15,
        points_code(a, n) == points_code(b, n),
    ensures
        forall|i: int| 0 <= i < n ==> a[i] == b[i],
    decreases n,
{
    if n > 0 {
        lemma_points_code_range(a, n - 1);
        lemma_points_code_range(b, n - 1);
        let x = points_code(a, n - 1);
        let y = points_code(b, n - 1);
        let da = a[n - 1] + 15;
        let db = b[n - 1] + 15;
        assert(x * 31 + da == y * 31 + db);
        assert(x == y && da == db);
        lemma_points_code_injective(a, b, n - 1);
    }
}

/// A roll as a number: a double below 64, any other roll from 64 on.
pub open spec fn roll_code(r: Roll) -> int {
    match r {
        Roll::Double { value, used } => value * 8 + used,
        Roll::Single { first, second, first_used, second_used } => 64 + first * 32 + second * 4
            + (if first_used {
            2int
        } else {
            0int
        }) + (if second_used {
            1int
        } else {
            0int
        }),
    }
}

/// Bars, homes, the mover and the roll as one number.
pub open spec fn rest_code(s: Layout, r: Roll) -> int {
    s.active_bar + 16 * s.passive_bar + 256 * s.active_home + 4096 * s.passive_home + (if s.white_to_move {
        0int
    } else {
        65536int
    }) + 131072 * roll_code(r)
}

/// The key under which the score of position `s` with roll `r` is stored.
pub open spec fn key_of(s: Layout, r: Roll) -> Key {
    (points_code(s.points, 24) as u128, rest_code(s, r) as u32)
}

/// The score of a position that is not searched further.
pub open spec fn leaf(s: Layout) -> int {
    score(s) * SCALE
}

/// `sum` over 36, rounded towards zero.
pub open spec fn over_36(sum: int) -> int {
    if sum >= 0 {
        sum / 36
    } else {
        -((-sum) / 36)
    }
}

/// The larger of `a` and `b`.
pub open spec fn larger(a: int, b: int) -> int {
    if a >= b {
        a
    } else {
        b
    }
}

/// The score of position `s` for its mover who has rolled `r`, searched
/// `depth` moves deep within the window `alpha..beta`, and the table
/// afterwards. At depth 0 it is the leaf score; a score that the table holds
/// for this position and roll is taken from there; else it is the best that
/// a legal move achieves, which is stored in the table.
pub open spec fn alpha_beta(
    s: Layout,
    depth: nat,
    alpha: int,
    beta: int,
    r: Roll,
    table: Map<Key, i64>,
) -> (int, Map<Key, i64>)
    decreases depth, 2int, 0int,
{
    if depth == 0 {
        (leaf(s), table)
    } else if table.contains_key(key_of(s, r)) {
        (table[key_of(s, r)] as int, table)
    } else {
        let moves = legal_moves(s, r);
        if moves.len() == 0 {
            (leaf(s), table)
        } else {
            let (best, after) = best_reply(s, depth, alpha, beta, moves, 0, -INFINITE, table);
            (best, after.insert(key_of(s, r), best as i64))
        }
    }
}

/// The best score among the moves `moves[i..]` and `best`, each move scored
/// by what the opponent can expect after it, negated. The window narrows
/// with each better move, and the search stops at the first move that
/// closes it.
pub open spec fn best_reply(
    s: Layout,
    depth: nat,
    alpha: int,
    beta: int,
    moves: Seq<Seq<Step>>,
    i: int,
    best: int,
    table: Map<Key, i64>,
) -> (int, Map<Key, i64>)
    decreases depth, 1int, moves.len() - i,
{
    if depth == 0 || i < 0 || i >= moves.len() {
        (best, table)
    } else {
        let (reply, after) = average(
            s.after_move(moves[i]),
            -beta,
            -alpha,
            (depth - 1) as nat,
            table,
        );
        let better = larger(best, -reply);
        let raised = larger(alpha, better);
        if beta <= raised {
            (better, after)
        } else {
            best_reply(s, depth, raised, beta, moves, i + 1, better, after)
        }
    }
}

/// The scores of position `s` for the rolls from the `i`-th on, each
/// weighted by the number of ways it comes up, added to `sum`. Every roll is
/// searched with the same window.
pub open spec fn weighted_sum(
    s: Layout,
    alpha: int,
    beta: int,
    depth: nat,
    i: int,
    sum: int,
    table: Map<Key, i64>,
) -> (int, Map<Key, i64>)
    decreases depth, 3int, 21 - i,
{
    if i < 0 || i >= 21 {
        (sum, table)
    } else {
        let (v, after) = alpha_beta(s, depth, alpha, beta, nth_roll(i), table);
        weighted_sum(s, alpha, beta, depth, i + 1, sum + weight(nth_roll(i)) * v, after)
    }
}

/// What the mover of position `s` can expect before rolling: the scores for
/// the 21 rolls, weighted, over 36.
pub open spec fn average(s: Layout, alpha: int, beta: int, depth: nat, table: Map<Key, i64>) -> (
    int,
    Map<Key, i64>,
)
    decreases depth, 4int, 0int,
{
    let (sum, after) = weighted_sum(s, alpha, beta, depth, 0, 0, table);
    (over_36(sum), after)
}

/// What playing `steps` in position `s` is worth to the mover: what the
/// opponent can then expect, searched with an open window and an empty
/// table, negated.
pub open spec fn move_score(s: Layout, steps: Seq<Step>, depth: nat) -> int {
    -average(s.after_move(steps), -INFINITE, INFINITE as int, depth, Map::empty()).0
}

/// The index of the first largest of the first `n` scores.
pub open spec fn first_best(scores: Seq<int>, n: int) -> int
    decreases n,
{
    if n <= 1 {
        0
    } else {
        let before = first_best(scores, n - 1);
        if scores[n - 1] > scores[before] {
            n - 1
        } else {
            before
        }
    }
}

/// The first best index is an index, no score is above the score there and
/// no earlier score reaches it.
pub proof fn lemma_first_best(scores: Seq<int>, n: int)
    requires
        1 <= n <= scores.len(),
    ensures
        0 <= first_best(scores, n) < n,
        forall|i: int| 0 <= i < n ==> #[trigger] scores[i] <= scores[first_best(scores, n)],
        forall|i: int|
            0 <= i < first_best(scores, n) ==> #[trigger] scores[i] < scores[first_best(scores, n)],
    decreases n,
{
    if n > 1 {
        lemma_first_best(scores, n - 1);
    }
}

/// A number splits into a digit and the rest in one way.
proof fn lemma_split_digit(a: int, x: int, b: int, y: int, base: int)
    requires
        base > 0,
        0 <= a < base,
        0 <= b < base,
        a + base * x == b + base * y,
    ensures
        a == b,
        x == y,
{
    assert(a == b && x == y) by (nonlinear_arith)
        requires
            base > 0,
            0 <= a < base,
            0 <= b < base,
            a + base * x == b + base * y,
    ;
}

/// Well-formed rolls with the same code are the same roll.
proof fn lemma_roll_code_injective(r1: Roll, r2: Roll)
    requires
        r1.wf(),
        r2.wf(),
        roll_code(r1) == roll_code(r2),
    ensures
        r1 == r2,
{
    match (r1, r2) {
        (Roll::Double { value: v1, used: u1 }, Roll::Double { value: v2, used: u2 }) => {
            lemma_split_digit(u1, v1, u2, v2, 8);
        },
        (
            Roll::Single { first: f1, second: s1, first_used: a1, second_used: b1 },
            Roll::Single { first: f2, second: s2, first_used: a2, second_used: b2 },
        ) => {
            let low1 = s1 * 4 + (if a1 {
                2int
            } else {
                0int
            }) + (if b1 {
                1int
            } else {
                0int
            });
            let low2 = s2 * 4 + (if a2 {
                2int
            } else {
                0int
            }) + (if b2 {
                1int
            } else {
                0int
            });
            lemma_split_digit(low1, f1, low2, f2, 32);
            let flags1 = low1 - s1 * 4;
            let flags2 = low2 - s2 * 4;
            lemma_split_digit(flags1, s1, flags2, s2, 4);
        },
        _ => {},
    }
}

/// Different positions or rolls have different keys: a table never takes
/// one position with its roll for another.
pub proof fn lemma_key_injective(s1: Layout, r1: Roll, s2: Layout, r2: Roll)
    requires
        s1.bounded(),
        s2.bounded(),
        r1.wf(),
        r2.wf(),
        key_of(s1, r1) == key_of(s2, r2),
    ensures
        s1 == s2,
        r1 == r2,
{
    lemma_points_code_range(s1.points, 24);
    lemma_points_code_range(s2.points, 24);
    lemma_pow31(24);
    assert(points_code(s1.points, 24) == points_code(s2.points, 24));
    lemma_points_code_injective(s1.points, s2.points, 24);
    assert(s1.points =~= s2.points);
    let c1 = roll_code(r1);
    let c2 = roll_code(r2);
    assert(0 <= c1 < 320 && 0 <= c2 < 320);
    let m1 = if s1.white_to_move {
        0int
    } else {
        1int
    };
    let m2 = if s2.white_to_move {
        0int
    } else {
        1int
    };
    let x1 = s1.passive_bar + 16 * (s1.active_home + 16 * (s1.passive_home + 16 * (m1 + 2 * c1)));
    let x2 = s2.passive_bar + 16 * (s2.active_home + 16 * (s2.passive_home + 16 * (m2 + 2 * c2)));
    assert(rest_code(s1, r1) == s1.active_bar + 16 * x1);
    assert(rest_code(s2, r2) == s2.active_bar + 16 * x2);
    assert(0 <= rest_code(s1, r1) < 0x1_0000_0000 && 0 <= rest_code(s2, r2) < 0x1_0000_0000);
    lemma_split_digit(s1.active_bar, x1, s2.active_bar, x2, 16);
    let y1 = s1.active_home + 16 * (s1.passive_home + 16 * (m1 + 2 * c1));
    let y2 = s2.active_home + 16 * (s2.passive_home + 16 * (m2 + 2 * c2));
    lemma_split_digit(s1.passive_bar, y1, s2.passive_bar, y2, 16);
    let z1 = s1.passive_home + 16 * (m1 + 2 * c1);
    let z2 = s2.passive_home + 16 * (m2 + 2 * c2);
    lemma_split_digit(s1.active_home, z1, s2.active_home, z2, 16);
    lemma_split_digit(s1.passive_home, m1 + 2 * c1, s2.passive_home, m2 + 2 * c2, 16);
    lemma_split_digit(m1, c1, m2, c2, 2);
    lemma_roll_code_injective(r1, r2);
}

} // verus!
