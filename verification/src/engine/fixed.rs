use vstd::prelude::*;

verus! {

/// `r` is the square root of `x`, rounded down.
pub open spec fn is_root(r: int, x: int) -> bool {
    0 <= r && r * r <= x < (r + 1) * (r + 1)
}

/// Squares grow with their roots.
proof fn lemma_square_grows(a: int, b: int)
    requires
        0 <= a <= b,
    ensures
        a * a <= b * b,
{
    assert(a * a <= b * b) by (nonlinear_arith)
        requires
            0 <= a <= b,
    ;
}

/// A number has one square root rounded down.
pub proof fn lemma_root_unique(r: int, s: int, x: int)
    requires
        is_root(r, x),
        is_root(s, x),
    ensures
        r == s,
{
    if r < s {
        lemma_square_grows(r + 1, s);
    } else if s < r {
        lemma_square_grows(s + 1, r);
    }
}

/// The square root of `x`, rounded down.
pub fn isqrt(x: u64) -> (r: u64)
    ensures
        is_root(r as int, x as int),
        r <= 4294967295,
{
    let mut lo: u64 = 0;
    let mut hi: u64 = 4294967296;
    assert(4294967296int * 4294967296int > x);
    while hi - lo > 1
        invariant
            lo < hi <= 4294967296,
            lo * lo <= x,
            hi * hi > x,
        decreases hi - lo,
    {
        let mid = lo + (hi - lo) / 2;
        assert(mid * mid <= 4294967295 * 4294967295) by (nonlinear_arith)
            requires
                0 <= mid <= 4294967295,
        ;
        if mid * mid <= x {
            lo = mid;
        } else {
            hi = mid;
        }
    }
    lo
}

/// 2 to the power `k`.
pub open spec fn pow2(k: nat) -> int
    decreases k,
{
    if k == 0 {
        1
    } else {
        2 * pow2((k - 1) as nat)
    }
}

/// The exponent of the largest power of 2 that is at most `n`; 0 for 0.
pub open spec fn log2_floor(n: int) -> nat
    decreases n,
{
    if n <= 1 {
        0
    } else {
        1 + log2_floor(n / 2)
    }
}

/// The largest power of 2 up to `n` and its exponent.
pub fn ilog2(n: u32) -> (r: (u32, u32))
    ensures
        r.0 as nat == log2_floor(n as int),
        r.1 as int == pow2(r.0 as nat),
        r.0 <= 31,
        n >= 1 ==> r.1 <= n < 2 * r.1,
        n == 0 ==> r.1 == 1,
{
    let mut k: u32 = 0;
    let mut p: u32 = 1;
    let mut rest: u32 = n;
    while rest > 1
        invariant
            log2_floor(n as int) == k + log2_floor(rest as int),
            p as int == pow2(k as nat),
            n >= 1 ==> p * rest <= n < p * rest + p,
            n >= 1 ==> rest >= 1,
            n == 0 ==> rest == 0 && p == 1,
            k <= 31,
            p * rest <= u32::MAX,
        decreases rest,
    {
        assert(p * 2 * (rest / 2) <= p * rest) by (nonlinear_arith)
            requires
                p >= 0,
                rest >= 0,
                2 * (rest / 2) <= rest,
        ;
        assert(p * rest + p <= p * 2 * (rest / 2) + p * 2) by (nonlinear_arith)
            requires
                p >= 0,
                rest <= 2 * (rest / 2) + 1,
        ;
        assert(p * 2 <= p * rest) by (nonlinear_arith)
            requires
                p >= 0,
                rest >= 2,
        ;
        proof {
            if k >= 31 {
                lemma_pow2_31();
            }
        }
        p = p * 2;
        k = k + 1;
        rest = rest / 2;
    }
    (k, p)
}

/// 2 to the 31st is beyond what 31 bits hold.
proof fn lemma_pow2_31()
    ensures
        pow2(31) == 2147483648,
{
    reveal_with_fuel(pow2, 32);
}

/// The natural logarithm of `n`, counting 65536 to one: the logarithm to
/// base 2 taken straight between the powers of 2, times the logarithm of 2.
pub open spec fn ln_fixed(n: int) -> int {
    let k = log2_floor(n);
    let p = pow2(k);
    let part = if n >= 1 {
        (n - p) * 65536 / p
    } else {
        0
    };
    (k * 65536 + part) * 45426 / 65536
}

/// The natural logarithm of `n`, counting 65536 to one.
pub fn ln_of(n: u32) -> (v: u64)
    ensures
        v as int == ln_fixed(n as int),
        v <= 1453632,
{
    let (k, p) = ilog2(n);
    let part: u64 = if n >= 1 {
        (n - p) as u64 * 65536 / p as u64
    } else {
        0
    };
    assert(part <= 65536) by {
        if n >= 1 {
            assert((n - p) * 65536 / (p as int) <= 65536) by (nonlinear_arith)
                requires
                    0 <= n - p < p,
            ;
        }
    }
    (k as u64 * 65536 + part) * 45426 / 65536
}

/// The score by which a child of a decision node is selected, counting 65536
/// to one: its mean value so far, rounded towards zero, and a bonus for
/// having been visited little, the square root of twice the logarithm of the
/// parent's visits over the child's visits.
pub open spec fn ucb(total: int, visits: int, parent_visits: int, score: int) -> bool {
    let mean = if total >= 0 {
        total * 65536 / visits
    } else {
        -((-total) * 65536 / visits)
    };
    is_root(score - mean, 2 * ln_fixed(parent_visits) * 65536 / visits)
}

/// The score by which a child of a decision node is selected.
pub fn ucb_score(total: i64, visits: u32, parent_visits: u32) -> (score: i64)
    requires
        visits >= 1,
        -7500 * visits <= total <= 7500 * visits,
    ensures
        ucb(total as int, visits as int, parent_visits as int, score as int),
        -600000000 <= score <= 600000000,
{
    let n = visits as u64;
    assert(7500 * visits * 65536 / (visits as int) <= 7500 * 65536) by (nonlinear_arith)
        requires
            visits >= 1,
    ;
    let mean: i64 = if total >= 0 {
        assert(total * 65536 / (visits as int) <= 7500 * visits * 65536 / (visits as int))
            by (nonlinear_arith)
            requires
                0 <= total <= 7500 * visits,
                visits >= 1,
        ;
        ((total as u64 * 65536) / n) as i64
    } else {
        assert((-total) * 65536 / (visits as int) <= 7500 * visits * 65536 / (visits as int))
            by (nonlinear_arith)
            requires
                0 <= -total <= 7500 * visits,
                visits >= 1,
        ;
        -((((-total) as u64 * 65536) / n) as i64)
    };
    let ln = ln_of(parent_visits);
    let r = isqrt(2 * ln * 65536 / n);
    assert(r <= 440000) by {
        if r > 440000 {
            lemma_square_grows(440001, r as int);
        }
    }
    mean + r as i64
}

} // verus!
