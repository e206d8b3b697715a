use vstd::prelude::*;
use crate::rules::layout::Step;
use crate::rules::moves::{occurrences, same_steps};

verus! {

/// How many of the first `n` steps of `steps` satisfy `p`.
pub open spec fn count_if(steps: Seq<Step>, n: int, p: spec_fn(Step) -> bool) -> int
    decreases n,
{
    if n <= 0 {
        0
    } else {
        count_if(steps, n - 1, p) + if p(steps[n - 1]) {
            1int
        } else {
            0int
        }
    }
}

/// Counting depends on the steps counted alone.
pub proof fn lemma_count_prefix(a: Seq<Step>, b: Seq<Step>, n: int, p: spec_fn(Step) -> bool)
    requires
        forall|i: int| 0 <= i < n ==> a[i] == b[i],
    ensures
        count_if(a, n, p) == count_if(b, n, p),
        forall|st: Step| occurrences(a, st, n) == occurrences(b, st, n),
    decreases n,
{
    if n > 0 {
        lemma_count_prefix(a, b, n - 1, p);
    }
    assert forall|st: Step| occurrences(a, st, n) == occurrences(b, st, n) by {
        lemma_occurrences_prefix(a, b, st, n);
    }
}

/// Occurrences depend on the steps counted alone.
pub proof fn lemma_occurrences_prefix(a: Seq<Step>, b: Seq<Step>, st: Step, n: int)
    requires
        forall|i: int| 0 <= i < n ==> a[i] == b[i],
    ensures
        occurrences(a, st, n) == occurrences(b, st, n),
    decreases n,
{
    if n > 0 {
        lemma_occurrences_prefix(a, b, st, n - 1);
    }
}

/// Taking the step at `t` out takes one from its count and from no other.
pub proof fn lemma_remove(a: Seq<Step>, t: int, n: int, p: spec_fn(Step) -> bool, st: Step)
    requires
        0 <= t < a.len(),
        0 <= n <= a.len(),
    ensures
        n > t ==> count_if(a.remove(t), n - 1, p) == count_if(a, n, p) - (if p(a[t]) {
            1int
        } else {
            0int
        }),
        n > t ==> occurrences(a.remove(t), st, n - 1) == occurrences(a, st, n) - (if a[t] == st {
            1int
        } else {
            0int
        }),
        n <= t ==> count_if(a.remove(t), n, p) == count_if(a, n, p),
        n <= t ==> occurrences(a.remove(t), st, n) == occurrences(a, st, n),
    decreases n,
{
    let b = a.remove(t);
    if n <= t {
        lemma_count_prefix(b, a, n, p);
        lemma_occurrences_prefix(b, a, st, n);
    } else if n == t + 1 {
        lemma_remove(a, t, n - 1, p, st);
    } else {
        lemma_remove(a, t, n - 1, p, st);
        assert(b[n - 2] == a[n - 1]);
    }
}

/// A step that occurs stands somewhere.
pub proof fn lemma_occurs(a: Seq<Step>, st: Step, n: int) -> (t: int)
    requires
        0 <= n <= a.len(),
        occurrences(a, st, n) > 0,
    ensures
        0 <= t < n,
        a[t] == st,
    decreases n,
{
    if a[n - 1] == st {
        n - 1
    } else {
        lemma_occurs(a, st, n - 1)
    }
}

/// No step occurs a negative number of times, nor more often than there are
/// steps.
pub proof fn lemma_occurrences_range(a: Seq<Step>, st: Step, n: int)
    requires
        0 <= n,
    ensures
        0 <= occurrences(a, st, n) <= n,
    decreases n,
{
    if n > 0 {
        lemma_occurrences_range(a, st, n - 1);
    }
}

/// Sequences that hold the same steps are equally long and agree in every
/// count.
pub proof fn lemma_same_counts(a: Seq<Step>, b: Seq<Step>, p: spec_fn(Step) -> bool)
    requires
        same_steps(a, b),
    ensures
        a.len() == b.len(),
        count_if(a, a.len() as int, p) == count_if(b, b.len() as int, p),
    decreases a.len(),
{
    let n = a.len() as int;
    if n == 0 {
        if b.len() > 0 {
            let st = b[0];
            assert(occurrences(a, st, 0) == occurrences(b, st, b.len() as int));
            lemma_occurrences_range(b, st, 1);
            lemma_first_occurs(b, st, b.len() as int);
        }
    } else {
        let x = a[n - 1];
        let a1 = a.drop_last();
        lemma_occurrences_range(a, x, n - 1);
        assert(occurrences(a, x, n) == occurrences(b, x, b.len() as int));
        let t = lemma_occurs(b, x, b.len() as int);
        let b1 = b.remove(t);
        assert forall|st: Step| #[trigger]
            occurrences(a1, st, a1.len() as int) == occurrences(b1, st, b1.len() as int) by {
            lemma_occurrences_prefix(a1, a, st, n - 1);
            lemma_remove(b, t, b.len() as int, p, st);
            assert(occurrences(a, st, n) == occurrences(b, st, b.len() as int));
        }
        lemma_same_counts(a1, b1, p);
        lemma_count_prefix(a1, a, n - 1, p);
        lemma_remove(b, t, b.len() as int, p, x);
    }
}

/// A step that stands among the first `n` occurs.
pub proof fn lemma_first_occurs(a: Seq<Step>, st: Step, n: int)
    requires
        0 < n <= a.len(),
        a[0] == st,
    ensures
        occurrences(a, st, n) > 0,
    decreases n,
{
    if n > 1 {
        lemma_first_occurs(a, st, n - 1);
    }
    lemma_occurrences_range(a, st, n - 1);
}

} // verus!
