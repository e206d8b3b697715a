use vstd::prelude::*;

verus! {

/// Two dice and what is left of them. A double may be used four times, each
/// die of another roll once.
pub enum Roll {
    Double { value: int, used: int },
    Single { first: int, second: int, first_used: bool, second_used: bool },
}

impl Roll {
    /// Die values are 1..6, a double has been used at most four times and the
    /// two dice of a `Single` differ.
    pub open spec fn wf(self) -> bool {
        match self {
            Roll::Double { value, used } => 1 <= value <= 6 && 0 <= used <= 4,
            Roll::Single { first, second, .. } => 1 <= first <= 6 && 1 <= second <= 6 && first
                != second,
        }
    }

    /// The roll `a`, `b` with nothing used.
    pub open spec fn fresh(a: int, b: int) -> Roll {
        if a == b {
            Roll::Double { value: a, used: 0 }
        } else {
            Roll::Single { first: a, second: b, first_used: false, second_used: false }
        }
    }

    /// The die values that can still be played, first die first; a double
    /// gives its value once.
    pub open spec fn available(self) -> Seq<int> {
        match self {
            Roll::Double { value, used } => if used < 4 {
                seq![value]
            } else {
                Seq::empty()
            },
            Roll::Single { first, second, first_used, second_used } => {
                let a = if first_used {
                    Seq::empty()
                } else {
                    seq![first]
                };
                if second_used {
                    a
                } else {
                    a.push(second)
                }
            },
        }
    }

    /// How many more half-moves the roll allows at most.
    pub open spec fn uses_left(self) -> int {
        match self {
            Roll::Double { used, .. } => 4 - used,
            Roll::Single { first_used, second_used, .. } => (if first_used {
                0int
            } else {
                1int
            }) + (if second_used {
                0int
            } else {
                1int
            }),
        }
    }

    /// Nothing can be played any more.
    pub open spec fn all_used(self) -> bool {
        self.available().len() == 0
    }

    /// The roll with one use of the die value `v` consumed.
    pub open spec fn spend(self, v: int) -> Roll {
        match self {
            Roll::Double { value, used } => Roll::Double { value, used: used + 1 },
            Roll::Single { first, second, first_used, second_used } => if v == first {
                Roll::Single { first, second, first_used: true, second_used }
            } else {
                Roll::Single { first, second, first_used, second_used: true }
            },
        }
    }
}

/// Spending an available die keeps the roll well formed and takes one use.
pub proof fn lemma_spend(r: Roll, v: int)
    requires
        r.wf(),
        r.available().contains(v),
    ensures
        r.spend(v).wf(),
        r.spend(v).uses_left() == r.uses_left() - 1,
        1 <= v <= 6,
{
    let a = r.available();
    let i = choose|i: int| 0 <= i < a.len() && a[i] == v;
    assert(a[i] == v);
}

/// A well-formed roll offers at most two values, each 1..6, and none exactly
/// when it has no use left.
pub proof fn lemma_available(r: Roll)
    requires
        r.wf(),
    ensures
        r.available().len() <= 2,
        0 <= r.uses_left() <= 4,
        r.all_used() <==> r.uses_left() == 0,
        forall|i: int| 0 <= i < r.available().len() ==> 1 <= #[trigger] r.available()[i] <= 6,
        forall|i: int| 0 <= i < r.available().len() ==> r.available().contains(#[trigger] r.available()[i]),
{
}

/// The `i`-th of the 21 rolls that differ as pairs: (1,1), (1,2), .. (1,6),
/// (2,2), .. (5,6), (6,6).
pub open spec fn nth_roll(i: int) -> Roll {
    if i < 6 {
        Roll::fresh(1, 1 + i)
    } else if i < 11 {
        Roll::fresh(2, i - 4)
    } else if i < 15 {
        Roll::fresh(3, i - 8)
    } else if i < 18 {
        Roll::fresh(4, i - 11)
    } else if i < 20 {
        Roll::fresh(5, i - 13)
    } else {
        Roll::fresh(6, 6)
    }
}

/// The 21 rolls that differ as pairs, each fresh.
pub open spec fn all_rolls() -> Seq<Roll> {
    Seq::new(21, |i: int| nth_roll(i))
}

/// In how many of the 36 outcomes of two dice the roll comes up: a double in
/// one, any other pair in two.
pub open spec fn weight(r: Roll) -> int {
    if r is Double {
        1
    } else {
        2
    }
}

/// The weights of the first `n` of the 21 rolls together.
pub open spec fn weight_upto(n: int) -> int
    decreases n,
{
    if n <= 0 {
        0
    } else {
        weight_upto(n - 1) + weight(nth_roll(n - 1))
    }
}

/// The 21 rolls are well formed and fresh, no two are the same pair, and
/// their weights add up to the 36 outcomes of two dice.
pub proof fn lemma_all_rolls()
    ensures
        all_rolls().len() == 21,
        forall|i: int| 0 <= i < 21 ==> (#[trigger] all_rolls()[i]).wf(),
        forall|i: int, j: int| 0 <= i < j < 21 ==> all_rolls()[i] != all_rolls()[j],
        forall|a: int, b: int|
            1 <= a <= b <= 6 ==> exists|i: int|
                0 <= i < 21 && all_rolls()[i] == #[trigger] Roll::fresh(a, b),
        weight_upto(21) == 36,
{
    reveal_with_fuel(weight_upto, 22);
    assert forall|a: int, b: int| 1 <= a <= b <= 6 implies exists|i: int|
        0 <= i < 21 && all_rolls()[i] == #[trigger] Roll::fresh(a, b) by {
        let i = if a == 1 {
            b - 1
        } else if a == 2 {
            b + 4
        } else if a == 3 {
            b + 8
        } else if a == 4 {
            b + 11
        } else if a == 5 {
            b + 13
        } else {
            20
        };
        assert(all_rolls()[i] == Roll::fresh(a, b));
    }
}

} // verus!
