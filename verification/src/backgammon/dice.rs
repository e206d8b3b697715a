use vstd::prelude::*;
use crate::misc::chance::random_in;
use crate::misc::TinyVec;
use crate::rules::roll::{all_rolls, Roll};

verus! {

/// Two dice and their usage in one byte, laid out `ABCCCDDD`.
///
/// `DDD` is the first die and `CCC` the second. For a double, `AB` counts the
/// uses, and after the fourth use `ABCCC` is all ones. Otherwise `A` is set
/// once the first die is used and `B` once the second is.
#[derive(Debug, Clone, Copy, PartialEq, Eq, Structural)]
pub struct Dice {
    data: u8,
}

/// How the masks and shifts on the packed byte read as arithmetic.
proof fn lemma_fields(x: u8)
    by (bit_vector)
    ensures
        x & 0x7 == x % 8,
        (x >> 3u8) & 0x7 == (x / 8) % 8,
        (x & 0b11111000 == 0b11111000) == (x >= 248),
        (x & 0b10000000 == 0b10000000) == (x >= 128),
        (x & 0b01000000 == 0b01000000) == ((x / 64) % 2 == 1),
        x & 0b11000000 == (x / 64) * 64,
        (x & 0b11000000 == 0b11000000) == (x >= 192),
{
}

/// How setting the usage bits of the packed byte reads as arithmetic.
proof fn lemma_marks(x: u8)
    by (bit_vector)
    ensures
        x | 0b10000000 == (if x >= 128 {
            x
        } else {
            (x + 128) as u8
        }),
        x | 0b01000000 == (if (x / 64) % 2 == 1 {
            x
        } else {
            (x + 64) as u8
        }),
        x | 0b11111000 == 248 + x % 8,
        x < 192 ==> (x & 0b00111111) | ((((x & 0b11000000) >> 6u8) + 1) as u8) << 6u8 == x + 64,
        x < 192 ==> ((x & 0b11000000) >> 6u8) + 1 < 256,
{
}

/// How two die values pack into the low six bits.
proof fn lemma_pack(die1: u8, die2: u8)
    by (bit_vector)
    requires
        die1 < 8,
        die2 < 8,
    ensures
        (die2 << 3u8) | die1 == die2 * 8 + die1,
{
}

impl View for Dice {
    type V = Roll;

    closed spec fn view(&self) -> Roll {
        let first = self.data % 8;
        let second = (self.data / 8) % 8;
        if self.data >= 248 {
            Roll::Double { value: first as int, used: 4 }
        } else if first == second {
            Roll::Double { value: first as int, used: self.data as int / 64 }
        } else {
            Roll::Single {
                first: first as int,
                second: second as int,
                first_used: self.data >= 128,
                second_used: (self.data / 64) % 2 == 1,
            }
        }
    }
}

impl Dice {
    #[verifier::type_invariant]
    closed spec fn inv(&self) -> bool {
        &&& 1 <= self.data % 8 <= 6
        &&& self.data >= 248 || 1 <= (self.data / 8) % 8 <= 6
    }

    /// A roll of two dice, each drawn from 1..6.
    pub fn roll() -> (dice: Self)
        ensures
            exists|a: int, b: int| 1 <= a <= 6 && 1 <= b <= 6 && dice@ == Roll::fresh(a, b),
    {
        let die1 = random_in(1, 6) as u8;
        let die2 = random_in(1, 6) as u8;
        Dice::from_numbers(die1, die2)
    }

    /// The 21 rolls that differ as pairs, from (1,1) to (6,6), each fresh.
    pub fn all() -> (all: [Dice; 21])
        ensures
            all@.map_values(|d: Dice| d@) == all_rolls(),
    {
        let all = [
            Dice::from_numbers(1, 1),
            Dice::from_numbers(1, 2),
            Dice::from_numbers(1, 3),
            Dice::from_numbers(1, 4),
            Dice::from_numbers(1, 5),
            Dice::from_numbers(1, 6),
            Dice::from_numbers(2, 2),
            Dice::from_numbers(2, 3),
            Dice::from_numbers(2, 4),
            Dice::from_numbers(2, 5),
            Dice::from_numbers(2, 6),
            Dice::from_numbers(3, 3),
            Dice::from_numbers(3, 4),
            Dice::from_numbers(3, 5),
            Dice::from_numbers(3, 6),
            Dice::from_numbers(4, 4),
            Dice::from_numbers(4, 5),
            Dice::from_numbers(4, 6),
            Dice::from_numbers(5, 5),
            Dice::from_numbers(5, 6),
            Dice::from_numbers(6, 6),
        ];
        assert(all@.map_values(|d: Dice| d@) =~= all_rolls());
        all
    }

    /// The dice after one use of the value `die`.
    pub fn use_die(&self, die: u8) -> (dice: Self)
        requires
            self@.available().contains(die as int),
        ensures
            dice@ == self@.spend(die as int),
            dice@.wf(),
    {
        let mut dice = *self;
        proof {
            use_type_invariant(self);
            let a = self@.available();
            let i = choose|i: int| 0 <= i < a.len() && a[i] == die as int;
            assert(a[i] == die as int);
        }
        if die == dice.die1() {
            if dice.is_double() {
                dice.use_double();
            } else {
                dice.use_die1();
            }
        } else {
            dice.use_die2();
        }
        dice
    }

    /// The fresh roll `die1`, `die2`.
    pub fn from_numbers(die1: u8, die2: u8) -> (dice: Self)
        requires
            1 <= die1 <= 6,
            1 <= die2 <= 6,
        ensures
            dice@ == Roll::fresh(die1 as int, die2 as int),
            dice@.wf(),
    {
        proof {
            lemma_pack(die1, die2);
        }
        Dice { data: (die2 << 3u8) | die1 }
    }

    /// Whether the first die can no longer be played.
    pub fn die1_is_used(&self) -> (used: bool)
        ensures
            used == match self@ {
                Roll::Double { used: n, .. } => n == 4,
                Roll::Single { first_used, .. } => first_used,
            },
    {
        (self.is_double() && self.die_is_used_double()) || (!self.is_double()
            && self.die_1_is_used_non_double())
    }

    /// Whether the second die can no longer be played.
    pub fn die2_is_used(&self) -> (used: bool)
        ensures
            used == match self@ {
                Roll::Double { used: n, .. } => n == 4,
                Roll::Single { second_used, .. } => second_used,
            },
    {
        (self.is_double() && self.die_is_used_double()) || (!self.is_double()
            && self.die_2_is_used_non_double())
    }

    /// The usage bit `A`: for dice that are no double, whether the first die
    /// is used; for a double, whether it has been used at least twice.
    pub fn die_1_is_used_non_double(&self) -> (used: bool)
        ensures
            used == match self@ {
                Roll::Double { used: n, .. } => n >= 2,
                Roll::Single { first_used, .. } => first_used,
            },
    {
        proof {
            use_type_invariant(self);
            lemma_fields(self.data);
        }
        self.data & 0b10000000 == 0b10000000
    }

    /// The usage bit `B`: for dice that are no double, whether the second die
    /// is used; for a double, whether it has been used once or at least three
    /// times.
    pub fn die_2_is_used_non_double(&self) -> (used: bool)
        ensures
            used == match self@ {
                Roll::Double { used: n, .. } => n == 1 || n >= 3,
                Roll::Single { second_used, .. } => second_used,
            },
    {
        proof {
            use_type_invariant(self);
            lemma_fields(self.data);
        }
        self.data & 0b01000000 == 0b01000000
    }

    /// Whether this is a double that has been used four times.
    pub fn die_is_used_double(&self) -> (used: bool)
        ensures
            used == (self@ matches Roll::Double { used: n, .. } && n == 4),
    {
        proof {
            use_type_invariant(self);
            lemma_fields(self.data);
        }
        self.data & 0b11111000 == 0b11111000
    }

    /// Marks the first die of dice that are no double as used.
    pub fn use_die1(&mut self)
        requires
            old(self)@ is Single,
        ensures
            final(self)@ == (Roll::Single {
                first: old(self)@->first,
                second: old(self)@->second,
                first_used: true,
                second_used: old(self)@->second_used,
            }),
    {
        proof {
            use_type_invariant(&*self);
            lemma_marks(self.data);
        }
        self.data = self.data | 0b10000000;
    }

    /// Whether no die can be played any more.
    pub fn all_used(&self) -> (used: bool)
        ensures
            used == self@.all_used(),
            self@.wf(),
    {
        proof {
            use_type_invariant(self);
        }
        (self.is_double() && self.die_is_used_double()) || (!self.is_double()
            && self.die_1_is_used_non_double() && self.die_2_is_used_non_double())
    }

    /// Marks the second die of dice that are no double as used.
    pub fn use_die2(&mut self)
        requires
            old(self)@ is Single,
        ensures
            final(self)@ == (Roll::Single {
                first: old(self)@->first,
                second: old(self)@->second,
                first_used: old(self)@->first_used,
                second_used: true,
            }),
    {
        proof {
            use_type_invariant(&*self);
            lemma_marks(self.data);
        }
        self.data = self.data | 0b01000000;
    }

    /// Counts one more use of a double, up to four.
    pub fn use_double(&mut self)
        requires
            old(self)@ is Double,
        ensures
            final(self)@ == (Roll::Double {
                value: old(self)@->value,
                used: if old(self)@->used < 4 {
                    old(self)@->used + 1
                } else {
                    4
                },
            }),
    {
        proof {
            use_type_invariant(&*self);
            lemma_marks(self.data);
            lemma_fields(self.data);
        }
        let current = self.data & 0b11000000;
        if current == 0b11000000 {
            self.data = self.data | 0b11111000;
        } else {
            self.data = (self.data & 0b00111111) | ((current >> 6u8) + 1) << 6u8;
        }
    }

    /// The second die. A double that has been used four times answers 7.
    pub fn die2(&self) -> (die: u8)
        ensures
            die as int == match self@ {
                Roll::Double { value, used } => if used == 4 {
                    7
                } else {
                    value
                },
                Roll::Single { second, .. } => second,
            },
    {
        proof {
            use_type_invariant(self);
            lemma_fields(self.data);
        }
        (self.data >> 3u8) & 0x7
    }

    /// The first die.
    pub fn die1(&self) -> (die: u8)
        ensures
            1 <= die <= 6,
            die as int == match self@ {
                Roll::Double { value, .. } => value,
                Roll::Single { first, .. } => first,
            },
    {
        proof {
            use_type_invariant(self);
            lemma_fields(self.data);
        }
        self.data & 0x7
    }

    /// Whether both dice show the same value.
    pub fn is_double(&self) -> (double: bool)
        ensures
            double == (self@ is Double),
    {
        proof {
            use_type_invariant(self);
            lemma_fields(self.data);
        }
        self.die1() == self.die2() || self.data & 0b11111000 == 0b11111000
    }

    /// The die values that can still be played: none, one or two.
    pub fn availiable_dice(&self) -> (dice: TinyVec<u8, 2>)
        ensures
            dice@.map_values(|d: u8| d as int) == self@.available(),
            self@.wf(),
    {
        proof {
            use_type_invariant(self);
        }
        if self.is_double() {
            if self.die_is_used_double() {
                let vec = TinyVec::new();
                assert(vec@.map_values(|d: u8| d as int) =~= self@.available());
                vec
            } else {
                let mut vec = TinyVec::new();
                vec.push(self.die1());
                assert(vec@.map_values(|d: u8| d as int) =~= self@.available());
                vec
            }
        } else {
            let mut vec = TinyVec::new();
            if !self.die_1_is_used_non_double() {
                vec.push(self.die1());
            }
            if !self.die_2_is_used_non_double() {
                vec.push(self.die2());
            }
            assert(vec@.map_values(|d: u8| d as int) =~= self@.available());
            vec
        }
    }
}

} // verus!
