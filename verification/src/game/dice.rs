use vstd::prelude::*;
use crate::game::TinyVector;
use crate::misc::chance::random_in;
use crate::rules::roll::{all_rolls, weight, Roll};

verus! {

/// Which dice of a roll that is no double can still be played.
#[derive(Debug, Clone, Copy, PartialEq, Eq, Hash, Structural)]
pub enum DiceUsage {
    BothAvailable,
    OnlyFirstAvailable,
    OnlySecondAvailable,
    BothUsed,
}

/// Two dice and their usage. A double counts its uses up to four.
#[derive(Debug, Clone, Copy, PartialEq, Eq, Hash, Structural)]
#[allow(inconsistent_fields)]
pub enum Dice {
    Double { value: u8, used: u8 },
    Single { value_1: u8, value_2: u8, used: DiceUsage },
}

impl View for Dice {
    type V = Roll;

    open spec fn view(&self) -> Roll {
        match *self {
            Dice::Double { value, used } => Roll::Double { value: value as int, used: used as int },
            Dice::Single { value_1, value_2, used } => Roll::Single {
                first: value_1 as int,
                second: value_2 as int,
                first_used: used == DiceUsage::OnlySecondAvailable || used == DiceUsage::BothUsed,
                second_used: used == DiceUsage::OnlyFirstAvailable || used == DiceUsage::BothUsed,
            },
        }
    }
}

impl Dice {
    /// Die values are 1..6, a double has been used at most four times and
    /// the two values of a `Single` differ.
    pub open spec fn wf(&self) -> bool {
        self@.wf()
    }

    /// Whether the dice are well formed.
    pub fn is_valid(&self) -> (valid: bool)
        ensures
            valid == self.wf(),
    {
        match *self {
            Dice::Double { value, used } => 1 <= value && value <= 6 && used <= 4,
            Dice::Single { value_1, value_2, .. } => 1 <= value_1 && value_1 <= 6 && 1 <= value_2
                && value_2 <= 6 && value_1 != value_2,
        }
    }

    /// The fresh roll `a`, `b`.
    pub fn new(a: u8, b: u8) -> (dice: Dice)
        ensures
            dice@ == Roll::fresh(a as int, b as int),
            1 <= a <= 6 && 1 <= b <= 6 ==> dice.wf(),
    {
        if a == b {
            Dice::Double { value: a, used: 0 }
        } else {
            Dice::Single { value_1: a, value_2: b, used: DiceUsage::BothAvailable }
        }
    }

    /// A roll of two dice, each drawn from 1..6.
    pub fn roll() -> (dice: Dice)
        ensures
            dice.wf(),
            exists|a: int, b: int| 1 <= a <= 6 && 1 <= b <= 6 && dice@ == Roll::fresh(a, b),
    {
        let a = random_in(1, 6) as u8;
        let b = random_in(1, 6) as u8;
        Dice::new(a, b)
    }

    /// Whether no die can be played any more.
    pub fn is_used(&self) -> (used: bool)
        ensures
            used == self@.all_used(),
    {
        match self {
            Dice::Double { used, .. } => *used >= 4,
            Dice::Single { used, .. } => *used == DiceUsage::BothUsed,
        }
    }

    /// The die values that can still be played: none, one or two.
    pub fn get_unique_value(&self) -> (values: TinyVector<u8, 2>)
        ensures
            values@.map_values(|d: u8| d as int) == self@.available(),
    {
        let mut values: TinyVector<u8, 2> = TinyVector::new();
        match *self {
            Dice::Double { value, used } => {
                if used < 4 {
                    values.push(value);
                }
            },
            Dice::Single { value_1, value_2, used } => match used {
                DiceUsage::BothAvailable => {
                    values.push(value_1);
                    values.push(value_2);
                },
                DiceUsage::OnlyFirstAvailable => {
                    values.push(value_1);
                },
                DiceUsage::OnlySecondAvailable => {
                    values.push(value_2);
                },
                DiceUsage::BothUsed => {},
            },
        }
        assert(values@.map_values(|d: u8| d as int) =~= self@.available());
        values
    }

    /// The dice after one use of the value `die`.
    pub fn use_die(&self, die: u8) -> (dice: Dice)
        requires
            self.wf(),
            self@.available().contains(die as int),
        ensures
            dice@ == self@.spend(die as int),
            dice.wf(),
    {
        proof {
            let a = self@.available();
            let i = choose|i: int| 0 <= i < a.len() && a[i] == die as int;
            assert(a[i] == die as int);
        }
        match *self {
            Dice::Double { value, used } => Dice::Double { value, used: used + 1 },
            Dice::Single { value_1, value_2, used } => {
                if value_1 == die {
                    let used = match used {
                        DiceUsage::BothAvailable => DiceUsage::OnlySecondAvailable,
                        _ => DiceUsage::BothUsed,
                    };
                    Dice::Single { value_1, value_2, used }
                } else {
                    let used = match used {
                        DiceUsage::BothAvailable => DiceUsage::OnlyFirstAvailable,
                        _ => DiceUsage::BothUsed,
                    };
                    Dice::Single { value_1, value_2, used }
                }
            },
        }
    }

    /// In how many of the 36 outcomes of two dice this roll comes up.
    pub fn weight(&self) -> (w: u8)
        ensures
            w as int == weight(self@),
    {
        match self {
            Dice::Double { .. } => 1,
            Dice::Single { .. } => 2,
        }
    }

    /// The 21 rolls that differ as pairs, from (1,1) to (6,6), each fresh.
    pub fn all() -> (all: [Dice; 21])
        ensures
            all@.map_values(|d: Dice| d@) == all_rolls(),
            forall|i: int| 0 <= i < 21 ==> (#[trigger] all@[i]).wf(),
    {
        let all = [
            Dice::new(1, 1),
            Dice::new(1, 2),
            Dice::new(1, 3),
            Dice::new(1, 4),
            Dice::new(1, 5),
            Dice::new(1, 6),
            Dice::new(2, 2),
            Dice::new(2, 3),
            Dice::new(2, 4),
            Dice::new(2, 5),
            Dice::new(2, 6),
            Dice::new(3, 3),
            Dice::new(3, 4),
            Dice::new(3, 5),
            Dice::new(3, 6),
            Dice::new(4, 4),
            Dice::new(4, 5),
            Dice::new(4, 6),
            Dice::new(5, 5),
            Dice::new(5, 6),
            Dice::new(6, 6),
        ];
        assert(all@.map_values(|d: Dice| d@) =~= all_rolls());
        all
    }
}

} // verus!
