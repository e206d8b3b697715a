use backgammon::backgammon::Dice;
use backgammon::game;

#[test]
fn test_dice() {
    for i in 1..=6 {
        for j in 1..=6 {
            let mut dice = Dice::from_numbers(i, j);
            assert_eq!(dice.die1(), i);
            assert_eq!(dice.die2(), j);
            if i == j {
                assert!(dice.is_double());
                let mut count = 0;
                while !dice.die1_is_used() {
                    count += 1;
                    dice.use_double();
                    assert!(dice.is_double());
                }
                assert!(dice.die1_is_used());
                assert!(dice.die2_is_used());
                assert_eq!(count, 4);
                assert!(dice.is_double());
            } else {
                assert!(!dice.is_double());
                assert!(!dice.die1_is_used());
                assert!(!dice.die2_is_used());
                dice.use_die1();
                assert!(!dice.is_double());
                assert!(dice.die1_is_used());
                assert!(!dice.die2_is_used());
                dice.use_die2();
                assert!(dice.die2_is_used());
                assert!(dice.die1_is_used());
                assert!(!dice.is_double())
            }
        }
    }
}

#[test]
fn test_dice_roll() {
    for _ in 1..=100 {
        let dice = Dice::roll();
        assert!(dice.die1() >= 1 && dice.die1() <= 6);
        assert!(dice.die2() >= 1 && dice.die2() <= 6);
        if dice.is_double() {
            assert_eq!(dice.die1(), dice.die2());
        } else {
            assert_ne!(dice.die1(), dice.die2());
        }
    }
}

fn values(dice: &Dice) -> Vec<u8> {
    let available = dice.availiable_dice();
    let mut out = Vec::new();
    let mut i = 0;
    while let Some(v) = available.get(i) {
        out.push(*v);
        i += 1;
    }
    out
}

#[test]
fn fresh_dice_offer_both_values_in_order() {
    assert_eq!(values(&Dice::from_numbers(3, 5)), vec![3, 5]);
    assert_eq!(values(&Dice::from_numbers(6, 1)), vec![6, 1]);
    assert!(!Dice::from_numbers(3, 5).all_used());
}

#[test]
fn fresh_double_offers_its_value_once() {
    assert_eq!(values(&Dice::from_numbers(4, 4)), vec![4]);
}

#[test]
fn use_die_consumes_the_named_value() {
    let dice = Dice::from_numbers(3, 5);
    let after = dice.use_die(5);
    assert_eq!(values(&after), vec![3]);
    assert!(after.die2_is_used());
    assert!(!after.die1_is_used());
    let after = dice.use_die(3);
    assert_eq!(values(&after), vec![5]);
    let none = after.use_die(5);
    assert_eq!(values(&none), Vec::<u8>::new());
    assert!(none.all_used());
}

#[test]
fn double_lasts_four_uses() {
    let mut dice = Dice::from_numbers(2, 2);
    for used in 0..4 {
        assert_eq!(values(&dice), vec![2], "after {} uses", used);
        assert!(!dice.all_used());
        dice = dice.use_die(2);
    }
    assert!(dice.all_used());
    assert!(dice.die_is_used_double());
    assert_eq!(values(&dice), Vec::<u8>::new());
    assert_eq!(dice.die1(), 2);
    assert_eq!(dice.die2(), 7);
}

#[test]
fn usage_bits_of_a_double_count_in_binary() {
    let mut dice = Dice::from_numbers(5, 5);
    assert!(!dice.die_1_is_used_non_double() && !dice.die_2_is_used_non_double());
    dice.use_double();
    assert!(!dice.die_1_is_used_non_double() && dice.die_2_is_used_non_double());
    dice.use_double();
    assert!(dice.die_1_is_used_non_double() && !dice.die_2_is_used_non_double());
    dice.use_double();
    assert!(dice.die_1_is_used_non_double() && dice.die_2_is_used_non_double());
    assert!(!dice.die_is_used_double());
    dice.use_double();
    assert!(dice.die_is_used_double());
    dice.use_double();
    assert!(dice.die_is_used_double());
    assert_eq!(dice.die1(), 5);
}

fn plain_values(dice: &game::Dice) -> Vec<u8> {
    dice.get_unique_value().iter()
}

#[test]
fn plain_dice_new_tells_doubles_apart() {
    assert_eq!(game::Dice::new(4, 4), game::Dice::Double { value: 4, used: 0 });
    assert_eq!(
        game::Dice::new(2, 6),
        game::Dice::Single { value_1: 2, value_2: 6, used: game::DiceUsage::BothAvailable }
    );
}

#[test]
fn plain_dice_use_die_steps_through_usage() {
    let dice = game::Dice::new(2, 6);
    assert_eq!(plain_values(&dice), vec![2, 6]);
    let a = dice.use_die(2);
    assert_eq!(
        a,
        game::Dice::Single { value_1: 2, value_2: 6, used: game::DiceUsage::OnlySecondAvailable }
    );
    assert_eq!(plain_values(&a), vec![6]);
    let b = dice.use_die(6);
    assert_eq!(
        b,
        game::Dice::Single { value_1: 2, value_2: 6, used: game::DiceUsage::OnlyFirstAvailable }
    );
    assert_eq!(plain_values(&b), vec![2]);
    let c = a.use_die(6);
    assert_eq!(c, game::Dice::Single { value_1: 2, value_2: 6, used: game::DiceUsage::BothUsed });
    assert!(c.is_used());
    assert_eq!(b.use_die(2), c);
}

#[test]
fn plain_double_counts_uses() {
    let mut dice = game::Dice::new(3, 3);
    for used in 0..4u8 {
        assert_eq!(dice, game::Dice::Double { value: 3, used });
        assert!(!dice.is_used());
        assert_eq!(plain_values(&dice), vec![3]);
        dice = dice.use_die(3);
    }
    assert!(dice.is_used());
    assert_eq!(plain_values(&dice), Vec::<u8>::new());
}

#[test]
fn plain_dice_roll_is_in_range() {
    for _ in 0..200 {
        match game::Dice::roll() {
            game::Dice::Double { value, used } => {
                assert!((1..=6).contains(&value));
                assert_eq!(used, 0);
            }
            game::Dice::Single { value_1, value_2, used } => {
                assert!((1..=6).contains(&value_1));
                assert!((1..=6).contains(&value_2));
                assert_ne!(value_1, value_2);
                assert_eq!(used, game::DiceUsage::BothAvailable);
            }
        }
    }
}

#[test]
fn all_has_21_entries_and_weights_sum_to_36() {
    let all = game::Dice::all();
    assert_eq!(all.len(), 21);
    let total: u32 = all.iter().map(|d| d.weight() as u32).sum();
    assert_eq!(total, 36);
    assert_eq!(all[0], game::Dice::new(1, 1));
    assert_eq!(all[5], game::Dice::new(1, 6));
    assert_eq!(all[6], game::Dice::new(2, 2));
    assert_eq!(all[19], game::Dice::new(5, 6));
    assert_eq!(all[20], game::Dice::new(6, 6));
    for (i, a) in all.iter().enumerate() {
        for b in all.iter().skip(i + 1) {
            assert_ne!(a, b);
        }
    }
    assert_eq!(game::Dice::new(2, 2).weight(), 1);
    assert_eq!(game::Dice::new(2, 5).weight(), 2);
}

#[test]
fn probabilities_sum_to_one() {
    let all = game::Dice::all();
    let total: f64 = all.iter().map(|d| d.weight() as f64 / 36.0).sum();
    assert!((total - 1.0).abs() < 0.001);
}

#[test]
fn packed_all_has_21_entries() {
    let all = Dice::all();
    assert_eq!(all.len(), 21);
    assert_eq!(all[0], Dice::from_numbers(1, 1));
    assert_eq!(all[19], Dice::from_numbers(5, 6));
    assert_eq!(all[20], Dice::from_numbers(6, 6));
    let doubles = all.iter().filter(|d| d.is_double()).count();
    assert_eq!(doubles, 6);
    for (i, a) in all.iter().enumerate() {
        assert!(!a.all_used());
        for b in all.iter().skip(i + 1) {
            assert_ne!(a, b);
        }
    }
}

#[test]
fn rolls_vary() {
    let first = Dice::roll();
    assert!((0..500).any(|_| Dice::roll() != first));
    let plain = game::Dice::roll();
    assert!((0..500).any(|_| game::Dice::roll() != plain));
    let mut seen = [false; 7];
    for _ in 0..2000 {
        seen[Dice::roll().die1() as usize] = true;
    }
    assert_eq!(seen, [false, true, true, true, true, true, true]);
}
