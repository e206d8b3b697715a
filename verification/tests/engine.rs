use backgammon::engine::{
    alpha_beta, average_eval, find_best_move, new_table, pick_best, score_move, search_eval,
};
use backgammon::game::{Board, Dice, Player};

#[test]
fn pick_best_takes_the_first_of_equal_maxima() {
    assert_eq!(pick_best(&vec![3]), 0);
    assert_eq!(pick_best(&vec![1, 5, 2, 5, 4]), 1);
    assert_eq!(pick_best(&vec![-7, -7, -9]), 0);
    assert_eq!(pick_best(&vec![1, 2, 3]), 2);
}

#[test]
fn search_at_depth_zero_is_the_scaled_evaluation() {
    assert_eq!(search_eval(&Board::new(), 0), 0);
    assert_eq!(search_eval(&Board::bench(), 0), -70 * 65536);
    let mut other = Board::bench();
    other.switch_player();
    assert_eq!(search_eval(&other, 0), 70 * 65536);
    let mut table = new_table();
    assert_eq!(alpha_beta(&Board::bench(), 0, -1000, 1000, Dice::new(1, 2), &mut table), -70 * 65536);
}

#[test]
fn score_of_a_move_at_depth_zero_is_the_evaluation_after_it() {
    let board = Board::bench();
    let moves = board.generage_moves(Dice::new(1, 4));
    for m in moves {
        let mut after = board;
        after.make_move_unchecked(m);
        assert_eq!(score_move(&board, m, 0), -(after.eval() as i64) * 65536);
    }
}

#[test]
fn expectimax_determinism() {
    let board = Board::bench();
    let dice = Dice::new(1, 4);
    let first = find_best_move(&board, dice, 1);
    let second = find_best_move(&board, dice, 1);
    assert_eq!(first.get_half_moves(), second.get_half_moves());
}

#[test]
fn best_move_has_the_best_score_and_is_the_first_such() {
    let board = Board::bench();
    let dice = Dice::new(6, 3);
    let moves = board.generage_moves(dice);
    let scores: Vec<i64> = moves.iter().map(|m| score_move(&board, *m, 1)).collect();
    let best = find_best_move(&board, dice, 1);
    let index = moves.iter().position(|m| m.get_half_moves() == best.get_half_moves()).unwrap();
    assert_eq!(index, pick_best(&scores));
    assert!(scores.iter().all(|s| *s <= scores[index]));
    assert!(scores[..index].iter().all(|s| *s < scores[index]));
}

#[test]
fn average_is_the_weighted_mean_over_the_rolls() {
    let board = Board::bench();
    let mut sum: i64 = 0;
    for dice in Dice::all() {
        let mut table = new_table();
        let v = alpha_beta(&board, 1, -1_000_000_000_000, 1_000_000_000_000, dice, &mut table);
        sum += v * dice.weight() as i64;
    }
    let expected = if sum >= 0 { sum / 36 } else { -((-sum) / 36) };
    assert_eq!(search_eval(&board, 1), expected);
}

#[test]
fn alpha_beta_at_depth_one_is_the_best_reply() {
    let board = Board::new();
    let dice = Dice::new(3, 1);
    let mut best = i64::MIN;
    for m in board.generage_moves(dice) {
        let mut after = board;
        after.make_move_unchecked(m);
        best = best.max(-(after.eval() as i64) * 65536);
    }
    let mut table = new_table();
    let v = alpha_beta(&board, 1, -1_000_000_000_000, 1_000_000_000_000, dice, &mut table);
    assert_eq!(v, best);
}

#[test]
fn a_score_in_the_table_is_returned_as_it_is() {
    let board = Board::bench();
    let dice = Dice::new(5, 2);
    let wide = 1_000_000_000_000;
    let mut table = new_table();
    let shallow = alpha_beta(&board, 1, -wide, wide, dice, &mut table);
    let again = alpha_beta(&board, 2, -wide, wide, dice, &mut table);
    assert_eq!(again, shallow);
    let mut fresh = new_table();
    let deep = alpha_beta(&board, 2, -wide, wide, dice, &mut fresh);
    assert_ne!(deep, shallow);
    let other = alpha_beta(&board, 1, -wide, wide, Dice::new(5, 1), &mut table);
    let mut alone = new_table();
    assert_eq!(other, alpha_beta(&board, 1, -wide, wide, Dice::new(5, 1), &mut alone));
}

#[test]
fn a_narrow_window_cuts_the_search_short() {
    let board = Board::bench();
    let dice = Dice::new(6, 3);
    let moves = board.generage_moves(dice);
    let first = {
        let mut after = board;
        after.make_move_unchecked(moves[0]);
        -(after.eval() as i64) * 65536
    };
    let mut table = new_table();
    let v = alpha_beta(&board, 1, first - 10, first - 5, dice, &mut table);
    assert_eq!(v, first);
}

#[test]
fn average_eval_uses_the_window_for_every_roll() {
    let board = Board::new();
    let wide = 1_000_000_000_000;
    let mut a = new_table();
    let mut b = new_table();
    assert_eq!(average_eval(&board, -wide, wide, 1, &mut a), search_eval(&board, 1));
    let narrow = average_eval(&board, -wide, -wide + 1, 1, &mut b);
    assert!(narrow <= search_eval(&board, 1));
    assert_eq!(board.active_player(), Player::White);
}
