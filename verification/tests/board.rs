use backgammon::backgammon::{Board, Dice, HalfMove, Move, Player, Position, PositionCompressed};

const START: [i8; 24] = [2, 0, 0, 0, 0, -5, 0, -3, 0, 0, 0, 5, -5, 0, 0, 0, 3, 0, 5, 0, 0, 0, 0, -2];

fn points(board: &Board) -> Vec<i8> {
    (0..24).map(|i| board.get_checkers_on_position(i)).collect()
}

fn steps(m: &Move) -> Vec<(Position, Position)> {
    let mut out = Vec::new();
    let mut i = 0;
    while let Some(hm) = m.get(i) {
        out.push((hm.from().to_position(), hm.to().to_position()));
        i += 1;
    }
    out
}

fn offers(board: &Board, dice: Dice) -> Vec<(Position, Position)> {
    let list = board.generate_half_moves(dice);
    let mut out = Vec::new();
    let mut i = 0;
    while let Some((hm, _)) = list.get(i) {
        out.push((hm.from().to_position(), hm.to().to_position()));
        i += 1;
    }
    out
}

fn run(from: u8, to: u8) -> (Position, Position) {
    (Position::Board(from), Position::Board(to))
}

#[test]
fn new_board_is_the_starting_position() {
    let board = Board::new();
    assert_eq!(points(&board), START.to_vec());
    assert_eq!(board.get_active_bar(), 0);
    assert_eq!(board.get_passive_bar(), 0);
    assert_eq!(board.get_active_home(), 0);
    assert_eq!(board.get_passive_home(), 0);
    assert_eq!(board.get_active_player(), Player::White);
}

#[test]
fn empty_board_has_no_checkers() {
    let board = Board::empty();
    assert_eq!(points(&board), vec![0i8; 24]);
    assert_eq!(board.get_active_bar(), 0);
    assert_eq!(board.get_passive_bar(), 0);
    assert_eq!(board.get_active_home(), 0);
    assert_eq!(board.get_passive_home(), 0);
}

#[test]
fn setters_change_one_counter_only() {
    for index in 0..24u8 {
        for value in [-15i8, -2, -1, 0, 1, 7, 15] {
            let mut board = Board::new();
            board.set_active_bar(3);
            board.set_passive_bar(4);
            board.set_active_home(5);
            board.set_checkers_on_position(index, value);
            let mut expected = START.to_vec();
            expected[index as usize] = value;
            assert_eq!(points(&board), expected);
            assert_eq!(board.get_active_bar(), 3);
            assert_eq!(board.get_passive_bar(), 4);
            assert_eq!(board.get_active_home(), 5);
            assert_eq!(board.get_passive_home(), 0);
            assert_eq!(board.get_count_on_position(index), value.unsigned_abs());
        }
    }
}

#[test]
fn sided_setters_set_the_sign() {
    let mut board = Board::empty();
    board.set_active_player_checker_on_position(13, 4);
    board.set_passive_player_checker_on_position(2, 6);
    board.set_passive_player_checker_on_position(3, 0);
    assert_eq!(board.get_checkers_on_position(13), 4);
    assert_eq!(board.get_checkers_on_position(2), -6);
    assert_eq!(board.get_checkers_on_position(3), 0);
    assert_eq!(board.get_player_on_position(13), Some(Player::White));
    assert_eq!(board.get_player_on_position(2), Some(Player::Black));
    assert_eq!(board.get_player_on_position(3), None);
    assert_eq!(board, {
        let mut other = Board::empty();
        other.set_checkers_on_position(2, -6);
        other.set_checkers_on_position(13, 4);
        other
    });
}

#[test]
fn set_active_home_keeps_the_low_four_bits() {
    let mut board = Board::empty();
    board.set_active_home(0x2F);
    assert_eq!(board.get_active_home(), 15);
    assert_eq!(board.get_passive_home(), 0);
}

#[test]
fn index_offsets_mirror_in_the_two_words() {
    let expected: [u8; 24] = [
        59, 54, 49, 44, 39, 34, 29, 24, 19, 14, 9, 4, 4, 9, 14, 19, 24, 29, 34, 39, 44, 49, 54, 59,
    ];
    for i in 0..24u8 {
        assert_eq!(Board::index_offset(i), expected[i as usize]);
    }
}

#[test]
fn switch_player_turns_the_board_round() {
    let mut board = Board::new();
    board.set_checkers_on_position(1, 3);
    board.set_active_bar(2);
    board.set_passive_bar(1);
    board.set_active_home(4);
    let before = points(&board);
    board.switch_player();
    let after = points(&board);
    for i in 0..24 {
        assert_eq!(after[i], -before[23 - i]);
    }
    assert_eq!(board.get_active_bar(), 1);
    assert_eq!(board.get_passive_bar(), 2);
    assert_eq!(board.get_active_home(), 0);
    assert_eq!(board.get_passive_home(), 4);
    assert_eq!(board.get_active_player(), Player::Black);
}

#[test]
fn switch_player_twice_is_the_identity() {
    let mut board = Board::new();
    board.set_checkers_on_position(9, -1);
    board.set_active_bar(1);
    board.set_active_home(7);
    let original = board;
    board.switch_player();
    assert_ne!(board, original);
    board.switch_player();
    assert_eq!(board, original);
}

#[test]
fn equal_positions_are_equal_however_they_were_reached() {
    let mut a = Board::empty();
    a.set_checkers_on_position(4, -3);
    a.set_checkers_on_position(4, 0);
    a.switch_player();
    a.switch_player();
    assert_eq!(a, Board::empty());
    let mut b = Board::empty();
    b.switch_player();
    let mut c = Board::empty();
    c.set_passive_player_checker_on_position(7, 0);
    c.switch_player();
    assert_eq!(b, c);
}

#[test]
fn same_position_agrees_with_equality() {
    let a = Board::new();
    let mut b = Board::new();
    assert!(a.same_position(&b));
    b.set_checkers_on_position(3, -1);
    assert!(!a.same_position(&b));
    assert_ne!(a, b);
    b.set_passive_player_checker_on_position(3, 0);
    assert!(a.same_position(&b));
    assert_eq!(a, b);
    b.set_active_home(1);
    assert!(!a.same_position(&b));
    let mut c = Board::new();
    c.switch_player();
    assert!(!a.same_position(&c));
    c.switch_player();
    assert!(a.same_position(&c));
}

#[test]
fn can_bear_off_needs_everything_home_and_an_empty_bar() {
    let mut board = Board::empty();
    board.set_checkers_on_position(18, 5);
    board.set_checkers_on_position(23, 4);
    board.set_active_home(6);
    assert!(board.active_player_can_bear_off());
    board.set_active_bar(1);
    assert!(!board.active_player_can_bear_off());
    board.set_active_bar(0);
    board.set_checkers_on_position(18, 4);
    board.set_checkers_on_position(17, 1);
    assert!(!board.active_player_can_bear_off());
    assert!(!Board::new().active_player_can_bear_off());
}

#[test]
fn home_board_is_the_last_six_points() {
    assert_eq!(Board::new().active_home_board(), [5, 0, 0, 0, 0, -2]);
    let mut board = Board::new();
    board.switch_player();
    assert_eq!(board.active_home_board(), [5, 0, 0, 0, 0, -2]);
    board.set_checkers_on_position(20, 7);
    assert_eq!(board.active_home_board(), [5, 0, 7, 0, 0, -2]);
}

#[test]
fn position_codes() {
    assert_eq!(PositionCompressed::bar().get(), 1);
    assert_eq!(PositionCompressed::home().get(), 2);
    assert_eq!(PositionCompressed::from_index(0).get(), 3);
    assert_eq!(PositionCompressed::from_index(23).get(), 26);
    assert_eq!(PositionCompressed::new(10).to_position(), Position::Board(7));
    assert_eq!(PositionCompressed::new(1).to_position(), Position::Bar);
    assert_eq!(PositionCompressed::new(2).to_position(), Position::Home);
    assert_eq!(PositionCompressed::from_position(Position::Board(5)).get(), 8);
    assert_eq!(PositionCompressed::from_position(Position::Home), PositionCompressed::home());
    let hm = HalfMove::from_position(Position::Bar, Position::Board(3));
    assert_eq!(hm.from().get(), 1);
    assert_eq!(hm.to().get(), 6);
    assert_eq!(
        hm,
        HalfMove::from_compressed(PositionCompressed::bar(), PositionCompressed::from_index(3))
    );
}

#[test]
fn starting_position_dice_3_1_makes_the_five_point() {
    let board = Board::new();
    let moves = board.generate_moves(Dice::from_numbers(3, 1));
    assert!(moves.iter().all(|m| m.len() == 2));
    let mut wanted = Move::new();
    wanted.add_half_move(HalfMove::from_position(Position::Board(16), Position::Board(19)));
    wanted.add_half_move(HalfMove::from_position(Position::Board(18), Position::Board(19)));
    let found: Vec<&Move> = moves.iter().filter(|m| m.unordered_equal(&wanted)).collect();
    assert_eq!(found.len(), 1);
    let mut after = board;
    after.make_move_unchecked(*found[0]);
    assert_eq!(after.get_active_player(), Player::Black);
    assert_eq!(after.get_checkers_on_position(23 - 19), -2);
    assert_eq!(after.get_checkers_on_position(23 - 18), -4);
    assert_eq!(after.get_checkers_on_position(23 - 16), -2);
    assert_eq!(after.get_checkers_on_position(23 - 17), 0);
    let mine: i32 = points(&after).iter().filter(|v| **v > 0).map(|v| *v as i32).sum();
    let theirs: i32 = points(&after).iter().filter(|v| **v < 0).map(|v| -*v as i32).sum();
    assert_eq!(mine, 15);
    assert_eq!(theirs, 15);
}

#[test]
fn forced_bar_re_entry() {
    let mut board = Board::empty();
    board.set_active_bar(1);
    for i in 0..3 {
        board.set_checkers_on_position(i, -2);
    }
    let dice = Dice::from_numbers(2, 4);
    assert_eq!(offers(&board, dice), vec![(Position::Bar, Position::Board(3))]);
    let moves = board.generate_moves(dice);
    assert_eq!(moves.len(), 1);
    assert_eq!(steps(&moves[0]), vec![(Position::Bar, Position::Board(3)), run(3, 5)]);
    let mut shut = Board::empty();
    shut.set_active_bar(1);
    for i in 0..6 {
        shut.set_checkers_on_position(i, -2);
    }
    shut.set_checkers_on_position(10, 3);
    assert_eq!(offers(&shut, dice), vec![]);
    let moves = shut.generate_moves(dice);
    assert_eq!(moves.len(), 1);
    assert_eq!(moves[0].len(), 0);
}

#[test]
fn bar_re_entry_only_move_of_length_one() {
    let mut board = Board::empty();
    board.set_active_bar(1);
    for i in 0..3 {
        board.set_checkers_on_position(i, -2);
    }
    board.set_checkers_on_position(5, -2);
    let dice = Dice::from_numbers(2, 4);
    let moves = board.generate_moves(dice);
    assert_eq!(moves.len(), 1);
    assert_eq!(steps(&moves[0]), vec![(Position::Bar, Position::Board(3))]);
}

#[test]
fn must_use_the_maximum_number_of_dice() {
    let mut board = Board::empty();
    board.set_checkers_on_position(0, 1);
    board.set_checkers_on_position(12, 1);
    board.set_checkers_on_position(8, -2);
    board.set_checkers_on_position(15, -2);
    board.set_checkers_on_position(20, -2);
    let dice = Dice::from_numbers(3, 5);
    assert_eq!(offers(&board, dice), vec![run(0, 3), run(0, 5), run(12, 17)]);
    let moves = board.generate_moves(dice);
    assert_eq!(moves.len(), 1);
    let mut got = steps(&moves[0]);
    got.sort_by_key(|s| format!("{:?}", s));
    assert_eq!(got, vec![run(0, 3), run(12, 17)]);
}

#[test]
fn doubles_are_played_four_times_where_possible() {
    let mut board = Board::empty();
    board.set_checkers_on_position(12, 5);
    let moves = board.generate_moves(Dice::from_numbers(6, 6));
    assert_eq!(moves.len(), 1);
    assert_eq!(steps(&moves[0]), vec![run(12, 18); 4]);
    let mut three = Board::empty();
    three.set_checkers_on_position(12, 3);
    let moves = three.generate_moves(Dice::from_numbers(6, 6));
    assert_eq!(moves.len(), 1);
    assert_eq!(steps(&moves[0]), vec![run(12, 18); 3]);
}

#[test]
fn bear_off_overshoot() {
    let mut board = Board::empty();
    board.set_checkers_on_position(20, 1);
    board.set_active_home(14);
    let dice = Dice::from_numbers(6, 1);
    assert_eq!(offers(&board, dice), vec![run(20, 21), (Position::Board(20), Position::Home)]);
    let moves = board.generate_moves(dice);
    assert_eq!(moves.len(), 1);
    assert_eq!(steps(&moves[0]), vec![run(20, 21), (Position::Board(21), Position::Home)]);
}

#[test]
fn exact_bear_off_rules_out_overshoot() {
    let mut board = Board::empty();
    board.set_checkers_on_position(20, 1);
    board.set_checkers_on_position(22, 1);
    board.set_active_home(13);
    let dice = Dice::from_numbers(6, 4);
    assert_eq!(offers(&board, dice), vec![(Position::Board(20), Position::Home)]);
    let moves = board.generate_moves(dice);
    assert_eq!(moves.len(), 1);
    assert_eq!(
        steps(&moves[0]),
        vec![(Position::Board(20), Position::Home), (Position::Board(22), Position::Home)]
    );
}

#[test]
fn no_bear_off_while_a_checker_is_outside() {
    let mut board = Board::empty();
    board.set_checkers_on_position(20, 1);
    board.set_checkers_on_position(3, 1);
    board.set_active_home(13);
    let list = offers(&board, Dice::from_numbers(6, 4));
    assert_eq!(list, vec![run(3, 9), run(3, 7)]);
}

#[test]
fn blot_capture() {
    let mut board = Board::empty();
    board.set_checkers_on_position(7, 1);
    board.set_checkers_on_position(10, -1);
    board.set_passive_bar(2);
    let hm = HalfMove::from_position(Position::Board(7), Position::Board(10));
    assert!(offers(&board, Dice::from_numbers(3, 6)).contains(&run(7, 10)));
    board.make_halfmove_unchecked(&hm);
    assert_eq!(board.get_checkers_on_position(10), 1);
    assert_eq!(board.get_checkers_on_position(7), 0);
    assert_eq!(board.get_passive_bar(), 3);
}

#[test]
fn half_moves_never_land_on_a_block() {
    let board = Board::new();
    for a in 1..=6 {
        for b in 1..=6 {
            let dice = Dice::from_numbers(a, b);
            for (_, to) in offers(&board, dice) {
                match to {
                    Position::Board(j) => assert!(board.get_checkers_on_position(j) >= -1),
                    Position::Home => assert!(board.active_player_can_bear_off()),
                    Position::Bar => panic!("a half-move to the bar"),
                }
            }
        }
    }
}

#[test]
fn legal_moves_have_one_length_and_no_two_are_alike() {
    let board = Board::new();
    for a in 1..=6 {
        for b in 1..=6 {
            let moves = board.generate_moves(Dice::from_numbers(a, b));
            assert!(!moves.is_empty());
            let len = moves[0].len();
            assert_eq!(len, if a == b { 4 } else { 2 });
            for (i, m) in moves.iter().enumerate() {
                assert_eq!(m.len(), len);
                for other in moves.iter().skip(i + 1) {
                    assert!(!m.unordered_equal(other));
                }
            }
        }
    }
}

#[test]
fn checkers_are_kept_through_a_game() {
    let mut board = Board::new();
    let rolls = [(3, 1), (6, 4), (5, 5), (2, 1), (6, 6), (4, 3), (1, 1), (6, 5), (2, 2), (5, 3)];
    for round in 0..60 {
        let (a, b) = rolls[round % rolls.len()];
        let moves = board.generate_moves(Dice::from_numbers(a, b));
        let m = moves[round % moves.len()];
        board.make_move_unchecked(m);
        let on_points: Vec<i8> = points(&board);
        let mine: i32 = on_points.iter().filter(|v| **v > 0).map(|v| *v as i32).sum();
        let theirs: i32 = on_points.iter().filter(|v| **v < 0).map(|v| -*v as i32).sum();
        assert_eq!(mine + board.get_active_bar() as i32 + board.get_active_home() as i32, 15);
        assert_eq!(theirs + board.get_passive_bar() as i32 + board.get_passive_home() as i32, 15);
    }
}

#[test]
fn unordered_equal_ignores_order_but_not_counts() {
    let a = HalfMove::from_position(Position::Board(1), Position::Board(4));
    let b = HalfMove::from_position(Position::Board(4), Position::Board(9));
    let mut ab = Move::new();
    ab.add_half_move(a);
    ab.add_half_move(b);
    let mut ba = Move::new();
    ba.add_half_move(b);
    ba.add_half_move(a);
    let mut aa = Move::new();
    aa.add_half_move(a);
    aa.add_half_move(a);
    let mut only_a = Move::new();
    only_a.add_half_move(a);
    assert!(ab.unordered_equal(&ba));
    assert!(ba.unordered_equal(&ab));
    assert!(ab.unordered_equal(&ab));
    assert!(!ab.unordered_equal(&aa));
    assert!(!aa.unordered_equal(&ab));
    assert!(!only_a.unordered_equal(&ab));
    assert!(!ab.unordered_equal(&only_a));
    assert!(!only_a.unordered_equal(&aa));
    assert!(Move::new().unordered_equal(&Move::new()));
    assert_eq!(ab.len(), 2);
    assert_eq!(ab.get(1), Some(&b));
    assert_eq!(ab.get(2), None);
}

fn longest_line(board: &Board, dice: Dice) -> u8 {
    let list = board.generate_half_moves(dice);
    let mut best = 0;
    let mut i = 0;
    while let Some((hm, left)) = list.get(i) {
        let mut next = *board;
        next.make_halfmove_unchecked(hm);
        best = best.max(1 + longest_line(&next, *left));
        i += 1;
    }
    best
}

#[test]
fn legal_moves_are_as_long_as_the_longest_line() {
    let mut tricky = Board::empty();
    tricky.set_checkers_on_position(22, 1);
    tricky.set_checkers_on_position(18, 1);
    tricky.set_checkers_on_position(23, -2);
    tricky.set_active_home(13);
    let mut blocked = Board::empty();
    blocked.set_checkers_on_position(20, 1);
    blocked.set_checkers_on_position(23, 1);
    blocked.set_checkers_on_position(22, -2);
    blocked.set_active_home(13);
    let mut bar = Board::new();
    bar.set_checkers_on_position(0, 1);
    bar.set_active_bar(1);
    let mut late = Board::empty();
    late.set_checkers_on_position(19, 2);
    late.set_checkers_on_position(21, 3);
    late.set_checkers_on_position(23, 1);
    late.set_checkers_on_position(20, -1);
    late.set_active_home(9);
    for board in [Board::new(), tricky, blocked, bar, late] {
        assert!(board.checkers_fit());
        for a in 1..=6 {
            for b in 1..=6 {
                let dice = Dice::from_numbers(a, b);
                let moves = board.generate_moves(dice);
                assert_eq!(moves[0].len(), longest_line(&board, dice), "dice {} {}", a, b);
            }
        }
    }
    let found: Vec<Vec<(Position, Position)>> =
        tricky.generate_moves(Dice::from_numbers(3, 5)).iter().map(steps).collect();
    assert_eq!(
        found,
        vec![
            vec![run(18, 21), (Position::Board(22), Position::Home)],
            vec![run(18, 21), (Position::Board(21), Position::Home)],
        ]
    );
}
