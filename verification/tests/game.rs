use backgammon::backgammon as packed;
use backgammon::game::{
    Board, Dice, GameOutcome, HalfMove, Move, Player, Position, PositionEnum, TinyVector,
};

const START: [i8; 24] = [2, 0, 0, 0, 0, -5, 0, -3, 0, 0, 0, 5, -5, 0, 0, 0, 3, 0, 5, 0, 0, 0, 0, -2];

fn board(points: [i8; 24], bars: (u8, u8), homes: (u8, u8), mover: Player) -> Board {
    Board::from_parts(points, bars.0, bars.1, homes.0, homes.1, mover).unwrap()
}

fn sparse(entries: &[(usize, i8)], bars: (u8, u8), homes: (u8, u8)) -> Board {
    let mut points = [0i8; 24];
    for (i, v) in entries {
        points[*i] = *v;
    }
    board(points, bars, homes, Player::White)
}

fn step(from: PositionEnum, to: PositionEnum) -> HalfMove {
    HalfMove { from: Position::from_enum(from), to: Position::from_enum(to) }
}

fn steps(m: &Move) -> Vec<(PositionEnum, PositionEnum)> {
    m.get_half_moves().iter().map(|hm| (hm.from.to_enum(), hm.to.to_enum())).collect()
}

#[test]
fn plain_new_board_is_the_starting_position() {
    let b = Board::new();
    for i in 0..24u8 {
        assert_eq!(b.checkers_on_position(i), START[i as usize]);
    }
    assert_eq!(b.active_player(), Player::White);
    assert_eq!(b.get_active_player(), Player::White);
    assert_eq!(b.bar(Player::White), 0);
    assert_eq!(b.home(Player::Black), 0);
    assert_eq!(b, board(START, (0, 0), (0, 0), Player::White));
}

#[test]
fn from_parts_rejects_counts_beyond_15() {
    let mut points = [0i8; 24];
    assert!(Board::from_parts(points, 0, 0, 0, 0, Player::White).is_some());
    assert!(Board::from_parts(points, 16, 0, 0, 0, Player::White).is_none());
    assert!(Board::from_parts(points, 0, 16, 0, 0, Player::White).is_none());
    assert!(Board::from_parts(points, 0, 0, 16, 0, Player::White).is_none());
    assert!(Board::from_parts(points, 0, 0, 0, 16, Player::White).is_none());
    points[7] = 16;
    assert!(Board::from_parts(points, 0, 0, 0, 0, Player::White).is_none());
    points[7] = -16;
    assert!(Board::from_parts(points, 0, 0, 0, 0, Player::White).is_none());
    points[7] = -15;
    assert!(Board::from_parts(points, 15, 15, 15, 15, Player::Black).is_some());
}

#[test]
fn checkers_fit_counts_points_bar_and_home() {
    assert!(Board::new().checkers_fit());
    assert!(Board::bench().checkers_fit());
    assert!(sparse(&[(3, 15)], (0, 0), (0, 0)).checkers_fit());
    assert!(!sparse(&[(3, 15)], (1, 0), (0, 0)).checkers_fit());
    assert!(!sparse(&[(3, 15)], (0, 0), (1, 0)).checkers_fit());
    assert!(!sparse(&[(3, 15), (4, 1)], (0, 0), (0, 0)).checkers_fit());
    assert!(sparse(&[(3, -15), (4, 2)], (0, 0), (0, 0)).checkers_fit());
    assert!(!sparse(&[(3, -15), (4, 2)], (0, 1), (0, 0)).checkers_fit());
    assert!(!sparse(&[(3, -15), (4, 2)], (0, 0), (0, 1)).checkers_fit());
    let mut bits = packed::Board::new();
    assert!(bits.checkers_fit());
    bits.set_active_bar(1);
    assert!(!bits.checkers_fit());
    bits.set_active_bar(0);
    bits.set_passive_bar(1);
    assert!(!bits.checkers_fit());
    assert!(Dice::new(3, 4).is_valid());
    assert!(Dice::new(6, 6).use_die(6).is_valid());
    assert!(!Dice::new(0, 4).is_valid());
    assert!(!Dice::new(7, 7).is_valid());
    assert!(!(Dice::Double { value: 3, used: 5 }).is_valid());
    assert!(!(Dice::Single { value_1: 2, value_2: 2, used: backgammon::game::DiceUsage::BothUsed })
        .is_valid());
}

#[test]
fn accessors_name_players_not_sides() {
    let mut points = [0i8; 24];
    points[2] = 3;
    points[20] = -4;
    let b = board(points, (1, 2), (3, 4), Player::Black);
    assert_eq!(b.bar(Player::Black), 1);
    assert_eq!(b.bar(Player::White), 2);
    assert_eq!(b.home(Player::Black), 3);
    assert_eq!(b.home(Player::White), 4);
    assert_eq!(b.checkers_on_position(21), -3);
    assert_eq!(b.checkers_on_position(3), 4);
    assert_eq!(b.checkers_on_position(2), 0);
    let w = b.from_whites_perspective();
    assert_eq!(w.active_player(), Player::Black);
    let mut flipped = [0i8; 24];
    flipped[21] = -3;
    flipped[3] = 4;
    assert_eq!(w, board(flipped, (2, 1), (4, 3), Player::Black));
    let white = board(points, (1, 2), (3, 4), Player::White);
    assert_eq!(white.from_whites_perspective(), white);
    assert_eq!(white.checkers_on_position(2), 3);
}

#[test]
fn plain_switch_player_twice_is_the_identity() {
    let mut b = Board::bench();
    let original = b;
    b.switch_player();
    assert_eq!(b.active_player(), Player::Black);
    assert_eq!(b.bar(Player::White), 1);
    assert_eq!(b.checkers_on_position(18), 6);
    assert_ne!(b, original);
    b.switch_player();
    assert_eq!(b, original);
}

#[test]
fn eval_of_known_positions() {
    assert_eq!(Board::new().eval(), 0);
    assert_eq!(Board::new().eval_absolute(), 0);
    assert_eq!(Board::bench().eval(), -70);
    let mut flipped = Board::bench();
    flipped.switch_player();
    assert_eq!(flipped.eval(), 70);
    assert_eq!(flipped.eval_absolute(), -70);
    assert_eq!(sparse(&[(0, 1)], (0, 0), (0, 0)).eval(), 19);
    assert_eq!(sparse(&[(5, 1)], (0, 0), (0, 0)).eval(), 19);
    assert_eq!(sparse(&[(6, 1)], (0, 0), (0, 0)).eval(), 18);
    assert_eq!(sparse(&[(17, 2)], (0, 0), (0, 0)).eval(), 14);
    assert_eq!(sparse(&[(18, 2)], (0, 0), (0, 0)).eval(), 13);
    assert_eq!(sparse(&[(23, 3)], (0, 0), (0, 0)).eval(), 4);
    assert_eq!(sparse(&[(18, 1)], (0, 0), (0, 0)).eval(), 6);
    assert_eq!(sparse(&[(23, -1)], (0, 0), (0, 0)).eval(), -19);
    assert_eq!(sparse(&[(18, -1)], (0, 0), (0, 0)).eval(), -19);
    assert_eq!(sparse(&[(17, -1)], (0, 0), (0, 0)).eval(), -18);
    assert_eq!(sparse(&[(6, -2)], (0, 0), (0, 0)).eval(), -14);
    assert_eq!(sparse(&[(5, -2)], (0, 0), (0, 0)).eval(), -13);
    assert_eq!(sparse(&[(0, -3)], (0, 0), (0, 0)).eval(), -4);
    assert_eq!(sparse(&[], (0, 0), (4, 1)).eval(), 63);
    assert_eq!(sparse(&[], (3, 1), (0, 0)).eval(), -10);
}

#[test]
fn outcome_and_eval_at_the_end_of_a_game() {
    let cases: Vec<(Board, GameOutcome, i16)> = vec![
        (sparse(&[(3, -15)], (0, 0), (15, 0)), GameOutcome::Gammon(Player::White), 2000),
        (sparse(&[(3, -14), (20, -1)], (0, 0), (15, 0)), GameOutcome::Backgammon(Player::White), 3000),
        (sparse(&[(3, -14)], (0, 1), (15, 0)), GameOutcome::Backgammon(Player::White), 3000),
        (sparse(&[(3, -12)], (0, 0), (15, 3)), GameOutcome::Win(Player::White), 1000),
        (sparse(&[(3, -12)], (0, 2), (15, 1)), GameOutcome::Win(Player::White), 1000),
        (sparse(&[(20, 15)], (0, 0), (0, 15)), GameOutcome::Gammon(Player::Black), -2000),
        (sparse(&[(20, 14), (5, 1)], (0, 0), (0, 15)), GameOutcome::Backgammon(Player::Black), -3000),
        (sparse(&[(20, 14)], (1, 0), (0, 15)), GameOutcome::Backgammon(Player::Black), -3000),
        (sparse(&[(20, 8)], (0, 0), (7, 15)), GameOutcome::Win(Player::Black), -1000),
        (sparse(&[(20, 1), (3, -1)], (0, 0), (14, 14)), GameOutcome::Ongoing, 4 - 4),
    ];
    for (b, outcome, eval) in cases {
        assert_eq!(b.outcome(), outcome);
        assert_eq!(b.eval(), eval);
        assert_eq!(b.eval_absolute(), eval);
        let mut other = b;
        other.switch_player();
        assert_eq!(other.outcome(), outcome);
        assert_eq!(other.eval(), -eval);
        assert_eq!(other.eval_absolute(), eval);
    }
    assert_eq!(Board::new().outcome(), GameOutcome::Ongoing);
    let both = sparse(&[], (0, 0), (15, 15));
    assert_eq!(both.outcome(), GameOutcome::Win(Player::White));
    assert_eq!(both.eval(), 1000);
}

#[test]
fn eval_of_running_games_stays_far_from_a_win() {
    let mut b = Board::new();
    let all = Dice::all();
    for round in 0..80 {
        if b.outcome() != GameOutcome::Ongoing {
            break;
        }
        let moves = b.generage_moves(all[(round * 7) % 21]);
        b.make_move_unchecked(moves[(round * 5) % moves.len()]);
        if b.outcome() == GameOutcome::Ongoing {
            assert!(b.eval().abs() <= 396);
        }
    }
}

#[test]
fn position_codes_round_trip() {
    for n in 0..24u8 {
        assert_eq!(Position::from_enum(PositionEnum::Board(n)).to_enum(), PositionEnum::Board(n));
    }
    assert_eq!(Position::from_enum(PositionEnum::Bar).to_enum(), PositionEnum::Bar);
    assert_eq!(Position::from_enum(PositionEnum::Home).to_enum(), PositionEnum::Home);
    assert_ne!(Position::from_enum(PositionEnum::Bar), Position::from_enum(PositionEnum::Home));
}

#[test]
fn plain_blot_capture() {
    let mut b = sparse(&[(7, 1), (10, -1)], (0, 2), (0, 0));
    b.make_half_move_unchecked(&step(PositionEnum::Board(7), PositionEnum::Board(10)));
    assert_eq!(b, sparse(&[(10, 1)], (0, 3), (0, 0)));
    let mut c = sparse(&[(20, 2)], (1, 0), (13, 0));
    c.make_half_move_unchecked(&step(PositionEnum::Bar, PositionEnum::Board(2)));
    c.make_half_move_unchecked(&step(PositionEnum::Board(20), PositionEnum::Home));
    assert_eq!(c, sparse(&[(2, 1), (20, 1)], (0, 0), (14, 0)));
}

#[test]
fn captured_value_counts_blots_hit() {
    let b = sparse(&[(0, 2), (4, -1), (9, -1), (12, 1), (13, -2)], (0, 0), (0, 0));
    let mut m = Move::new();
    m.append(step(PositionEnum::Board(0), PositionEnum::Board(4)));
    m.append(step(PositionEnum::Board(4), PositionEnum::Board(9)));
    assert_eq!(b.captured_value(&m), 4 + 9);
    let mut quiet = Move::new();
    quiet.append(step(PositionEnum::Board(0), PositionEnum::Board(3)));
    quiet.append(step(PositionEnum::Board(12), PositionEnum::Home));
    assert_eq!(b.captured_value(&quiet), 0);
    assert_eq!(b.captured_value(&Move::new()), 0);
}

#[test]
fn move_editing() {
    let a = step(PositionEnum::Board(1), PositionEnum::Board(4));
    let b = step(PositionEnum::Board(4), PositionEnum::Board(9));
    let mut m = Move::new();
    assert_eq!(m.len(), 0);
    m.append(a);
    m.append(b);
    m.append(a);
    assert_eq!(m.len(), 3);
    assert_eq!(m.get_half_moves(), vec![a, b, a]);
    m.remove_half_move(&a);
    assert_eq!(m.get_half_moves(), vec![b, a]);
    m.remove_half_move(&step(PositionEnum::Bar, PositionEnum::Board(0)));
    assert_eq!(m.get_half_moves(), vec![b, a]);
    let mut other = Move::new();
    other.append(a);
    other.append(b);
    assert!(m.unordered_equal(&other));
    other.append(b);
    assert!(!m.unordered_equal(&other));
    assert!(!other.unordered_equal(&m));
}

#[test]
fn tiny_vector_operations() {
    let mut v: TinyVector<u8, 4> = TinyVector::new();
    assert!(v.is_empty());
    v.push(5);
    v.push(7);
    v.push(5);
    v.push(9);
    assert_eq!(v.len(), 4);
    assert_eq!(v.get(1), Some(&7));
    assert_eq!(v.get(4), None);
    v.remove(&5);
    assert_eq!(v.iter(), vec![7, 5, 9]);
    v.remove(&4);
    assert_eq!(v.iter(), vec![7, 5, 9]);
    v.remove_at(2);
    assert_eq!(v.iter(), vec![7, 5]);
    v.remove(&7);
    v.remove(&5);
    assert!(v.is_empty());
    let raw = TinyVector::<u8, 3>::from_raw([Some(1), Some(2), None], 2);
    assert_eq!(raw.iter(), vec![1, 2]);
    assert_eq!(raw.get(2), None);
}

#[test]
fn tiny_vec_operations() {
    let mut v: backgammon::misc::TinyVec<u8, 3> = backgammon::misc::TinyVec::new();
    assert!(v.is_empty());
    assert_eq!(v.pop(), None);
    v.push(1);
    v.push(2);
    assert_eq!(v.len(), 2);
    assert_eq!(v.get(0), Some(&1));
    assert_eq!(v.get(2), None);
    assert_eq!(v.pop(), Some(2));
    assert_eq!(v.len(), 1);
    assert_eq!(v.get(1), None);
    let raw = backgammon::misc::TinyVec::<u8, 4>::from_raw([Some(9), Some(8), Some(7), None], 2);
    assert_eq!(raw.len(), 2);
    assert_eq!(raw.get(0), Some(&9));
    assert_eq!(raw.get(1), Some(&8));
    assert_eq!(raw.get(2), None);
}

fn to_packed(points: &[i8; 24], bars: (u8, u8), home: u8) -> packed::Board {
    let mut b = packed::Board::empty();
    for i in 0..24u8 {
        b.set_checkers_on_position(i, points[i as usize]);
    }
    b.set_active_bar(bars.0);
    b.set_passive_bar(bars.1);
    b.set_active_home(home);
    b
}

fn packed_spot(p: packed::Position) -> PositionEnum {
    match p {
        packed::Position::Bar => PositionEnum::Bar,
        packed::Position::Home => PositionEnum::Home,
        packed::Position::Board(i) => PositionEnum::Board(i),
    }
}

#[test]
fn both_boards_generate_the_same_moves() {
    let layouts: Vec<([i8; 24], (u8, u8), u8)> = vec![
        (START, (0, 0), 0),
        ([1, -2, -2, 1, 1, 0, 1, -1, 0, 0, 0, -2, -1, -1, 0, 0, 0, 0, 6, -1, -1, -4, 2, 2], (1, 0), 0),
        ([0, 0, 0, 0, 0, 0, 0, 0, 0, 0, 0, 0, 0, 0, 0, 0, 0, 0, 2, 0, 3, -2, 1, 4], (0, 1), 5),
        ([-2, 0, -2, 0, 0, 3, 0, 0, 0, 0, 0, 0, 0, 0, 0, 0, 0, 0, 0, 0, 0, 0, 0, 0], (2, 0), 0),
        ([0, 0, 0, 0, 0, 0, 0, 0, 0, 0, 0, 0, 0, 0, 0, 0, 0, 0, 0, 0, 1, 0, -2, 1], (0, 0), 13),
    ];
    for (points, bars, home) in layouts {
        let plain = board(points, bars, (home, 0), Player::White);
        let bits = to_packed(&points, bars, home);
        for a in 1..=6u8 {
            for b in 1..=6u8 {
                let expected: Vec<Vec<(PositionEnum, PositionEnum)>> = bits
                    .generate_moves(packed::Dice::from_numbers(a, b))
                    .iter()
                    .map(|m| {
                        let mut out = Vec::new();
                        let mut i = 0;
                        while let Some(hm) = m.get(i) {
                            out.push((
                                packed_spot(hm.from().to_position()),
                                packed_spot(hm.to().to_position()),
                            ));
                            i += 1;
                        }
                        out
                    })
                    .collect();
                let got: Vec<Vec<(PositionEnum, PositionEnum)>> =
                    plain.generage_moves(Dice::new(a, b)).iter().map(steps).collect();
                assert_eq!(got, expected, "dice {} {}", a, b);
                let offers = plain.generate_half_moves(Dice::new(a, b));
                let list = bits.generate_half_moves(packed::Dice::from_numbers(a, b));
                assert_eq!(offers.len(), list.len());
                for (i, (hm, left)) in offers.iter().iter().enumerate() {
                    let (other, other_left) = list.get(i).unwrap();
                    assert_eq!(hm.from.to_enum(), packed_spot(other.from().to_position()));
                    assert_eq!(hm.to.to_enum(), packed_spot(other.to().to_position()));
                    assert_eq!(left.is_used(), other_left.all_used());
                }
            }
        }
    }
}

#[test]
fn plain_opening_3_1() {
    let b = Board::new();
    let moves = b.generage_moves(Dice::new(3, 1));
    let mut wanted = Move::new();
    wanted.append(step(PositionEnum::Board(16), PositionEnum::Board(19)));
    wanted.append(step(PositionEnum::Board(18), PositionEnum::Board(19)));
    let found: Vec<&Move> = moves.iter().filter(|m| m.unordered_equal(&wanted)).collect();
    assert_eq!(found.len(), 1);
    let mut after = b;
    after.make_move_unchecked(*found[0]);
    assert_eq!(after.active_player(), Player::Black);
    assert_eq!(after.checkers_on_position(19), 2);
    assert_eq!(after.checkers_on_position(18), 4);
    assert_eq!(after.checkers_on_position(16), 2);
    assert_eq!(after.checkers_on_position(17), 0);
    assert!(after.can_bear_off() == false);
}

#[test]
fn cache_keys_tell_positions_and_dice_apart() {
    let a = Board::new();
    let mut b = Board::new();
    b.switch_player();
    b.switch_player();
    assert_eq!(a.cache_key(&Dice::new(2, 3)), b.cache_key(&Dice::new(2, 3)));
    assert_ne!(a.cache_key(&Dice::new(2, 3)), a.cache_key(&Dice::new(3, 2)));
    assert_ne!(a.cache_key(&Dice::new(2, 2)), a.cache_key(&Dice::new(2, 2).use_die(2)));
    b.switch_player();
    assert_ne!(a.cache_key(&Dice::new(2, 3)), b.cache_key(&Dice::new(2, 3)));
    assert_ne!(
        Board::bench().cache_key(&Dice::new(2, 3)),
        a.cache_key(&Dice::new(2, 3))
    );
    assert_eq!(sparse(&[], (0, 0), (0, 0)).cache_key(&Dice::new(1, 1)).1, 131072 * 8);
    assert_eq!(sparse(&[], (1, 2), (3, 4)).cache_key(&Dice::new(1, 2)).1, 1 + 32 + 768 + 16384 + 131072 * 104);
    assert_eq!(sparse(&[(0, 1)], (0, 0), (0, 0)).cache_key(&Dice::new(1, 1)).0 % 31, 15);
}
