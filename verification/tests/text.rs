use backgammon::game::{Board, Dice, HalfMove, Move, Player, Position, PositionEnum};
use backgammon::misc::text::{append_cell, append_number, digit_str};

fn step(from: PositionEnum, to: PositionEnum) -> HalfMove {
    HalfMove { from: Position::from_enum(from), to: Position::from_enum(to) }
}

fn expected_board(points: &[i8; 24], white_bar: u8, black_bar: u8) -> String {
    let b = points;
    format!(
        "12  11  10   9   8   7  | W |   6   5   4   3   2   1 
{:2}  {:2}  {:2}  {:2}  {:2}  {:2}  | {:1} |  {:2}  {:2}  {:2}  {:2}  {:2}  {:2}
=========================================================
{:2}  {:2}  {:2}  {:2}  {:2}  {:2}  | {:1} |   {:2}  {:2}  {:2}  {:2}  {:2}  {:2}
13  14  15  16  17  18  | B |   19  20  21  22  23  24",
        b[11], b[10], b[9], b[8], b[7], b[6], white_bar, b[5], b[4], b[3], b[2], b[1], b[0],
        b[12], b[13], b[14], b[15], b[16], b[17], black_bar, b[18], b[19], b[20], b[21], b[22],
        b[23]
    )
}

#[test]
fn numbers_as_text() {
    for d in 0..10u8 {
        assert_eq!(digit_str(d), d.to_string());
    }
    for n in 0..=255u8 {
        let mut out = String::from("x");
        append_number(&mut out, n);
        assert_eq!(out, format!("x{}", n));
    }
    for v in -127..=127i8 {
        let mut out = String::new();
        append_cell(&mut out, v);
        assert_eq!(out, format!("{:2}", v));
    }
}

#[test]
fn dice_as_text() {
    assert_eq!(Dice::new(3, 5).to_string(), "3/5");
    assert_eq!(Dice::new(6, 6).to_string(), "6/6");
    assert_eq!(Dice::new(6, 6).use_die(6).to_string(), "6/6");
    assert_eq!(Dice::new(2, 1).use_die(1).to_string(), "2/1");
}

#[test]
fn move_as_text() {
    assert_eq!(Move::new().to_string(), "");
    let mut m = Move::new();
    m.append(step(PositionEnum::Board(16), PositionEnum::Board(19)));
    m.append(step(PositionEnum::Bar, PositionEnum::Board(3)));
    m.append(step(PositionEnum::Board(20), PositionEnum::Home));
    m.append(step(PositionEnum::Board(0), PositionEnum::Board(9)));
    assert_eq!(m.to_string(), "17 -> 20, B -> 4, 21 -> H, 1 -> 10, ");
}

#[test]
fn board_as_text() {
    let start = [2, 0, 0, 0, 0, -5, 0, -3, 0, 0, 0, 5, -5, 0, 0, 0, 3, 0, 5, 0, 0, 0, 0, -2];
    assert_eq!(Board::new().to_fancy_string(), expected_board(&start, 0, 0));
    let mut points = [0i8; 24];
    points[0] = -15;
    points[7] = 12;
    points[23] = 3;
    points[12] = -1;
    let white = Board::from_parts(points, 3, 11, 0, 0, Player::White).unwrap();
    assert_eq!(white.to_fancy_string(), expected_board(&points, 3, 11));
    let black = Board::from_parts(points, 3, 11, 0, 0, Player::Black).unwrap();
    let mut seen = [0i8; 24];
    for i in 0..24 {
        seen[i] = -points[23 - i];
    }
    assert_eq!(black.to_fancy_string(), expected_board(&seen, 11, 3));
    let mut switched = Board::new();
    switched.switch_player();
    assert_eq!(switched.to_fancy_string(), Board::new().to_fancy_string());
}
