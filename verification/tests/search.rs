use backgammon::engine::fixed::{ilog2, isqrt, ln_of, ucb_score};
use backgammon::engine::{
    best_total, biased_index, choose_random_move, find_highest_eval_move, mcts_search, monte_carlo_search,
    pick_ranked, rank_scores, roll_by_weight, signed_eval, simulate_random_game, simulate_rollout,
    successor_evals, ChanceNode, PlayerNode,
};
use backgammon::game::{Board, Dice, Move, Player};

fn is_legal(board: &Board, dice: Dice, m: &Move) -> bool {
    board.generage_moves(dice).iter().any(|x| x.get_half_moves() == m.get_half_moves())
}

#[test]
fn square_roots_round_down() {
    assert_eq!(isqrt(0), 0);
    assert_eq!(isqrt(1), 1);
    assert_eq!(isqrt(3), 1);
    assert_eq!(isqrt(4), 2);
    assert_eq!(isqrt(99), 9);
    assert_eq!(isqrt(100), 10);
    assert_eq!(isqrt(4465557504), 66824);
    assert_eq!(isqrt(u64::MAX), 4294967295);
}

#[test]
fn logarithms_in_fixed_point() {
    assert_eq!(ilog2(0), (0, 1));
    assert_eq!(ilog2(1), (0, 1));
    assert_eq!(ilog2(2), (1, 2));
    assert_eq!(ilog2(3), (1, 2));
    assert_eq!(ilog2(1000), (9, 512));
    assert_eq!(ilog2(u32::MAX), (31, 2147483648));
    assert_eq!(ln_of(0), 0);
    assert_eq!(ln_of(1), 0);
    assert_eq!(ln_of(2), 45426);
    assert_eq!(ln_of(3), 68139);
    assert_eq!(ln_of(4), 90852);
    let exact = (1000f64).ln();
    let got = ln_of(1000) as f64 / 65536.0;
    assert!((got - exact).abs() < 0.07);
}

#[test]
fn selection_score_is_mean_plus_bonus() {
    assert_eq!(ucb_score(10, 2, 3), 327680 + 66824);
    assert_eq!(ucb_score(-10, 2, 3), -327680 + 66824);
    assert_eq!(ucb_score(7, 1, 1), 7 * 65536);
    assert_eq!(ucb_score(-7, 2, 1), -229376);
    assert!(ucb_score(100, 10, 1000) < ucb_score(100, 5, 1000));
    let exact = 3.0 + (2.0f64 * (50f64).ln() / 4.0).sqrt();
    assert!((ucb_score(12, 4, 50) as f64 / 65536.0 - exact).abs() < 0.05);
}

#[test]
fn biased_index_is_the_sixteenth_power() {
    assert_eq!(biased_index(0, 10), 0);
    assert_eq!(biased_index(16777215, 10), 8);
    assert_eq!(biased_index(16777215, 1), 0);
    assert_eq!(biased_index(8388608, 10), 0);
    assert_eq!(biased_index(8388608, 65537), 1);
    assert_eq!(biased_index(16000000, 101), 46);
    for len in 1..40usize {
        for draw in [0u32, 1, 5_000_000, 12_000_000, 16_000_000, 16_777_215] {
            let i = biased_index(draw, len);
            assert!(i < len);
            let u = draw as f64 / 16777216.0;
            let float = (u.powi(16) * (len as f64 - 1.0)) as usize;
            assert!(i == float || i + 1 == float);
        }
    }
}

#[test]
fn ranking_is_by_rising_score_and_stable() {
    assert_eq!(rank_scores(&vec![5, -3, 5, 0]), vec![1, 3, 0, 2]);
    assert_eq!(rank_scores(&vec![]), Vec::<usize>::new());
    assert_eq!(rank_scores(&vec![2, 2, 2]), vec![0, 1, 2]);
    assert_eq!(rank_scores(&vec![3, 2, 1]), vec![2, 1, 0]);
}

#[test]
fn ranked_pick_with_the_lowest_draw_leaves_the_opponent_least() {
    let board = Board::bench();
    let moves = board.generage_moves(Dice::new(6, 3));
    let evals = successor_evals(&board, &moves);
    for (m, e) in moves.iter().zip(evals.iter()) {
        let mut after = board;
        after.make_move_unchecked(*m);
        assert_eq!(*e, after.eval());
    }
    let lowest = *evals.iter().min().unwrap();
    let first = evals.iter().position(|e| *e == lowest).unwrap();
    assert_eq!(pick_ranked(&board, &moves, 0), first);
    let order = rank_scores(&evals);
    assert_eq!(
        pick_ranked(&board, &moves, 16000000),
        order[biased_index(16000000, moves.len())]
    );
}

#[test]
fn rolls_are_drawn_by_weight() {
    assert_eq!(roll_by_weight(0), Dice::new(1, 1));
    assert_eq!(roll_by_weight(1), Dice::new(1, 2));
    assert_eq!(roll_by_weight(2), Dice::new(1, 2));
    assert_eq!(roll_by_weight(10), Dice::new(1, 6));
    assert_eq!(roll_by_weight(11), Dice::new(2, 2));
    assert_eq!(roll_by_weight(34), Dice::new(5, 6));
    assert_eq!(roll_by_weight(35), Dice::new(6, 6));
    let mut seen = vec![0u32; 21];
    let all = Dice::all();
    for draw in 0..36 {
        let d = roll_by_weight(draw);
        seen[all.iter().position(|x| *x == d).unwrap()] += 1;
    }
    for (i, d) in all.iter().enumerate() {
        assert_eq!(seen[i], d.weight() as u32);
    }
}

#[test]
fn signed_eval_follows_the_root_player() {
    let board = Board::bench();
    assert_eq!(signed_eval(&board, Player::White), -70);
    assert_eq!(signed_eval(&board, Player::Black), 70);
    let mut other = board;
    other.switch_player();
    assert_eq!(signed_eval(&other, Player::White), -70);
    assert_eq!(signed_eval(&other, Player::Black), 70);
}

#[test]
fn random_moves_are_legal() {
    let board = Board::bench();
    for dice in Dice::all() {
        for _ in 0..5 {
            assert!(is_legal(&board, dice, &find_highest_eval_move(&board, dice)));
            assert!(is_legal(&board, dice, &choose_random_move(&board, dice)));
        }
    }
}

#[test]
fn play_outs_stay_within_the_score_range() {
    let board = Board::new();
    for depth in 0..6 {
        let v = simulate_random_game(&board, depth);
        assert!(v.abs() <= 3000);
    }
    assert_eq!(simulate_random_game(&Board::bench(), 0), -70);
    for _ in 0..20 {
        let r = simulate_rollout(board, Some(Dice::new(3, 1)), Player::Black);
        assert!(r.abs() <= 3000);
    }
    let over = Board::from_parts([0; 24], 0, 0, 15, 3, Player::White).unwrap();
    assert_eq!(simulate_rollout(over, None, Player::White), 1000);
    assert_eq!(simulate_rollout(over, None, Player::Black), -1000);
    assert_eq!(simulate_random_game(&over, 5), 1000);
}

#[test]
fn monte_carlo_search_returns_a_legal_move() {
    let board = Board::bench();
    let dice = Dice::new(1, 4);
    let m = monte_carlo_search(&board, dice, 3, 4);
    assert!(is_legal(&board, dice, &m));
    let first = monte_carlo_search(&board, dice, 0, 4);
    assert_eq!(first.get_half_moves(), board.generage_moves(dice)[0].get_half_moves());
}

#[test]
fn monte_carlo_search_finds_the_winning_move() {
    let mut points = [0i8; 24];
    points[23] = 1;
    points[18] = 1;
    points[0] = -3;
    let board = Board::from_parts(points, 0, 0, 13, 12, Player::White).unwrap();
    let dice = Dice::new(6, 1);
    let m = monte_carlo_search(&board, dice, 2, 1);
    let mut after = board;
    after.make_move_unchecked(m);
    assert_eq!(after.home(Player::White), 15);
    let t = mcts_search(board, dice, 60);
    let mut after = board;
    after.make_move_unchecked(t);
    assert_eq!(after.home(Player::White), 15);
}

#[test]
fn tree_search_returns_a_legal_move() {
    let board = Board::bench();
    let dice = Dice::new(6, 3);
    let moves = board.generage_moves(dice);
    let m = mcts_search(board, dice, 200);
    assert!(is_legal(&board, dice, &m));
    let none = mcts_search(board, dice, 0);
    assert_eq!(none.get_half_moves(), moves[0].get_half_moves());
}

#[test]
fn tree_nodes_try_every_move_before_selecting() {
    let board = Board::bench();
    let dice = Dice::new(6, 3);
    let moves = board.generage_moves(dice);
    let mut node = PlayerNode::new(board, dice);
    assert_eq!(node.most_visited().get_half_moves(), moves[0].get_half_moves());
    let r = node.traverse(Player::White);
    assert!(r.abs() <= 3000);
    assert_eq!(
        node.most_visited().get_half_moves(),
        moves[moves.len() - 1].get_half_moves()
    );
    for _ in 0..3 * moves.len() {
        node.traverse(Player::White);
    }
    assert!(is_legal(&board, dice, &node.most_visited()));
    let mut chance = ChanceNode::new(board);
    assert!(chance.simulate(Player::White).abs() <= 3000);
    for _ in 0..50 {
        assert!(chance.traverse(Player::Black).abs() <= 3000);
    }
}

#[test]
fn tree_search_at_the_end_of_the_game_keeps_the_score() {
    let over = Board::from_parts([0; 24], 0, 0, 15, 3, Player::White).unwrap();
    let mut node = ChanceNode::new(over);
    assert_eq!(node.traverse(Player::White), 1000);
    assert_eq!(node.traverse(Player::Black), -1000);
    let mut player = PlayerNode::new(over, Dice::new(2, 1));
    assert_eq!(player.traverse(Player::White), 1000);
    assert_eq!(player.most_visited().len(), 0);
}

#[test]
fn best_total_takes_the_first_of_equal_maxima() {
    assert_eq!(best_total(&vec![0]), 0);
    assert_eq!(best_total(&vec![-5, 7, 7, 3]), 1);
    assert_eq!(best_total(&vec![i128::MIN, i128::MAX, 0]), 1);
    assert_eq!(best_total(&vec![4, 4]), 0);
}

#[test]
fn chance_children_are_picked_by_weight() {
    let mut node = ChanceNode::new(Board::bench());
    node.traverse(Player::White);
    for draw in 0..36 {
        assert_eq!(node.pick_child(draw), 0);
    }
    for _ in 0..20 {
        node.traverse(Player::White);
    }
    assert_eq!(node.pick_child(0), 0);
    assert_eq!(node.pick_child(1), 1);
    assert_eq!(node.pick_child(2), 1);
    assert_eq!(node.pick_child(3), 2);
    assert_eq!(node.pick_child(4), 3);
    assert_eq!(node.pick_child(5), 3);
    assert_eq!(node.pick_child(6), 4);
    assert_eq!(node.pick_child(34), 19);
    assert_eq!(node.pick_child(35), 20);
    let mut hits = vec![0u32; 21];
    for draw in 0..36 {
        hits[node.pick_child(draw)] += 1;
    }
    let doubles = hits.iter().filter(|h| **h == 1).count();
    let others = hits.iter().filter(|h| **h == 2).count();
    assert_eq!((doubles, others), (6, 15));
}

#[test]
fn selection_prefers_the_better_child_among_equally_visited() {
    let mut points = [0i8; 24];
    points[23] = 1;
    points[18] = 1;
    points[0] = -3;
    let board = Board::from_parts(points, 0, 0, 13, 12, Player::White).unwrap();
    let dice = Dice::new(6, 1);
    let moves = board.generage_moves(dice);
    let winning = moves
        .iter()
        .position(|m| {
            let mut after = board;
            after.make_move_unchecked(*m);
            after.home(Player::White) == 15
        })
        .unwrap();
    let mut node = PlayerNode::new(board, dice);
    for _ in 0..moves.len() {
        node.traverse(Player::White);
    }
    let selected = node.select_child();
    assert!(selected < moves.len());
    assert_eq!(selected, moves.len() - 1 - winning);
}

#[test]
fn monte_carlo_search_without_play_out_takes_the_best_position() {
    for mover in [Player::White, Player::Black] {
        let mut board = Board::bench();
        if mover == Player::Black {
            board.switch_player();
        }
        for dice in [Dice::new(6, 3), Dice::new(2, 2), Dice::new(5, 1)] {
            let moves = board.generage_moves(dice);
            let scores: Vec<i128> = moves
                .iter()
                .map(|m| {
                    let mut after = board;
                    after.make_move_unchecked(*m);
                    -(after.eval() as i128) * 3
                })
                .collect();
            let got = monte_carlo_search(&board, dice, 3, 0);
            assert_eq!(
                got.get_half_moves(),
                moves[best_total(&scores)].get_half_moves()
            );
        }
    }
}

#[test]
fn play_outs_end_where_the_game_ends() {
    let over = Board::from_parts([0; 24], 0, 0, 15, 3, Player::White).unwrap();
    let mut node = ChanceNode::new(over);
    assert_eq!(node.simulate(Player::White), 1000);
    assert_eq!(node.simulate(Player::Black), -1000);
    let mut points = [0i8; 24];
    points[23] = 1;
    points[2] = -3;
    let last = Board::from_parts(points, 0, 0, 14, 12, Player::White).unwrap();
    let mut node = ChanceNode::new(last);
    for _ in 0..20 {
        assert_eq!(node.simulate(Player::White), 1000);
        assert_eq!(node.simulate(Player::Black), -1000);
        assert_eq!(simulate_rollout(last, None, Player::White), 1000);
        assert_eq!(simulate_rollout(last, Some(Dice::new(4, 2)), Player::Black), -1000);
        assert_eq!(simulate_random_game(&last, 3), 1000);
    }
}
