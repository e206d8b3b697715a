//! Move selection: an expectimax search with alpha-beta windows over the
//! chance tree of the game, random play-outs, and a Monte-Carlo tree search.
//! Scores and chances are kept in fixed point, so that every result is a
//! function of the position, the dice and the numbers drawn.

pub mod expectimax;
pub mod fixed;
pub mod mcts;
pub mod rollout;

pub use expectimax::{
    alpha_beta, average_eval, find_best_move, new_table, pick_best, score_move, search_eval,
};
pub use rollout::{
    best_total, biased_index, choose_random_move, find_highest_eval_move, monte_carlo_search, pick_ranked,
    rank_scores, simulate_random_game, successor_evals,
};
pub use mcts::{mcts_search, roll_by_weight, signed_eval, simulate_rollout, ChanceNode, PlayerNode};
