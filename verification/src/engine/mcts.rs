use vstd::prelude::*;
use crate::engine::fixed::{ucb, ucb_score};
use crate::engine::rollout::{
    drawn_step, is_play_out, lemma_nth_rolled, lemma_picked, lemma_play_out_grows, pick_ranked,
    played_out, rolled,
};
use crate::game::{Board, Dice, GameOutcome, Move, Player};
use crate::misc::chance::random_in;
use crate::rules::expect::{first_best, lemma_first_best};
use crate::rules::laws::playable;
use crate::rules::layout::{lemma_flipped_totals, Layout};
use crate::rules::roll::{all_rolls, nth_roll, weight, weight_upto, Roll};
use crate::rules::search::legal_moves;
use crate::rules::value::rank;

verus! {

/// How many moves a play-out lasts at most.
pub const ROLLOUT_DEPTH: usize = 2;

/// A node of the search tree at which a player, having rolled, chooses a
/// move.
pub struct PlayerNode {
    board: Board,
    dice: Dice,
    visits: u32,
    total_value: i64,
    untried_moves: Vec<Move>,
    children: Vec<(Move, ChanceNode)>,
}

/// A node of the search tree at which the dice are rolled.
pub struct ChanceNode {
    board: Board,
    visits: u32,
    total_value: i64,
    untried_rolls: Vec<Dice>,
    children: Vec<(Dice, PlayerNode)>,
}

impl PlayerNode {
    /// The node is consistent: its moves are legal moves of its position,
    /// each child stands for the position after its move and has been visited
    /// no more often than the node, and the values are within what the visits
    /// allow.
    pub closed spec fn wf(&self) -> bool
        decreases self,
    {
        &&& self.dice.wf()
        &&& self.board@.own_total() <= 15
        &&& self.board@.their_total() <= 15
        &&& -7500 * self.visits <= self.total_value <= 7500 * self.visits
        &&& self.untried_moves@.len() + self.children@.len() > 0
        &&& forall|i: int|
            0 <= i < self.untried_moves@.len() ==> self.legal(#[trigger] self.untried_moves@[i]@)
        &&& forall|i: int|
            0 <= i < self.children@.len() ==> {
                &&& self.legal((#[trigger] self.children@[i]).0@)
                &&& self.children@[i].1.board@ == self.board@.after_move(self.children@[i].0@)
                &&& 1 <= self.children@[i].1.visits <= self.visits
                &&& self.children@[i].1.wf()
            }
    }

    /// `steps` is one of the legal moves at this node.
    pub closed spec fn legal(&self, steps: Seq<crate::rules::layout::Step>) -> bool {
        legal_at(self.board, self.dice, steps)
    }
}

/// `steps` is one of the legal moves on `board` with `dice`.
pub open spec fn legal_at(board: Board, dice: Dice, steps: Seq<crate::rules::layout::Step>) -> bool {
    &&& playable(board@, steps)
    &&& exists|j: int|
        0 <= j < legal_moves(board@, dice@).len() && steps == #[trigger] legal_moves(
            board@,
            dice@,
        )[j]
}

impl ChanceNode {
    /// The node is consistent: each child stands for the same position with
    /// its roll and has been visited no more often than the node, and the
    /// values are within what the visits allow.
    pub closed spec fn wf(&self) -> bool
        decreases self,
    {
        &&& self.board@.own_total() <= 15
        &&& self.board@.their_total() <= 15
        &&& -7500 * self.visits <= self.total_value <= 7500 * self.visits
        &&& self.untried_rolls@.len() + self.children@.len() == 21
        &&& forall|i: int| 0 <= i < self.untried_rolls@.len() ==> (#[trigger] self.untried_rolls@[i]).wf()
        &&& forall|i: int|
            0 <= i < self.children@.len() ==> {
                &&& (#[trigger] self.children@[i]).0.wf()
                &&& self.children@[i].1.board@ == self.board@
                &&& self.children@[i].1.dice == self.children@[i].0
                &&& 1 <= self.children@[i].1.visits <= self.visits
                &&& self.children@[i].1.wf()
            }
    }

    /// The position at this node.
    pub closed spec fn position(&self) -> Board {
        self.board
    }

    /// How often the node has been visited.
    pub closed spec fn visit_count(&self) -> u32 {
        self.visits
    }

    /// The sum of the values found in the visits.
    pub closed spec fn value(&self) -> i64 {
        self.total_value
    }

    /// How many rolls have been tried.
    pub closed spec fn tried(&self) -> nat {
        self.children@.len()
    }

    /// The rolls that have not been tried, the next to be tried last.
    pub closed spec fn untried(&self) -> Seq<Roll> {
        self.untried_rolls@.map_values(|d: Dice| d@)
    }

    /// The rolls that have been tried, in the order in which they were.
    pub closed spec fn tried_rolls(&self) -> Seq<Roll> {
        self.children@.map_values(|c: (Dice, PlayerNode)| c.0@)
    }

    /// The node under the `i`-th roll that has been tried.
    pub closed spec fn tried_node(&self, i: int) -> PlayerNode {
        self.children@[i].1
    }

    /// The weights of the rolls that have been tried.
    pub open spec fn tried_weights(&self) -> Seq<int> {
        self.tried_rolls().map_values(|r: Roll| weight(r))
    }

    /// The node has been visited once, in a play-out that gave `reward`: it
    /// stands for `position` and has all 21 rolls to try.
    pub open spec fn first_visit(&self, position: Layout, reward: int) -> bool {
        &&& self.position()@ == position
        &&& self.visit_count() == 1
        &&& self.value() == reward
        &&& self.untried() == all_rolls()
        &&& self.tried() == 0
    }

    /// `after` is what one pass of the search that found `reward` for
    /// `root_player` makes of this node. At the end of the game the node
    /// stays and the reward is the score. Else the node counts one more
    /// visit and the reward, and either the last roll to try has become a
    /// child, visited once in a play-out that began with that roll, or the
    /// pass went on through the child that some draw out of 36 picks.
    pub open spec fn passed(&self, after: &ChanceNode, root_player: Player, reward: int) -> bool
        decreases self,
    {
        if rank(self.position()@) != 0 {
            *after == *self && reward == signed_score(self.position(), root_player)
        } else {
            &&& after.position() == self.position()
            &&& after.visit_count() == self.visit_count() + 1
            &&& after.value() == self.value() + reward
            &&& if self.untried().len() > 0 {
                &&& after.untried() == self.untried().drop_last()
                &&& after.tried_rolls() == self.tried_rolls().push(self.untried().last())
                &&& forall|i: int|
                    0 <= i < self.tried() ==> #[trigger] after.tried_node(i) == self.tried_node(i)
                &&& after.tried_node(self.tried() as int).first_visit(
                    self.position(),
                    self.untried().last(),
                    reward,
                )
                &&& played_out(
                    self.position()@,
                    Some(self.untried().last()),
                    true,
                    ROLLOUT_DEPTH as int,
                    root_player,
                    reward,
                )
            } else {
                &&& after.untried() == self.untried()
                &&& after.tried_rolls() == self.tried_rolls()
                &&& exists|draw: int|
                    {
                        let c = #[trigger] picked(self.tried_weights(), draw, 0);
                        &&& 0 <= draw < 36
                        &&& 0 <= c < self.tried()
                        &&& forall|i: int|
                            0 <= i < self.tried() && i != c ==> #[trigger] after.tried_node(i)
                                == self.tried_node(i)
                        &&& self.tried_node(c).passed(&after.tried_node(c), root_player, reward)
                    }
            }
        }
    }

    /// A node for `board` that has not been visited, with all 21 rolls to
    /// try.
    pub fn new(board: Board) -> (node: Self)
        requires
            board@.own_total() <= 15,
            board@.their_total() <= 15,
        ensures
            node.wf(),
            node.position() == board,
            node.visit_count() == 0,
            node.value() == 0,
            node.tried() == 0,
            node.untried() == all_rolls(),
    {
        let all = Dice::all();
        let mut untried_rolls: Vec<Dice> = Vec::new();
        let mut i: usize = 0;
        while i < 21
            invariant
                i <= 21,
                untried_rolls@.len() == i,
                all@.map_values(|d: Dice| d@) == all_rolls(),
                forall|j: int| 0 <= j < 21 ==> (#[trigger] all@[j]).wf(),
                forall|j: int| 0 <= j < i ==> (#[trigger] untried_rolls@[j]).wf(),
                forall|j: int| 0 <= j < i ==> (#[trigger] untried_rolls@[j]) == all@[j],
            decreases 21 - i,
        {
            untried_rolls.push(all[i]);
            i = i + 1;
        }
        let node = ChanceNode { board, visits: 0, total_value: 0, untried_rolls, children: Vec::new() };
        proof {
            assert forall|j: int| 0 <= j < 21 implies node.untried()[j] == all_rolls()[j] by {
                assert(all@.map_values(|d: Dice| d@)[j] == all@[j]@);
            }
            assert(node.untried() =~= all_rolls());
        }
        node
    }

    /// The value of a play-out from this node for `root_player`: the score
    /// of the position that `ROLLOUT_DEPTH` legal moves lead to, or fewer
    /// where the game is over before. The node stays as it is.
    pub fn simulate(&mut self, root_player: Player) -> (reward: i64)
        requires
            old(self).wf(),
        ensures
            *final(self) == *old(self),
            -7500 <= reward <= 7500,
            rank(old(self).position()@) != 0 ==> reward == signed_score(
                old(self).position(),
                root_player,
            ),
            played_out(
                old(self).position()@,
                None,
                true,
                ROLLOUT_DEPTH as int,
                root_player,
                reward as int,
            ),
    {
        simulate_rollout(self.board, None, root_player)
    }

    /// The child that the draw `draw` out of 36 picks: the first whose roll,
    /// counted with those before it by their weights, reaches beyond the
    /// draw; the first child where none does.
    pub fn pick_child(&self, draw: u32) -> (index: usize)
        requires
            self.wf(),
            self.tried() > 0,
        ensures
            index < self.tried(),
            index as int == picked(self.tried_weights(), draw as int, 0),
    {
        let ghost weights = self.tried_weights();
        let mut cum: u32 = 0;
        let mut i: usize = 0;
        while i < self.children.len()
            invariant
                i <= self.children@.len() <= 21,
                self.children@.len() > 0,
                weights == self.tried_weights(),
                weights.len() == self.children@.len(),
                cum as int == total_weight(weights, i as int),
                cum <= 2 * i,
                picked(weights, draw as int, 0) == picked(weights, draw as int, i as int),
            decreases self.children@.len() - i,
        {
            proof {
                assert(weights[i as int] == weight(self.children@[i as int].0@));
            }
            cum = cum + self.children[i].0.weight() as u32;
            if draw < cum {
                return i;
            }
            i = i + 1;
        }
        0
    }

    /// One pass of the search through this node: at the end of the game the
    /// score of the position; else a roll that has not been tried is tried
    /// and played out, or, when all have been, the pass goes on through a
    /// child drawn by the weight of its roll. Returns the value found for
    /// `root_player`, which is added to the node's own.
    pub fn traverse(&mut self, root_player: Player) -> (reward: i64)
        requires
            old(self).wf(),
            old(self).visit_count() < u32::MAX,
        ensures
            final(self).wf(),
            final(self).position() == old(self).position(),
            -7500 <= reward <= 7500,
            rank(old(self).position()@) != 0 ==> *final(self) == *old(self) && reward == signed_score(
                old(self).position(),
                root_player,
            ),
            old(self).passed(final(self), root_player, reward as int),
        decreases *old(self),
    {
        if self.board.outcome() != GameOutcome::Ongoing {
            return signed_eval(&self.board, root_player);
        }
        let ghost start = *self;
        if let Some(dice) = self.untried_rolls.pop() {
            let mut child = PlayerNode::new(self.board, dice);
            let reward = simulate_rollout(child.board, Some(child.dice), root_player);
            child.visits = 1;
            child.total_value = reward;
            self.children.push((dice, child));
            self.visits = self.visits + 1;
            self.total_value = self.total_value + reward;
            proof {
                assert(start.untried().last() == dice@);
                assert(self.untried() =~= start.untried().drop_last());
                assert(self.tried_rolls() =~= start.tried_rolls().push(dice@));
                assert(self.tried_node(start.tried() as int) == child);
                assert(start.passed(&*self, root_player, reward as int));
            }
            return reward;
        }
        let draw = random_in(0, 35);
        let chosen_index = self.pick_child(draw);
        let ghost before = self.children@;
        let (dice, mut child) = self.children.remove(chosen_index);
        let reward = child.traverse(root_player);
        self.children.insert(chosen_index, (dice, child));
        self.visits = self.visits + 1;
        self.total_value = self.total_value + reward;
        proof {
            assert forall|i: int| 0 <= i < self.children@.len() implies {
                &&& (#[trigger] self.children@[i]).0.wf()
                &&& self.children@[i].1.board@ == self.board@
                &&& self.children@[i].1.dice == self.children@[i].0
                &&& 1 <= self.children@[i].1.visits <= self.visits
                &&& self.children@[i].1.wf()
            } by {
                if i != chosen_index {
                    assert(self.children@[i] == before[i]);
                }
            }
            assert(self.untried() =~= start.untried());
            assert(self.tried_rolls() =~= start.tried_rolls());
            let c = picked(start.tried_weights(), draw as int, 0);
            assert(c == chosen_index);
            assert forall|i: int| 0 <= i < start.tried() && i != c implies #[trigger] self.tried_node(
                i,
            ) == start.tried_node(i) by {
                assert(self.children@[i] == before[i]);
            }
            assert(start.tried_node(c).passed(&self.tried_node(c), root_player, reward as int));
            assert(start.passed(&*self, root_player, reward as int));
        }
        reward
    }
}

impl PlayerNode {
    /// The position at this node.
    pub closed spec fn position(&self) -> Board {
        self.board
    }

    /// The dice at this node.
    pub closed spec fn roll(&self) -> Dice {
        self.dice
    }

    /// How often the node has been visited.
    pub closed spec fn visit_count(&self) -> u32 {
        self.visits
    }

    /// The sum of the values found in the visits.
    pub closed spec fn value(&self) -> i64 {
        self.total_value
    }

    /// The moves that have not been tried, the next to be tried last.
    pub closed spec fn untried(&self) -> Seq<Seq<crate::rules::layout::Step>> {
        self.untried_moves@.map_values(|m: Move| m@)
    }

    /// The moves that have been tried, in the order in which they were.
    pub closed spec fn tried(&self) -> Seq<Seq<crate::rules::layout::Step>> {
        self.children@.map_values(|c: (Move, ChanceNode)| c.0@)
    }

    /// The node under the `i`-th move that has been tried.
    pub closed spec fn tried_node(&self, i: int) -> ChanceNode {
        self.children@[i].1
    }

    /// How often each tried move has been visited.
    pub open spec fn tried_visits(&self) -> Seq<int> {
        Seq::new(self.tried().len(), |i: int| self.tried_node(i).visit_count() as int)
    }

    /// The node has not been visited: it stands for `board` with `dice` and
    /// has all legal moves to try.
    pub open spec fn is_new(&self, board: Board, dice: Dice) -> bool {
        &&& self.position() == board
        &&& self.roll() == dice
        &&& self.visit_count() == 0
        &&& self.value() == 0
        &&& self.untried() == legal_moves(board@, dice@)
        &&& self.tried().len() == 0
    }

    /// The node has been visited once, in a play-out that gave `reward`: it
    /// stands for `board` with the roll `roll` and has all legal moves to
    /// try.
    pub open spec fn first_visit(&self, board: Board, roll: Roll, reward: int) -> bool {
        &&& self.position() == board
        &&& self.roll()@ == roll
        &&& self.visit_count() == 1
        &&& self.value() == reward
        &&& self.untried() == legal_moves(board@, roll)
        &&& self.tried().len() == 0
    }

    /// The move to play after the search: the tried move that has been
    /// visited most, the first such; the first legal move where none has
    /// been tried.
    pub open spec fn chosen(&self) -> Seq<crate::rules::layout::Step> {
        if self.tried().len() == 0 {
            self.untried()[0]
        } else {
            self.tried()[first_best(self.tried_visits(), self.tried().len() as int)]
        }
    }

    /// `after` is what one pass of the search that found `reward` for
    /// `root_player` makes of this node. At the end of the game the node
    /// stays and the reward is the score. Else the node counts one more
    /// visit and the reward, and either the last move to try has become a
    /// child, visited once in a play-out from the position after it, or the
    /// pass went on through the child with the best selection score.
    pub open spec fn passed(&self, after: &PlayerNode, root_player: Player, reward: int) -> bool
        decreases self,
    {
        if rank(self.position()@) != 0 {
            *after == *self && reward == signed_score(self.position(), root_player)
        } else {
            &&& after.position() == self.position()
            &&& after.roll() == self.roll()
            &&& after.visit_count() == self.visit_count() + 1
            &&& after.value() == self.value() + reward
            &&& if self.untried().len() > 0 {
                &&& after.untried() == self.untried().drop_last()
                &&& after.tried() == self.tried().push(self.untried().last())
                &&& forall|i: int|
                    0 <= i < self.tried().len() ==> #[trigger] after.tried_node(i)
                        == self.tried_node(i)
                &&& after.tried_node(self.tried().len() as int).first_visit(
                    self.position()@.after_move(self.untried().last()),
                    reward,
                )
                &&& played_out(
                    self.position()@.after_move(self.untried().last()),
                    None,
                    true,
                    ROLLOUT_DEPTH as int,
                    root_player,
                    reward,
                )
            } else {
                &&& after.untried() == self.untried()
                &&& after.tried() == self.tried()
                &&& exists|scores: Seq<int>|
                    {
                        let c = first_best(scores, scores.len() as int);
                        &&& #[trigger] self.scored(scores)
                        &&& 0 <= c < self.tried().len()
                        &&& forall|i: int|
                            0 <= i < self.tried().len() && i != c ==> #[trigger] after.tried_node(i)
                                == self.tried_node(i)
                        &&& self.tried_node(c).passed(&after.tried_node(c), root_player, reward)
                    }
            }
        }
    }

    /// A node for `board` with `dice` that has not been visited, with all
    /// legal moves to try.
    pub fn new(board: Board, dice: Dice) -> (node: Self)
        requires
            dice.wf(),
            board@.own_total() <= 15,
            board@.their_total() <= 15,
        ensures
            node.wf(),
            node.position() == board,
            node.roll() == dice,
            node.visit_count() == 0,
            node.value() == 0,
            node.untried() == legal_moves(board@, dice@),
            node.tried().len() == 0,
    {
        let untried_moves = board.generage_moves(dice);
        proof {
            assert forall|i: int| 0 <= i < untried_moves@.len() implies exists|j: int|
                0 <= j < legal_moves(board@, dice@).len() && (#[trigger] untried_moves@[i])@
                    == #[trigger] legal_moves(board@, dice@)[j] by {
                assert(crate::game::board::moves_of(untried_moves@)[i] == untried_moves@[i]@);
            }
        }
        PlayerNode { board, dice, visits: 0, total_value: 0, untried_moves, children: Vec::new() }
    }

    /// `scores` holds a selection score for each tried move.
    pub open spec fn scored(&self, scores: Seq<int>) -> bool {
        &&& scores.len() == self.tried().len()
        &&& forall|i: int|
            0 <= i < scores.len() ==> ucb(
                self.tried_node(i).value() as int,
                self.tried_node(i).visit_count() as int,
                self.visit_count() as int,
                #[trigger] scores[i],
            )
    }

    /// The tried move through which the search goes on: the one with the best
    /// selection score, the first such.
    pub fn select_child(&self) -> (index: usize)
        requires
            self.wf(),
            self.tried().len() > 0,
        ensures
            index < self.tried().len(),
            exists|scores: Seq<int>| #[trigger]
                self.scored(scores) && index as int == first_best(scores, scores.len() as int),
    {
        let mut best_score: i64 = i64::MIN;
        let mut best_index: usize = 0;
        let mut i: usize = 0;
        let ghost mut scores: Seq<int> = Seq::empty();
        while i < self.children.len()
            invariant
                i <= self.children@.len(),
                self.children@.len() > 0,
                self.wf(),
                scores.len() == i,
                forall|j: int|
                    0 <= j < i ==> ucb(
                        self.children@[j].1.total_value as int,
                        self.children@[j].1.visits as int,
                        self.visits as int,
                        #[trigger] scores[j],
                    ) && -600000000 <= scores[j],
                i == 0 ==> best_score == i64::MIN && best_index == 0,
                i > 0 ==> best_index as int == first_best(scores, i as int) && best_index < i
                    && best_score as int == scores[best_index as int],
            decreases self.children@.len() - i,
        {
            let score = ucb_score(self.children[i].1.total_value, self.children[i].1.visits, self.visits);
            proof {
                let before = scores;
                scores = scores.push(score as int);
                lemma_first_best_prefix(before, scores, i as int);
            }
            if score > best_score {
                best_score = score;
                best_index = i;
            }
            i = i + 1;
        }
        proof {
            assert(self.scored(scores));
        }
        best_index
    }

    /// One pass of the search through this node: at the end of the game the
    /// score of the position; else a move that has not been tried is tried
    /// and played out, or, when all have been, the pass goes on through the
    /// child with the best selection score, the first such. Returns the value
    /// found for `root_player`, which is added to the node's own.
    pub fn traverse(&mut self, root_player: Player) -> (reward: i64)
        requires
            old(self).wf(),
            old(self).visit_count() < u32::MAX,
        ensures
            final(self).wf(),
            final(self).position() == old(self).position(),
            final(self).roll() == old(self).roll(),
            -7500 <= reward <= 7500,
            rank(old(self).position()@) != 0 ==> *final(self) == *old(self) && reward == signed_score(
                old(self).position(),
                root_player,
            ),
            old(self).passed(final(self), root_player, reward as int),
        decreases *old(self),
    {
        if self.board.outcome() != GameOutcome::Ongoing {
            return signed_eval(&self.board, root_player);
        }
        let ghost start = *self;
        if let Some(mov) = self.untried_moves.pop() {
            let mut next_board = self.board.clone();
            proof {
                lemma_flipped_totals(self.board@.play(mov@, mov@.len() as int));
            }
            next_board.make_move_unchecked(mov);
            let mut child = ChanceNode::new(next_board);
            let reward = child.simulate(root_player);
            child.visits = 1;
            child.total_value = reward;
            self.children.push((mov, child));
            self.visits = self.visits + 1;
            self.total_value = self.total_value + reward;
            proof {
                assert(start.untried().last() == mov@);
                assert(self.untried() =~= start.untried().drop_last());
                assert(self.tried() =~= start.tried().push(mov@));
                assert(self.tried_node(start.tried().len() as int) == child);
                assert(start.passed(&*self, root_player, reward as int));
            }
            return reward;
        }
        let ghost mid = *self;
        let best_index = self.select_child();
        let ghost before = self.children@;
        let (mov, mut child) = self.children.remove(best_index);
        let reward = child.traverse(root_player);
        self.children.insert(best_index, (mov, child));
        self.visits = self.visits + 1;
        self.total_value = self.total_value + reward;
        proof {
            assert forall|i: int| 0 <= i < self.children@.len() implies {
                &&& self.legal((#[trigger] self.children@[i]).0@)
                &&& self.children@[i].1.board@ == self.board@.after_move(self.children@[i].0@)
                &&& 1 <= self.children@[i].1.visits <= self.visits
                &&& self.children@[i].1.wf()
            } by {
                if i != best_index {
                    assert(self.children@[i] == before[i]);
                }
            }
            assert(self.untried() =~= start.untried());
            assert(self.tried() =~= start.tried()) by {
                assert forall|i: int| 0 <= i < before.len() implies self.children@[i].0
                    == before[i].0 by {
                    if i != best_index {
                        assert(self.children@[i] == before[i]);
                    }
                }
            }
            let scores = choose|scores: Seq<int>| #[trigger]
                mid.scored(scores) && best_index as int == first_best(
                    scores,
                    scores.len() as int,
                );
            assert(mid.children == start.children);
            assert(mid.tried() == start.tried());
            assert(start.scored(scores)) by {
                assert forall|i: int| 0 <= i < scores.len() implies ucb(
                    start.tried_node(i).value() as int,
                    start.tried_node(i).visit_count() as int,
                    start.visit_count() as int,
                    #[trigger] scores[i],
                ) by {
                    assert(mid.tried_node(i) == start.tried_node(i));
                }
            }
            let c = first_best(scores, scores.len() as int);
            assert forall|i: int|
                0 <= i < start.tried().len() && i != c implies #[trigger] self.tried_node(i)
                == start.tried_node(i) by {
                assert(self.children@[i] == before[i]);
            }
            assert(start.tried_node(c).passed(&self.tried_node(c), root_player, reward as int));
            assert(start.passed(&*self, root_player, reward as int));
        }
        reward
    }

    /// The move to play after the search: the move of the child that has
    /// been visited most, the first such; where no move has been tried, the
    /// first legal move.
    pub fn most_visited(&self) -> (m: Move)
        requires
            self.wf(),
        ensures
            self.legal(m@),
            m@ == self.chosen(),
    {
        let mut best_move = if self.untried_moves.len() > 0 {
            self.untried_moves[0]
        } else {
            self.children[0].0
        };
        let mut best_visits: u32 = 0;
        let mut i: usize = 0;
        let ghost visits_seq = self.tried_visits();
        proof {
            if self.untried_moves@.len() > 0 {
                assert(self.untried()[0] == self.untried_moves@[0]@);
            }
        }
        while i < self.children.len()
            invariant
                i <= self.children@.len(),
                self.wf(),
                self.legal(best_move@),
                visits_seq == self.tried_visits(),
                i == 0 ==> best_visits == 0 && (self.tried().len() == 0 ==> best_move@
                    == self.untried()[0]),
                i > 0 ==> best_visits == visits_seq[first_best(visits_seq, i as int)] && best_move@
                    == self.tried()[first_best(visits_seq, i as int)] && 0 <= first_best(
                    visits_seq,
                    i as int,
                ) < i,
            decreases self.children@.len() - i,
        {
            let visits = self.children[i].1.visits;
            proof {
                assert(visits_seq[i as int] == visits);
                assert(self.tried()[i as int] == self.children@[i as int].0@);
                assert(self.children@[i as int].1.visits >= 1);
            }
            if visits > best_visits {
                best_visits = visits;
                best_move = self.children[i].0;
            }
            i = i + 1;
        }
        proof {
            if self.children@.len() > 0 {
                lemma_first_best(visits_seq, self.children@.len() as int);
            }
        }
        best_move
    }
}

/// The first `n` weights together.
pub open spec fn total_weight(weights: Seq<int>, n: int) -> int
    decreases n,
{
    if n <= 0 {
        0
    } else {
        total_weight(weights, n - 1) + weights[n - 1]
    }
}

/// The first index from `i` on at which the weights so far reach beyond
/// `draw`; 0 where there is none.
pub open spec fn picked(weights: Seq<int>, draw: int, i: int) -> int
    decreases weights.len() - i,
{
    if i < 0 || i >= weights.len() {
        0
    } else if draw < total_weight(weights, i + 1) {
        i
    } else {
        picked(weights, draw, i + 1)
    }
}

/// The first best index depends on the scores looked at alone.
proof fn lemma_first_best_prefix(a: Seq<int>, b: Seq<int>, n: int)
    requires
        0 <= n <= a.len(),
        n <= b.len(),
        forall|i: int| 0 <= i < n ==> a[i] == b[i],
    ensures
        first_best(a, n) == first_best(b, n),
        n >= 1 ==> 0 <= first_best(a, n) < n,
    decreases n,
{
    if n > 1 {
        lemma_first_best_prefix(a, b, n - 1);
    }
}

/// The score of `board` for `root_player`.
pub open spec fn signed_score(board: Board, root_player: Player) -> int {
    if root_player == board.mover() {
        crate::rules::value::score(board@)
    } else {
        -crate::rules::value::score(board@)
    }
}

/// The score of `board` for `root_player`.
pub fn signed_eval(board: &Board, root_player: Player) -> (v: i64)
    ensures
        v as int == signed_score(*board, root_player),
        -7500 <= v <= 7500,
{
    let val = board.eval() as i64;
    if board.active_player() == root_player {
        val
    } else {
        -val
    }
}

/// The roll that the draw `draw` out of 36 stands for: each of the 21 rolls
/// has as many draws as it has ways to come up, in the order of the rolls.
pub fn roll_by_weight(draw: u32) -> (dice: Dice)
    requires
        draw < 36,
    ensures
        dice.wf(),
        exists|i: int|
            0 <= i < 21 && dice@ == #[trigger] nth_roll(i) && weight_upto(i) <= draw < weight_upto(
                i + 1,
            ),
{
    let all = Dice::all();
    let mut cum: u32 = 0;
    let mut i: usize = 0;
    proof {
        crate::rules::roll::lemma_all_rolls();
    }
    while i < 20
        invariant
            i <= 20,
            cum as int == weight_upto(i as int),
            cum <= 2 * i,
            cum <= draw < 36,
            all@.map_values(|d: Dice| d@) == all_rolls(),
            forall|j: int| 0 <= j < 21 ==> (#[trigger] all@[j]).wf(),
            weight_upto(21) == 36,
        decreases 20 - i,
    {
        let d = all[i];
        proof {
            assert(all@.map_values(|d: Dice| d@)[i as int] == d@);
            assert(weight_upto(i as int + 1) == weight_upto(i as int) + weight(nth_roll(i as int)));
        }
        if draw < cum + d.weight() as u32 {
            return d;
        }
        cum = cum + d.weight() as u32;
        i = i + 1;
    }
    proof {
        assert(all@.map_values(|d: Dice| d@)[20] == all@[20]@);
        assert(weight_upto(21) == weight_upto(20) + weight(nth_roll(20)));
    }
    all[20]
}

/// Plays on from `board` for at most `ROLLOUT_DEPTH` moves and returns the
/// score of the last position for `root_player`. The first roll is
/// `opt_dice` if given; every other roll is drawn by weight, every move by
/// `pick_ranked`. The play-out stops early when the game is over.
pub fn simulate_rollout(board: Board, opt_dice: Option<Dice>, root_player: Player) -> (reward: i64)
    requires
        board@.own_total() <= 15,
        board@.their_total() <= 15,
        opt_dice matches Some(d) ==> d.wf(),
    ensures
        -7500 <= reward <= 7500,
        rank(board@) != 0 ==> reward == signed_score(board, root_player),
        played_out(
            board@,
            first_roll(opt_dice),
            true,
            ROLLOUT_DEPTH as int,
            root_player,
            reward as int,
        ),
{
    let ghost start = board;
    let ghost first = first_roll(opt_dice);
    let ghost mut path: Seq<Layout> = seq![board@];
    let mut board = board;
    let mut opt_dice = opt_dice;
    let mut i: usize = 0;
    while i < ROLLOUT_DEPTH
        invariant
            board@.own_total() <= 15,
            board@.their_total() <= 15,
            opt_dice matches Some(d) ==> d.wf(),
            i <= ROLLOUT_DEPTH,
            i == 0 ==> board == start && first == first_roll(opt_dice),
            i > 0 ==> rank(start@) == 0 && opt_dice is None,
            is_play_out(path, first, true),
            path.len() == i + 1,
            path[0] == start@,
            path.last() == board@,
        ensures
            i <= ROLLOUT_DEPTH,
            i == 0 ==> board == start,
            i > 0 ==> rank(start@) == 0,
            is_play_out(path, first, true),
            path.len() == i + 1,
            path[0] == start@,
            path.last() == board@,
            i == ROLLOUT_DEPTH || rank(board@) != 0,
        decreases ROLLOUT_DEPTH - i,
    {
        if board.outcome() != GameOutcome::Ongoing {
            break ;
        }
        let ghost given = opt_dice is Some;
        let dice = match opt_dice {
            Some(d) => d,
            None => roll_by_weight(random_in(0, 35)),
        };
        proof {
            if !given {
                let n = choose|n: int| 0 <= n < 21 && dice@ == #[trigger] nth_roll(n);
                lemma_nth_rolled(n);
            }
        }
        opt_dice = None;
        let ghost before = board@;
        let moves = board.generage_moves(dice);
        if moves.len() > 0 {
            let draw = random_in(0, 16777215);
            let index = pick_ranked(&board, &moves, draw);
            let best = moves[index];
            proof {
                lemma_flipped_totals(board@.play(best@, best@.len() as int));
                lemma_picked(before, dice@, moves@, draw as int, index as int);
            }
            board.make_move_unchecked(best);
        }
        i = i + 1;
        proof {
            assert(drawn_step(before, dice@, board@));
            lemma_play_out_grows(path, first, true, board@, dice@);
            path = path.push(board@);
        }
    }
    signed_eval(&board, root_player)
}

/// The roll of the dice that a play-out is to begin with, if any.
pub open spec fn first_roll(opt_dice: Option<Dice>) -> Option<Roll> {
    match opt_dice {
        Some(d) => Some(d@),
        None => None,
    }
}

/// `tree` is what `n` passes of the search for `root_player` make of a new
/// node for `board` with `dice`.
pub open spec fn grown(tree: PlayerNode, board: Board, dice: Dice, root_player: Player, n: nat) -> bool
    decreases n,
{
    if n == 0 {
        tree.is_new(board, dice)
    } else {
        exists|before: PlayerNode, reward: int|
            grown(before, board, dice, root_player, (n - 1) as nat) && #[trigger] before.passed(
                &tree,
                root_player,
                reward,
            )
    }
}

/// The move that a tree search of `iterations` passes from `root_board`
/// with `dice` has tried most often: the passes grow a tree for the player
/// to move, and the move is the one chosen at its root.
pub fn mcts_search(root_board: Board, dice: Dice, iterations: u32) -> (m: Move)
    requires
        dice.wf(),
        root_board@.own_total() <= 15,
        root_board@.their_total() <= 15,
    ensures
        playable(root_board@, m@),
        exists|j: int|
            0 <= j < legal_moves(root_board@, dice@).len() && m@ == #[trigger] legal_moves(
                root_board@,
                dice@,
            )[j],
        iterations == 0 || rank(root_board@) != 0 ==> m@ == legal_moves(root_board@, dice@)[0],
        exists|tree: PlayerNode| #[trigger]
            grown(tree, root_board, dice, root_board.mover(), iterations as nat) && tree.wf() && m@
                == tree.chosen(),
{
    let root_player = root_board.active_player();
    let mut root_node = PlayerNode::new(root_board, dice);
    let mut i: u32 = 0;
    while i < iterations
        invariant
            i <= iterations,
            root_node.wf(),
            root_node.visit_count() <= i,
            root_node.position() == root_board,
            root_node.roll() == dice,
            root_player == root_board.mover(),
            i == 0 || rank(root_board@) != 0 ==> root_node.tried().len() == 0 && root_node.untried()
                == legal_moves(root_board@, dice@),
            grown(root_node, root_board, dice, root_player, i as nat),
        decreases iterations - i,
    {
        let ghost before = root_node;
        let reward = root_node.traverse(root_player);
        i = i + 1;
        proof {
            assert(before.passed(&root_node, root_player, reward as int));
            assert(grown(before, root_board, dice, root_player, (i - 1) as nat));
        }
    }
    root_node.most_visited()
}

} // verus!
