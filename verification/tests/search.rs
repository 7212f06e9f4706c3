use std::cell::Cell;
use std::marker::PhantomData;

use mcts::game::{Game, Outcome, Status, FULL_REWARD};
use mcts::node::MonteCarloTreeNode;
use mcts::search::{iteration, monte_carlo_tree_search, run, search_tree, MonteCarloTreeSearch};

fn upper_confidence_bound(cumulative_reward: f64, games: f64, total_game_count: f64, c: f64) -> f64 {
    let win_rate = cumulative_reward / games;
    win_rate + c * f64::sqrt(f64::ln(total_game_count) / games)
}

fn order_key(value: f64) -> u64 {
    let bits = value.to_bits();
    if bits >> 63 == 0 {
        bits | (1u64 << 63)
    } else {
        !bits
    }
}

/// Upper confidence bounds with the exploration constant 0.4, and a tally
/// of the selections made at the root.
struct Ucb1<G: Game> {
    root_selections: Vec<(G::Choice, u64)>,
    iterations_seen: u64,
    phantom: PhantomData<G>,
}

impl<G: Game> Ucb1<G> {
    fn new() -> Self {
        Ucb1 { root_selections: Vec::new(), iterations_seen: 0, phantom: PhantomData }
    }
}

impl<G: Game> MonteCarloTreeSearch for Ucb1<G> {
    type Game = G;

    fn get_selection_value(
        &self,
        _game: &G,
        parent: &MonteCarloTreeNode<G>,
        child: &MonteCarloTreeNode<G>,
    ) -> u64 {
        let total = parent.total_game_count(child);
        order_key(upper_confidence_bound(
            child.cumulative_reward as f64 / FULL_REWARD as f64,
            child.games as f64,
            total as f64,
            0.4,
        ))
    }

    fn after_iteration(&mut self, _game: &G, _outcome: G::Outcome) {
        self.iterations_seen += 1;
    }
}

#[derive(Clone, Copy, Debug, PartialEq, Eq)]
enum Pick {
    A,
    B,
}

#[derive(Clone)]
struct Paid(Pick);

impl Outcome<u8> for Paid {
    fn reward_for(&self, _player_id: u8) -> u64 {
        match self.0 {
            Pick::A => FULL_REWARD,
            Pick::B => 0,
        }
    }
}

/// One player, one move: `A` pays the full reward, `B` nothing.
#[derive(Clone)]
struct OneStep {
    taken: Option<Pick>,
}

impl Game for OneStep {
    type Choice = Pick;
    type PlayerId = u8;
    type Outcome = Paid;

    fn valid(&self) -> bool {
        unreachable!()
    }

    fn active_player(&self) -> Option<u8> {
        unreachable!()
    }

    fn legal(&self, _choice: Pick) -> bool {
        unreachable!()
    }

    fn horizon(&self) -> u64 {
        unreachable!()
    }

    fn laws() {
    }

    fn same_choice(a: &Pick, b: &Pick) -> bool {
        a == b
    }

    fn get_all_choices(&self) -> Vec<Pick> {
        vec![Pick::A, Pick::B]
    }

    fn apply_choice(&mut self, choice: &Pick) {
        self.taken = Some(*choice);
    }

    fn status(&self) -> Status<u8, Paid> {
        match self.taken {
            None => Status::AwaitingAction(0),
            Some(pick) => Status::Terminated(Paid(pick)),
        }
    }
}

#[test]
fn one_step_game_prefers_the_paying_action() {
    for iterations in 3..40 {
        for _ in 0..20 {
            let mut search: Ucb1<OneStep> = Ucb1::new();
            let (choice, stats) =
                monte_carlo_tree_search(&mut search, OneStep { taken: None }, iterations);
            assert_eq!(choice, Pick::A);
            assert_eq!(stats.tree_games, iterations as u64);
            assert_eq!(search.iterations_seen, iterations as u64);
        }
    }
}

#[test]
fn two_iterations_visit_each_action_once() {
    for _ in 0..20 {
        let mut search: Ucb1<OneStep> = Ucb1::new();
        let tree = search_tree(&mut search, &OneStep { taken: None }, 2);
        assert_eq!(tree.games, 2);
        assert_eq!(tree.children.len(), 2);
        assert_eq!(tree.children[0].games, 1);
        assert_eq!(tree.children[1].games, 1);
        assert_eq!(tree.cumulative_reward, FULL_REWARD as u128);
    }
}

#[test]
fn no_iterations_leave_a_bare_root() {
    let mut search: Ucb1<OneStep> = Ucb1::new();
    let tree = search_tree(&mut search, &OneStep { taken: None }, 0);
    assert!(tree.is_root());
    assert_eq!(tree.games, 0);
    assert_eq!(tree.cumulative_reward, 0);
    assert_eq!(tree.player_id, 0);
    assert!(tree.children.is_empty());
    assert!(tree.choice_availability_count.is_empty());
    assert_eq!(tree.most_visited(), None);
}

#[test]
fn a_finished_game_is_recorded_at_the_node() {
    let mut search: Ucb1<OneStep> = Ucb1::new();
    let mut node: MonteCarloTreeNode<OneStep> = MonteCarloTreeNode::new(0, None);
    let mut game = OneStep { taken: Some(Pick::A) };
    let outcome = iteration(&mut search, &mut node, &mut game);
    assert_eq!(outcome.0, Pick::A);
    assert_eq!(node.games, 1);
    assert_eq!(node.cumulative_reward, FULL_REWARD as u128);
    assert!(node.children.is_empty());
    let mut game = OneStep { taken: Some(Pick::B) };
    iteration(&mut search, &mut node, &mut game);
    assert_eq!(node.games, 2);
    assert_eq!(node.cumulative_reward, FULL_REWARD as u128);
}

#[test]
fn run_plays_to_the_end() {
    let mut search: Ucb1<OneStep> = Ucb1::new();
    let mut game = OneStep { taken: None };
    run(&mut search, &mut game, 10);
    assert_eq!(game.taken, Some(Pick::A));
}

#[derive(Clone)]
struct WonBy(u8);

impl Outcome<u8> for WonBy {
    fn reward_for(&self, player_id: u8) -> u64 {
        if self.0 == player_id {
            FULL_REWARD
        } else {
            0
        }
    }
}

/// Two players, one move by player 0: action `k` is won by player `k % 2`.
#[derive(Clone)]
struct Duel {
    actions: u8,
    taken: Option<u8>,
}

impl Game for Duel {
    type Choice = u8;
    type PlayerId = u8;
    type Outcome = WonBy;

    fn valid(&self) -> bool {
        unreachable!()
    }

    fn active_player(&self) -> Option<u8> {
        unreachable!()
    }

    fn legal(&self, _choice: u8) -> bool {
        unreachable!()
    }

    fn horizon(&self) -> u64 {
        unreachable!()
    }

    fn laws() {
    }

    fn same_choice(a: &u8, b: &u8) -> bool {
        a == b
    }

    fn get_all_choices(&self) -> Vec<u8> {
        (0..self.actions).collect()
    }

    fn apply_choice(&mut self, choice: &u8) {
        self.taken = Some(*choice);
    }

    fn status(&self) -> Status<u8, WonBy> {
        match self.taken {
            None => Status::AwaitingAction(0),
            Some(action) => Status::Terminated(WonBy(action % 2)),
        }
    }
}

/// A search that tallies which child of the root each iteration selected.
struct Tally {
    selections: Vec<u64>,
}

impl MonteCarloTreeSearch for Tally {
    type Game = Duel;

    fn get_selection_value(
        &self,
        _game: &Duel,
        parent: &MonteCarloTreeNode<Duel>,
        child: &MonteCarloTreeNode<Duel>,
    ) -> u64 {
        let total = parent.total_game_count(child);
        order_key(upper_confidence_bound(
            child.cumulative_reward as f64 / FULL_REWARD as f64,
            child.games as f64,
            total as f64,
            0.4,
        ))
    }

    fn after_selection(&mut self, _game: &Duel, selected: &MonteCarloTreeNode<Duel>) {
        self.selections[selected.choice.unwrap() as usize] += 1;
    }
}

#[test]
fn visits_and_rewards_add_up_in_a_one_ply_duel() {
    for iterations in [1usize, 2, 5, 17, 200] {
        let mut search = Tally { selections: vec![0; 5] };
        let game = Duel { actions: 5, taken: None };
        let tree = search_tree(&mut search, &game, iterations);
        assert_eq!(tree.games, iterations as u64);
        assert_eq!(tree.children.len(), 5);
        let mut visits = 0;
        let mut paid_to_root: u128 = 0;
        for child in &tree.children {
            let action = child.choice.unwrap();
            assert_eq!(child.games, search.selections[action as usize]);
            assert_eq!(child.player_id, 0);
            assert!(child.children.is_empty());
            visits += child.games;
            if action % 2 == 0 {
                paid_to_root += child.games as u128 * FULL_REWARD as u128;
                assert_eq!(child.cumulative_reward, child.games as u128 * FULL_REWARD as u128);
            } else {
                assert_eq!(child.cumulative_reward, 0);
            }
        }
        assert_eq!(visits, iterations as u64);
        assert_eq!(tree.cumulative_reward, paid_to_root);
        let best = tree.most_visited().unwrap();
        assert_eq!(tree.children[best].games, search.selections[tree.children[best].choice.unwrap() as usize]);
        for child in &tree.children {
            assert!(child.games <= tree.children[best].games);
        }
    }
}

#[test]
fn the_search_reports_the_totals_of_the_root() {
    let mut search = Tally { selections: vec![0; 4] };
    let (choice, stats) =
        monte_carlo_tree_search(&mut search, Duel { actions: 4, taken: None }, 100);
    assert!(choice == 0 || choice == 2);
    assert_eq!(stats.tree_games, 100);
    let won: u64 = search.selections[0] + search.selections[2];
    assert_eq!(stats.tree_cumulative_reward, won as u128 * FULL_REWARD as u128);
    assert_eq!(search.selections.iter().sum::<u64>(), 100);
}

/// Two moves by one player. After the opening `0`, the reply `1` pays in
/// full and the reply `2` pays half; the reply `2` is legal only in samples
/// with an odd number.
#[derive(Clone)]
struct Flicker {
    sample: u64,
    drawn: std::rc::Rc<Cell<u64>>,
    moves: Vec<u8>,
}

#[derive(Clone)]
struct Half(u8);

impl Outcome<u8> for Half {
    fn reward_for(&self, _player_id: u8) -> u64 {
        if self.0 == 1 {
            FULL_REWARD
        } else {
            FULL_REWARD / 2
        }
    }
}

impl Game for Flicker {
    type Choice = u8;
    type PlayerId = u8;
    type Outcome = Half;

    fn valid(&self) -> bool {
        unreachable!()
    }

    fn active_player(&self) -> Option<u8> {
        unreachable!()
    }

    fn legal(&self, _choice: u8) -> bool {
        unreachable!()
    }

    fn horizon(&self) -> u64 {
        unreachable!()
    }

    fn laws() {
    }

    fn same_choice(a: &u8, b: &u8) -> bool {
        a == b
    }

    fn get_all_choices(&self) -> Vec<u8> {
        if self.moves.is_empty() {
            vec![0]
        } else if self.sample % 2 == 1 {
            vec![1, 2]
        } else {
            vec![1]
        }
    }

    fn apply_choice(&mut self, choice: &u8) {
        self.moves.push(*choice);
    }

    fn status(&self) -> Status<u8, Half> {
        if self.moves.len() < 2 {
            Status::AwaitingAction(7)
        } else {
            Status::Terminated(Half(self.moves[1]))
        }
    }

    fn get_determinization(&self, _from_perspective: Option<u8>) -> Self {
        self.drawn.set(self.drawn.get() + 1);
        Flicker { sample: self.drawn.get(), drawn: self.drawn.clone(), moves: self.moves.clone() }
    }
}

fn count_of(node: &MonteCarloTreeNode<Flicker>, action: u8) -> Option<usize> {
    node.choice_availability_count.iter().find(|entry| entry.0 == action).map(|entry| entry.1)
}

#[test]
fn an_action_that_comes_and_goes_is_held_against_its_own_count() {
    let mut search: Ucb1<Flicker> = Ucb1::new();
    let game = Flicker { sample: 0, drawn: std::rc::Rc::new(Cell::new(0)), moves: Vec::new() };
    let iterations = 41;
    let tree = search_tree(&mut search, &game, iterations);
    assert_eq!(tree.games, 41);
    assert_eq!(tree.children.len(), 1);
    assert_eq!(count_of(&tree, 0), Some(0));
    let opening = &tree.children[0];
    assert_eq!(opening.choice, Some(0));
    assert_eq!(opening.player_id, 7);
    assert_eq!(opening.games, 41);
    // The first visit to the opening was played out; the other forty expanded it:
    // the reply 1 was offered in all of them, the reply 2 in the twenty odd ones.
    assert_eq!(count_of(opening, 1), Some(39));
    assert_eq!(count_of(opening, 2), Some(19));
    assert_eq!(opening.children.len(), 2);
    let mut visits = 0;
    for reply in &opening.children {
        let action = reply.choice.unwrap();
        let count = count_of(opening, action).unwrap() as u64;
        assert_ne!(count, opening.games);
        assert_eq!(opening.total_game_count(reply), count);
        assert!(reply.games <= count + 1);
        visits += reply.games;
    }
    assert_eq!(visits, 40);
    assert_eq!(tree.total_game_count(opening), 41);
}

/// A search that adds up what the outcomes pay player 0.
struct Sum {
    paid: u128,
    outcomes: u64,
}

impl MonteCarloTreeSearch for Sum {
    type Game = Duel;

    fn get_selection_value(
        &self,
        _game: &Duel,
        parent: &MonteCarloTreeNode<Duel>,
        child: &MonteCarloTreeNode<Duel>,
    ) -> u64 {
        let total = parent.total_game_count(child);
        order_key(upper_confidence_bound(
            child.cumulative_reward as f64 / FULL_REWARD as f64,
            child.games as f64,
            total as f64,
            0.4,
        ))
    }

    fn after_iteration(&mut self, game: &Duel, outcome: WonBy) {
        self.paid += game.get_reward_for_outcome(0, &outcome) as u128;
        self.outcomes += 1;
    }
}

#[test]
fn the_root_is_paid_what_the_outcomes_pay_its_player() {
    for iterations in [1usize, 2, 3, 10, 77] {
        let mut search = Sum { paid: 0, outcomes: 0 };
        let (_, stats) =
            monte_carlo_tree_search(&mut search, Duel { actions: 3, taken: None }, iterations);
        assert_eq!(search.outcomes, iterations as u64);
        assert_eq!(stats.tree_games, iterations as u64);
        assert_eq!(stats.tree_cumulative_reward, search.paid);
        assert!(stats.tree_cumulative_reward <= stats.tree_games as u128 * FULL_REWARD as u128);
    }
}

#[test]
fn two_simulations_of_two_actions_try_each_once() {
    for _ in 0..20 {
        let mut search = Sum { paid: 0, outcomes: 0 };
        let tree = search_tree(&mut search, &Duel { actions: 2, taken: None }, 2);
        assert_eq!(tree.games, 2);
        assert_eq!(tree.cumulative_reward, FULL_REWARD as u128);
        assert_eq!(tree.children.len(), 2);
        for child in &tree.children {
            assert_eq!(child.games, 1);
            let won = if child.choice == Some(0) { FULL_REWARD as u128 } else { 0 };
            assert_eq!(child.cumulative_reward, won);
        }
    }
}

#[test]
fn five_simulations_of_one_action_pay_five_times() {
    let mut search = Sum { paid: 0, outcomes: 0 };
    let (choice, stats) = monte_carlo_tree_search(&mut search, Duel { actions: 1, taken: None }, 5);
    assert_eq!(choice, 0);
    assert_eq!(stats.tree_games, 5);
    assert_eq!(stats.tree_cumulative_reward, 5 * FULL_REWARD as u128);
}
