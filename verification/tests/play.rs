use std::marker::PhantomData;

use mcts::board::{Color, Piece};
use mcts::choice::Choice;
use mcts::game::FULL_REWARD;
use mcts::search::search_tree;
use mcts::{monte_carlo_tree_search, Game, MonteCarloTreeNode, MonteCarloTreeSearch, Status};

fn order_key(value: f64) -> u64 {
    let bits = value.to_bits();
    if bits >> 63 == 0 {
        bits | (1u64 << 63)
    } else {
        !bits
    }
}

struct Ucb1<G: Game> {
    phantom: PhantomData<G>,
}

impl<G: Game> MonteCarloTreeSearch for Ucb1<G> {
    type Game = G;

    fn get_selection_value(
        &self,
        _game: &G,
        parent: &MonteCarloTreeNode<G>,
        child: &MonteCarloTreeNode<G>,
    ) -> u64 {
        let total = parent.total_game_count(child) as f64;
        let games = child.games as f64;
        let win_rate = child.cumulative_reward as f64 / FULL_REWARD as f64 / games;
        order_key(win_rate + 0.4 * f64::sqrt(f64::ln(total) / games))
    }
}

#[test]
fn order_keys_sort_like_the_numbers() {
    let numbers = [f64::NEG_INFINITY, -2.5, -0.0, 0.0, 1e-9, 0.4, 1.0, 1e300, f64::MAX, f64::INFINITY];
    for pair in numbers.windows(2) {
        assert!(order_key(pair[0]) < order_key(pair[1]));
    }
    assert!(order_key(f64::MAX) < u64::MAX);
}

#[test]
fn the_board_game_can_be_searched() {
    let game = mcts::rules::Game::new();
    let mut search: Ucb1<mcts::rules::Game> = Ucb1 { phantom: PhantomData };
    let tree = search_tree(&mut search, &game, 60);
    assert_eq!(tree.games, 60);
    assert_eq!(tree.player_id, Color::White);
    assert_eq!(tree.children.len(), 18);
    let offered = game.get_all_choices();
    let mut visits = 0;
    for child in &tree.children {
        assert!(offered.contains(&child.choice.unwrap()));
        assert_eq!(child.player_id, Color::White);
        assert!(child.games >= 1);
        visits += child.games;
    }
    assert_eq!(visits, 60);
    let (choice, stats) = monte_carlo_tree_search(&mut search, game.clone(), 40);
    assert!(offered.contains(&choice));
    assert_eq!(stats.tree_games, 40);
    assert!(stats.tree_cumulative_reward <= 40 * FULL_REWARD as u128);
    // The position searched from is left as it was.
    assert_eq!(game.choice_number, 0);
    assert_eq!(game.board.find(Piece::BadRock), game.clone().board.find(Piece::BadRock));
}

#[test]
fn simulated_games_stay_within_the_rules() {
    let mut game = mcts::rules::Game::new();
    for _ in 0..400 {
        if !matches!(game.status(), Status::AwaitingAction(_)) {
            break;
        }
        let choices = game.get_all_choices();
        assert_eq!(choices[0], Choice::Pass);
        for (i, choice) in choices.iter().enumerate() {
            assert!(!choices[..i].contains(choice));
            assert!(game.choice_is_available(choice));
        }
        let choice = game.get_rollout_choice();
        assert!(choices.contains(&choice));
        let before = game.choice_number;
        game.apply_choice(&choice);
        assert_eq!(game.choice_number, before + 1);
        assert!(game.board.find(Piece::BadRock).is_some());
        assert!(game.board.find(Piece::GoodRock).is_some());
        assert!(game.board.find(Piece::GoodRock2).is_some());
        for color in [Color::White, Color::Black] {
            for (token, cell) in game.board.find_all_of_color(color) {
                assert!(!cell.is_off_board());
                assert!(!game.supplies[color.index()].contains(&token));
                assert!(!game.graveyards[color.index()].contains(&token));
            }
        }
    }
}
