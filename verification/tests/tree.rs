use mcts::game::{Game, Outcome, Status};
use mcts::node::MonteCarloTreeNode;
use mcts::search::{best_candidate, iteration, Candidate, MonteCarloTreeSearch};

/// A countdown: every action takes some points off the count, and the game
/// ends at nought. One player; the outcome pays ten times the last action.
#[derive(Clone, Debug, PartialEq)]
struct Countdown {
    left: u8,
    last: u8,
    widest: u8,
}

#[derive(Clone, Debug, PartialEq)]
struct Last(u8);

impl Outcome<char> for Last {
    fn reward_for(&self, player_id: char) -> u64 {
        if player_id == 'x' {
            10 * self.0 as u64
        } else {
            0
        }
    }
}

impl Game for Countdown {
    type Choice = u8;
    type PlayerId = char;
    type Outcome = Last;

    fn valid(&self) -> bool {
        unreachable!()
    }

    fn active_player(&self) -> Option<char> {
        unreachable!()
    }

    fn legal(&self, _choice: u8) -> bool {
        unreachable!()
    }

    fn horizon(&self) -> u64 {
        unreachable!()
    }

    fn laws() {
    }

    fn same_choice(a: &u8, b: &u8) -> bool {
        a == b
    }

    fn get_all_choices(&self) -> Vec<u8> {
        (1..=self.left.min(self.widest)).collect()
    }

    fn apply_choice(&mut self, choice: &u8) {
        self.left -= choice;
        self.last = *choice;
    }

    fn status(&self) -> Status<char, Last> {
        if self.left == 0 {
            Status::Terminated(Last(self.last))
        } else {
            Status::AwaitingAction('x')
        }
    }
}

/// Children are valued by their visits: the fewer, the better.
struct FewestVisits;

impl MonteCarloTreeSearch for FewestVisits {
    type Game = Countdown;

    fn get_selection_value(
        &self,
        _game: &Countdown,
        _parent: &MonteCarloTreeNode<Countdown>,
        child: &MonteCarloTreeNode<Countdown>,
    ) -> u64 {
        u64::MAX - child.games
    }
}

/// Children never visited are worth nothing; the others as much as they
/// have been paid.
struct Greedy;

impl MonteCarloTreeSearch for Greedy {
    type Game = Countdown;

    fn first_play_is_urgent() -> bool {
        false
    }

    fn get_first_play_value(
        &self,
        _game: &Countdown,
        _parent: &MonteCarloTreeNode<Countdown>,
        _child: &MonteCarloTreeNode<Countdown>,
        _choices: &Option<Vec<u8>>,
    ) -> u64 {
        0
    }

    fn get_selection_value(
        &self,
        _game: &Countdown,
        _parent: &MonteCarloTreeNode<Countdown>,
        child: &MonteCarloTreeNode<Countdown>,
    ) -> u64 {
        child.cumulative_reward as u64
    }
}

fn child(choice: u8, games: u64, reward: u128) -> MonteCarloTreeNode<Countdown> {
    let mut node = MonteCarloTreeNode::new('x', Some(choice));
    node.games = games;
    node.cumulative_reward = reward;
    node
}

fn candidate(available: bool, unvisited: bool, value: u64) -> Candidate {
    Candidate { available, unvisited, value }
}

#[test]
fn a_new_node_is_bare() {
    let node: MonteCarloTreeNode<Countdown> = MonteCarloTreeNode::new('q', Some(4));
    assert_eq!(node.games, 0);
    assert_eq!(node.cumulative_reward, 0);
    assert_eq!(node.player_id, 'q');
    assert_eq!(node.choice, Some(4));
    assert!(node.children.is_empty());
    assert!(node.choice_availability_count.is_empty());
    assert!(!node.is_root());
    let root: MonteCarloTreeNode<Countdown> = MonteCarloTreeNode::new('q', None);
    assert!(root.is_root());
    assert_eq!(root.most_visited(), None);
}

#[test]
fn recording_adds_a_visit_and_the_reward() {
    let mut node: MonteCarloTreeNode<Countdown> = MonteCarloTreeNode::new('x', Some(1));
    node.record(700);
    assert_eq!((node.games, node.cumulative_reward), (1, 700));
    node.record(0);
    assert_eq!((node.games, node.cumulative_reward), (2, 700));
    node.record(u64::MAX);
    assert_eq!((node.games, node.cumulative_reward), (3, 700 + u64::MAX as u128));
    assert_eq!(node.choice, Some(1));
    let game = Countdown { left: 0, last: 3, widest: 3 };
    FewestVisits.record_outcome(&mut node, &game, &Last(3));
    assert_eq!((node.games, node.cumulative_reward), (4, 730 + u64::MAX as u128));
    node.player_id = 'y';
    FewestVisits.record_outcome(&mut node, &game, &Last(3));
    assert_eq!((node.games, node.cumulative_reward), (5, 730 + u64::MAX as u128));
}

#[test]
fn the_root_takes_a_child_for_every_action() {
    let mut root: MonteCarloTreeNode<Countdown> = MonteCarloTreeNode::new('x', None);
    root.widen(&vec![3, 1, 2], 'y');
    assert_eq!(root.choice_availability_count, vec![(3, 0), (1, 0), (2, 0)]);
    assert_eq!(root.children.len(), 3);
    for (child, choice) in root.children.iter().zip([3, 1, 2]) {
        assert_eq!(child.choice, Some(choice));
        assert_eq!(child.player_id, 'y');
        assert_eq!(child.games, 0);
        assert_eq!(child.cumulative_reward, 0);
        assert!(child.children.is_empty());
        assert!(child.choice_availability_count.is_empty());
    }
    assert_eq!((root.games, root.cumulative_reward, root.player_id, root.choice), (0, 0, 'x', None));
    assert_eq!(root.child_position(&1), Some(1));
    assert_eq!(root.child_position(&4), None);
    assert_eq!(root.count_position(&2), Some(2));
    assert_eq!(root.count_position(&0), None);
}

#[test]
fn other_nodes_take_one_child_at_a_time() {
    let mut node: MonteCarloTreeNode<Countdown> = MonteCarloTreeNode::new('x', Some(9));
    node.widen(&vec![3, 1, 2], 'y');
    assert_eq!(node.choice_availability_count, vec![(3, 0), (1, 0), (2, 0)]);
    assert_eq!(node.children.len(), 1);
    assert_eq!(node.children[0].choice, Some(3));
    node.children[0].games = 5;
    node.widen(&vec![1, 3], 'z');
    assert_eq!(node.choice_availability_count, vec![(3, 1), (1, 1), (2, 0)]);
    assert_eq!(node.children.len(), 2);
    assert_eq!(node.children[0].games, 5);
    assert_eq!((node.children[1].choice, node.children[1].player_id), (Some(1), 'z'));
    // Nothing new is offered: the counts go up, the children stay.
    node.widen(&vec![3, 1], 'z');
    assert_eq!(node.choice_availability_count, vec![(3, 2), (1, 2), (2, 0)]);
    assert_eq!(node.children.len(), 2);
    // An action never seen before starts at nought.
    node.widen(&vec![7, 2, 1], 'z');
    assert_eq!(node.choice_availability_count, vec![(3, 2), (1, 3), (2, 1), (7, 0)]);
    assert_eq!(node.children.len(), 3);
    assert_eq!(node.children[2].choice, Some(7));
    node.widen(&vec![], 'z');
    assert_eq!(node.choice_availability_count, vec![(3, 2), (1, 3), (2, 1), (7, 0)]);
    assert_eq!(node.children.len(), 3);
    assert_eq!(node.choice, Some(9));
}

#[test]
fn widening_comes_to_an_end() {
    for widest in 1..=9u8 {
        let game = Countdown { left: 9, last: 0, widest };
        let mut node: MonteCarloTreeNode<Countdown> = MonteCarloTreeNode::new('x', Some(0));
        for round in 1..=widest {
            assert_eq!(node.children.len(), round as usize - 1);
            node.expand(&game);
            assert_eq!(node.children.len(), round as usize);
        }
        for choice in 1..=widest {
            assert!(node.child_position(&choice).is_some());
            let count = node.count_position(&choice).unwrap();
            assert_eq!(node.choice_availability_count[count], (choice, widest as usize - 1));
        }
        node.expand(&game);
        assert_eq!(node.children.len(), widest as usize);
    }
}

#[test]
fn expanding_offers_the_legal_actions_in_any_order() {
    let game = Countdown { left: 6, last: 0, widest: 6 };
    let mut firsts = Vec::new();
    for _ in 0..200 {
        let mut root: MonteCarloTreeNode<Countdown> = MonteCarloTreeNode::new('x', None);
        let offered = root.expand(&game).unwrap();
        let mut sorted = offered.clone();
        sorted.sort();
        assert_eq!(sorted, vec![1, 2, 3, 4, 5, 6]);
        let children: Vec<u8> = root.children.iter().map(|child| child.choice.unwrap()).collect();
        assert_eq!(children, offered);
        if !firsts.contains(&offered[0]) {
            firsts.push(offered[0]);
        }
        // A root that has children stays as it is.
        assert_eq!(root.expand(&Countdown { left: 2, last: 0, widest: 2 }), None);
        assert_eq!(root.children.len(), 6);
        assert!(root.choice_availability_count.iter().all(|entry| entry.1 == 0));
    }
    // The actions are shuffled: not the same one comes first every time.
    assert!(firsts.len() > 1);
}

#[test]
fn rollout_choices_are_drawn_from_the_legal_actions() {
    let game = Countdown { left: 5, last: 0, widest: 4 };
    let mut seen = [false; 5];
    for _ in 0..300 {
        let choice = game.get_rollout_choice();
        assert!((1..=4).contains(&choice));
        seen[choice as usize] = true;
    }
    assert_eq!(seen, [false, true, true, true, true]);
    assert!(game.choice_is_available(&4));
    assert!(!game.choice_is_available(&5));
    assert!(!game.choice_is_available(&0));
    assert_eq!(game.get_determinization(Some('x')), game);
    assert!(game.heuristic_early_terminate().is_none());
    assert_eq!(game.get_reward_for_outcome('x', &Last(7)), 70);
    assert_eq!(game.get_reward_for_outcome('o', &Last(7)), 0);
}

#[test]
fn the_status_names_the_active_player() {
    let waiting: Status<char, Last> = Status::AwaitingAction('k');
    assert_eq!(waiting.get_active_player_id(), Some('k'));
    let over: Status<char, Last> = Status::Terminated(Last(1));
    assert_eq!(over.get_active_player_id(), None);
}

#[test]
fn the_total_is_the_visits_of_the_root_or_the_count_of_the_action() {
    let mut root: MonteCarloTreeNode<Countdown> = MonteCarloTreeNode::new('x', None);
    root.widen(&vec![1, 2], 'x');
    root.games = 17;
    assert_eq!(root.total_game_count(&root.children[0]), 17);
    assert_eq!(root.total_game_count(&root.children[1]), 17);
    let mut node: MonteCarloTreeNode<Countdown> = MonteCarloTreeNode::new('x', Some(5));
    node.widen(&vec![1, 2], 'x');
    node.widen(&vec![2, 1], 'x');
    node.widen(&vec![2], 'x');
    node.games = 17;
    assert_eq!(node.children.len(), 2);
    assert_eq!(node.total_game_count(&node.children[0]), 1);
    assert_eq!(node.total_game_count(&node.children[1]), 2);
}

#[test]
fn the_most_visited_child_is_the_last_of_its_equals() {
    let mut root: MonteCarloTreeNode<Countdown> = MonteCarloTreeNode::new('x', None);
    root.children = vec![child(1, 4, 0), child(2, 9, 0), child(3, 9, 500), child(4, 0, 0)];
    assert_eq!(root.most_visited(), Some(2));
    root.children[0].games = 10;
    assert_eq!(root.most_visited(), Some(0));
    root.children = vec![child(1, 0, 0)];
    assert_eq!(root.most_visited(), Some(0));
}

#[test]
fn the_best_candidate_has_the_greatest_value() {
    assert_eq!(best_candidate(&vec![]), None);
    assert_eq!(best_candidate(&vec![candidate(false, true, 9), candidate(false, false, 3)]), None);
    assert_eq!(
        best_candidate(&vec![
            candidate(true, false, 3),
            candidate(false, true, u64::MAX),
            candidate(true, false, 8),
            candidate(true, false, 5),
        ]),
        Some(2)
    );
    // Among equal values a child never visited goes first, whatever its place.
    assert_eq!(
        best_candidate(&vec![
            candidate(true, false, 8),
            candidate(true, true, 8),
            candidate(true, false, 8),
        ]),
        Some(1)
    );
    // Among equals the last wins.
    assert_eq!(
        best_candidate(&vec![
            candidate(true, false, 8),
            candidate(true, false, 8),
            candidate(true, false, 7),
        ]),
        Some(1)
    );
    assert_eq!(
        best_candidate(&vec![
            candidate(true, true, u64::MAX),
            candidate(true, false, u64::MAX),
            candidate(true, true, u64::MAX),
            candidate(true, false, u64::MAX),
        ]),
        Some(2)
    );
}

#[test]
fn a_child_never_visited_is_selected_first() {
    let game = Countdown { left: 4, last: 0, widest: 4 };
    let mut root: MonteCarloTreeNode<Countdown> = MonteCarloTreeNode::new('x', None);
    root.widen(&vec![1, 2, 3, 4], 'x');
    root.children[0].games = 1;
    root.children[1].games = 0;
    root.children[2].games = 1_000;
    root.children[3].games = 2;
    assert_eq!(FewestVisits.select(&root, &game, None), 1);
    root.children[1].games = 3;
    assert_eq!(FewestVisits.select(&root, &game, None), 0);
    // Only the actions 1 and 2 are legal now.
    let narrow = Countdown { left: 2, last: 0, widest: 4 };
    root.children[0].games = 7;
    root.children[3].games = 0;
    assert_eq!(FewestVisits.select(&root, &narrow, None), 1);
    // A strategy may value children never visited as it likes.
    root.children[0].cumulative_reward = 50;
    root.children[2].cumulative_reward = 90;
    assert_eq!(Greedy.select(&root, &game, None), 2);
    assert_eq!(Greedy.select(&root, &narrow, None), 0);
    assert_eq!(FewestVisits.get_first_play_value(&game, &root, &root.children[3], &None), u64::MAX);
}

#[test]
fn a_rollout_plays_to_the_end() {
    for _ in 0..50 {
        let mut game = Countdown { left: 9, last: 0, widest: 3 };
        let mut node: MonteCarloTreeNode<Countdown> = MonteCarloTreeNode::new('x', Some(1));
        let outcome = FewestVisits.rollout(&mut node, &mut game);
        assert_eq!(game.left, 0);
        assert_eq!(outcome.0, game.last);
        assert!((1..=3).contains(&outcome.0));
        assert_eq!(node.games, 0);
    }
    let mut over = Countdown { left: 0, last: 2, widest: 3 };
    let mut node: MonteCarloTreeNode<Countdown> = MonteCarloTreeNode::new('x', Some(1));
    assert_eq!(FewestVisits.rollout(&mut node, &mut over).0, 2);
    assert_eq!(FewestVisits.intercept_rollout_choice(&mut node, &mut over, 3), 3);
}

fn check_tree(node: &MonteCarloTreeNode<Countdown>, left: u8) {
    let mut visits = 0;
    for child in &node.children {
        let choice = child.choice.unwrap();
        assert!(choice >= 1 && choice <= left.min(3));
        assert!(child.games <= node.games);
        assert!(child.cumulative_reward <= 30 * child.games as u128);
        let position = node.count_position(&choice).unwrap();
        let count = node.choice_availability_count[position].1 as u64;
        assert!(count <= node.games);
        if !node.is_root() {
            assert!(child.games <= count + 1);
        }
        visits += child.games;
        check_tree(child, left - choice);
    }
    if left == 0 {
        assert!(node.children.is_empty());
    } else if node.is_root() {
        assert_eq!(visits, node.games);
    } else if node.games > 0 {
        // The first visit to a node is played out, not descended.
        assert_eq!(visits + 1, node.games);
    }
}

#[test]
fn every_iteration_visits_one_path_once() {
    let start = Countdown { left: 7, last: 0, widest: 3 };
    let mut search = FewestVisits;
    let mut root: MonteCarloTreeNode<Countdown> = MonteCarloTreeNode::new('x', None);
    let mut paid: u128 = 0;
    for round in 1..=300u64 {
        let before: Vec<u64> = root.children.iter().map(|child| child.games).collect();
        let mut game = start.clone();
        let outcome = iteration(&mut search, &mut root, &mut game);
        assert_eq!(game.left, 0);
        assert_eq!(root.games, round);
        paid += 10 * outcome.0 as u128;
        assert_eq!(root.cumulative_reward, paid);
        assert_eq!(root.children.len(), 3);
        let after: Vec<u64> = root.children.iter().map(|child| child.games).collect();
        if round > 1 {
            let grown: Vec<usize> = (0..3).filter(|&i| after[i] != before[i]).collect();
            assert_eq!(grown.len(), 1);
            assert_eq!(after[grown[0]], before[grown[0]] + 1);
        }
        check_tree(&root, 7);
    }
    // The strategy visits the children of the root in turn.
    for child in &root.children {
        assert_eq!(child.games, 100);
    }
}

#[test]
fn untried_actions_are_counted() {
    let mut node: MonteCarloTreeNode<Countdown> = MonteCarloTreeNode::new('x', Some(5));
    assert_eq!(node.unexplored(&None), (0, 0));
    assert_eq!(node.unexplored(&Some(vec![])), (0, 0));
    assert_eq!(node.unexplored(&Some(vec![4, 2])), (2, 2));
    node.children = vec![child(1, 4, 0), child(2, 0, 0), child(3, 9, 500), child(4, 0, 0)];
    assert_eq!(node.unexplored(&None), (2, 4));
    assert_eq!(node.unexplored(&Some(vec![3, 1])), (0, 2));
    assert_eq!(node.unexplored(&Some(vec![1, 2, 3, 4, 5, 6])), (4, 6));
    assert_eq!(node.unexplored(&Some(vec![7])), (1, 1));
}

/// A countdown that counts how often it is asked, and whose heuristic
/// breaks it off as soon as it is asked.
#[derive(Clone)]
struct Watched {
    left: u8,
    last: u8,
    asked_status: std::rc::Rc<std::cell::Cell<u32>>,
    asked_heuristic: std::rc::Rc<std::cell::Cell<u32>>,
    applied: std::rc::Rc<std::cell::Cell<u32>>,
}

impl Watched {
    fn new(left: u8) -> Self {
        Watched {
            left,
            last: 0,
            asked_status: Default::default(),
            asked_heuristic: Default::default(),
            applied: Default::default(),
        }
    }
}

impl Game for Watched {
    type Choice = u8;
    type PlayerId = char;
    type Outcome = Last;

    fn valid(&self) -> bool {
        unreachable!()
    }

    fn active_player(&self) -> Option<char> {
        unreachable!()
    }

    fn legal(&self, _choice: u8) -> bool {
        unreachable!()
    }

    fn horizon(&self) -> u64 {
        unreachable!()
    }

    fn laws() {
    }

    fn same_choice(a: &u8, b: &u8) -> bool {
        a == b
    }

    fn get_all_choices(&self) -> Vec<u8> {
        (1..=self.left.min(2)).collect()
    }

    fn apply_choice(&mut self, choice: &u8) {
        self.applied.set(self.applied.get() + 1);
        self.left -= choice;
        self.last = *choice;
    }

    fn status(&self) -> Status<char, Last> {
        self.asked_status.set(self.asked_status.get() + 1);
        if self.left == 0 {
            Status::Terminated(Last(self.last))
        } else {
            Status::AwaitingAction('x')
        }
    }

    fn heuristic_early_terminate(&self) -> Option<Last> {
        self.asked_heuristic.set(self.asked_heuristic.get() + 1);
        Some(Last(100 + self.last))
    }
}

struct Plain;

impl MonteCarloTreeSearch for Plain {
    type Game = Watched;

    fn get_selection_value(
        &self,
        _game: &Watched,
        _parent: &MonteCarloTreeNode<Watched>,
        child: &MonteCarloTreeNode<Watched>,
    ) -> u64 {
        u64::MAX - child.games
    }
}

#[test]
fn a_rollout_leaves_a_finished_game_alone() {
    let mut game = Watched::new(0);
    game.last = 2;
    let mut node: MonteCarloTreeNode<Watched> = MonteCarloTreeNode::new('x', Some(2));
    let outcome = Plain.rollout(&mut node, &mut game);
    assert_eq!(outcome.0, 2);
    assert_eq!((game.left, game.last), (0, 2));
    assert_eq!(game.applied.get(), 0);
    assert_eq!(game.asked_heuristic.get(), 0);
    assert_eq!(game.asked_status.get(), 1);
    assert_eq!((node.games, node.cumulative_reward), (0, 0));
}

#[test]
fn a_rollout_plays_before_it_asks_the_heuristic() {
    let mut game = Watched::new(9);
    let mut node: MonteCarloTreeNode<Watched> = MonteCarloTreeNode::new('x', Some(2));
    let outcome = Plain.rollout(&mut node, &mut game);
    assert_eq!(game.applied.get(), 1);
    assert_eq!(game.asked_heuristic.get(), 1);
    assert_eq!(9 - game.left, game.last);
    assert_eq!(outcome.0, 100 + game.last);
    assert!(node.children.is_empty());
}

#[test]
fn an_iteration_at_the_end_records_and_returns_its_outcome() {
    let mut game = Watched::new(0);
    game.last = 1;
    let mut node: MonteCarloTreeNode<Watched> = MonteCarloTreeNode::new('x', Some(1));
    node.games = 3;
    node.cumulative_reward = 40;
    let outcome = iteration(&mut Plain, &mut node, &mut game);
    assert_eq!(outcome.0, 1);
    assert_eq!((node.games, node.cumulative_reward), (4, 50));
    assert!(node.children.is_empty());
    assert!(node.choice_availability_count.is_empty());
    assert_eq!(game.applied.get(), 0);
    assert_eq!(game.asked_heuristic.get(), 0);
    assert_eq!((game.left, game.last), (0, 1));
}

/// The statistics of a tree, node by node.
#[derive(Clone, Debug, PartialEq)]
struct Shape {
    games: u64,
    reward: u128,
    choice: Option<u8>,
    counts: Vec<(u8, usize)>,
    children: Vec<Shape>,
}

fn shape(node: &MonteCarloTreeNode<Countdown>) -> Shape {
    Shape {
        games: node.games,
        reward: node.cumulative_reward,
        choice: node.choice,
        counts: node.choice_availability_count.clone(),
        children: node.children.iter().map(shape).collect(),
    }
}

/// Holds `after` against `before` along the way of one simulation that
/// paid `reward`, and returns how many nodes were on the way.
fn check_way(before: &Shape, after: &Shape, reward: u128) -> usize {
    assert_eq!(after.games, before.games + 1);
    assert_eq!(after.reward, before.reward + reward);
    assert_eq!(after.choice, before.choice);
    if after.children == before.children {
        assert_eq!(after.counts, before.counts);
        return 1;
    }
    let on_way: Vec<usize> = (0..after.children.len())
        .filter(|&i| before.children.get(i) != Some(&after.children[i]))
        .filter(|&i| after.children[i].games > 0)
        .collect();
    assert_eq!(on_way.len(), 1);
    let p = on_way[0];
    for (i, child) in after.children.iter().enumerate() {
        if i != p && i >= before.children.len() {
            assert_eq!((child.games, child.reward), (0, 0));
            assert!(child.children.is_empty() && child.counts.is_empty());
        }
    }
    match before.children.get(p) {
        Some(child) if child.games > 0 => 1 + check_way(child, &after.children[p], reward),
        _ => {
            let child = &after.children[p];
            assert_eq!((child.games, child.reward), (1, reward));
            assert!(child.children.is_empty() && child.counts.is_empty());
            2
        },
    }
}

#[test]
fn an_iteration_pays_every_node_on_its_way_and_no_other() {
    let start = Countdown { left: 6, last: 0, widest: 2 };
    let mut search = FewestVisits;
    let mut root: MonteCarloTreeNode<Countdown> = MonteCarloTreeNode::new('x', None);
    let mut deepest = 0;
    for _ in 0..400 {
        let before = shape(&root);
        let mut game = start.clone();
        let outcome = iteration(&mut search, &mut root, &mut game);
        assert_eq!(game.left, 0);
        assert_eq!(outcome.0, game.last);
        let on_way = check_way(&before, &shape(&root), 10 * outcome.0 as u128);
        deepest = deepest.max(on_way);
    }
    assert!(deepest > 3);
}
