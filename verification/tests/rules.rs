use mcts::board::{Color, Piece, Space, Token};
use mcts::choice::{Ability, Choice};
use mcts::game::{Outcome, Status, FULL_REWARD};
use mcts::hex::{Coordinates, Direction};
use mcts::play::distinct;
use mcts::rules::{discard, Ending, Game, TurnState};

fn token(color: Color, token: Token) -> Space {
    Space::Occupied(Piece::Token(color, token))
}

/// The starting position with more pieces put on the board, and the side
/// given to act first.
fn position(pieces: &[(Coordinates, Space)], turn_state: TurnState) -> Game {
    let mut game = Game::new();
    for (cell, space) in pieces {
        game.board.set_space(*cell, *space);
    }
    game.turn_state = turn_state;
    game
}

fn all_tokens_but(left_out: &[Token]) -> Vec<Token> {
    [Token::Scout, Token::Hammer, Token::Hook, Token::Wave, Token::Hand, Token::Bomb]
        .into_iter()
        .filter(|token| !left_out.contains(token))
        .collect()
}

#[test]
fn a_new_game_starts_with_white() {
    let game = Game::new();
    assert_eq!(game.supplies[0], all_tokens_but(&[]));
    assert_eq!(game.supplies[1], all_tokens_but(&[]));
    assert!(game.graveyards[0].is_empty());
    assert!(game.graveyards[1].is_empty());
    assert_eq!(game.hand_directions, [Direction::Left, Direction::Right]);
    assert_eq!(game.turn_state, TurnState::WhiteFirstAction);
    assert_eq!(game.choice_number, 0);
    assert_eq!(game.board.find(Piece::BadRock), Some(Coordinates(0, 0, 0)));
}

#[test]
fn the_state_of_the_turn_names_the_side_and_the_used_token() {
    assert_eq!(TurnState::WhiteFirstAction.get_matchable(), Some((Color::White, None)));
    assert_eq!(
        TurnState::WhiteSecondAction { used_piece: Some(Token::Hook) }.get_matchable(),
        Some((Color::White, Some(Token::Hook)))
    );
    assert_eq!(TurnState::BlackFirstAction.get_matchable(), Some((Color::Black, None)));
    assert_eq!(
        TurnState::BlackSecondAction { used_piece: None }.get_matchable(),
        Some((Color::Black, None))
    );
    assert_eq!(TurnState::WonBy(Some(Color::White)).get_matchable(), None);
    assert_eq!(TurnState::WhiteFirstAction.get_color(), Some(Color::White));
    assert_eq!(
        TurnState::BlackSecondAction { used_piece: Some(Token::Bomb) }.get_color(),
        Some(Color::Black)
    );
    assert_eq!(TurnState::WonBy(None).get_color(), None);
}

#[test]
fn an_ending_pays_the_winner() {
    assert_eq!(Ending::Won(Color::White).reward_for(Color::White), FULL_REWARD);
    assert_eq!(Ending::Won(Color::White).reward_for(Color::Black), 0);
    assert_eq!(Ending::Won(Color::Black).reward_for(Color::Black), 1_000_000);
    assert_eq!(Ending::Drawn.reward_for(Color::White), 500_000);
    assert_eq!(Ending::Drawn.reward_for(Color::Black), 500_000);
    assert_eq!(Ending::Unfinished.reward_for(Color::White), 0);
    assert_eq!(Ending::Unfinished.reward_for(Color::Black), 0);
}

#[test]
fn discarding_removes_every_occurrence() {
    let mut list = vec![Token::Hook, Token::Wave, Token::Hook, Token::Bomb, Token::Hook];
    discard(&mut list, Token::Hook);
    assert_eq!(list, vec![Token::Wave, Token::Bomb]);
    discard(&mut list, Token::Scout);
    assert_eq!(list, vec![Token::Wave, Token::Bomb]);
    discard(&mut list, Token::Bomb);
    discard(&mut list, Token::Wave);
    assert!(list.is_empty());
    discard(&mut list, Token::Wave);
    assert!(list.is_empty());
}

#[test]
fn distinct_keeps_first_occurrences() {
    let a = Choice::Move(Token::Scout, Direction::Left);
    let b = Choice::Revive(Token::Hand);
    assert_eq!(distinct(vec![Choice::Pass, a, Choice::Pass, b, a, b]), vec![Choice::Pass, a, b]);
    assert_eq!(distinct(vec![a, b, Choice::Pass]), vec![a, b, Choice::Pass]);
    assert_eq!(distinct(vec![b, b, b, a, b, a]), vec![b, a]);
    assert_eq!(distinct(Vec::new()), Vec::new());
}

#[test]
fn the_first_action_offers_steps_and_deployments() {
    let game = Game::new();
    let expected = vec![
        Choice::Pass,
        Choice::Move(Token::Daimyo, Direction::Left),
        Choice::Move(Token::Daimyo, Direction::UpLeft),
        Choice::Move(Token::Daimyo, Direction::UpRight),
        Choice::Move(Token::Daimyo, Direction::Right),
        Choice::Move(Token::Daimyo, Direction::DownRight),
        Choice::Move(Token::Daimyo, Direction::DownLeft),
        Choice::Deploy(Token::Scout, None),
        Choice::Deploy(Token::Hammer, None),
        Choice::Deploy(Token::Hook, None),
        Choice::Deploy(Token::Wave, None),
        Choice::Deploy(Token::Hand, Some(Direction::Left)),
        Choice::Deploy(Token::Hand, Some(Direction::UpLeft)),
        Choice::Deploy(Token::Hand, Some(Direction::UpRight)),
        Choice::Deploy(Token::Hand, Some(Direction::Right)),
        Choice::Deploy(Token::Hand, Some(Direction::DownRight)),
        Choice::Deploy(Token::Hand, Some(Direction::DownLeft)),
        Choice::Deploy(Token::Bomb, None),
    ];
    assert_eq!(game.list_choices(), expected);
    assert_eq!(mcts::game::Game::get_all_choices(&game), expected);
}

#[test]
fn deploying_takes_the_token_from_the_supply() {
    let mut game = Game::new();
    mcts::game::Game::apply_choice(&mut game, &Choice::Deploy(Token::Hammer, None));
    assert_eq!(game.supplies[0], all_tokens_but(&[Token::Hammer]));
    assert_eq!(game.supplies[1], all_tokens_but(&[]));
    assert_eq!(game.board.get_space(Coordinates(-2, 4, -2)), token(Color::White, Token::Hammer));
    assert_eq!(game.turn_state, TurnState::WhiteSecondAction { used_piece: None });
    assert_eq!(game.choice_number, 1);
    assert_eq!(game.hand_directions, [Direction::Left, Direction::Right]);

    let gate = Coordinates(-2, 4, -2);
    let mut expected = vec![Choice::Pass];
    for direction in Direction::all() {
        expected.push(Choice::Move(Token::Hammer, direction));
    }
    for direction in Direction::all() {
        expected.push(Choice::Move(Token::Daimyo, direction));
    }
    for direction in Direction::all() {
        expected.push(Choice::UseAbility(Ability::Daimyo {
            target: gate,
            destination: Coordinates(-1, 2, -1).step(direction),
        }));
    }
    assert_eq!(game.list_choices(), expected);
}

#[test]
fn deploying_the_hand_points_it() {
    let mut game = Game::new();
    game.turn_state = TurnState::BlackFirstAction;
    mcts::game::Game::apply_choice(
        &mut game,
        &Choice::Deploy(Token::Hand, Some(Direction::DownLeft)),
    );
    assert_eq!(game.supplies[1], all_tokens_but(&[Token::Hand]));
    assert_eq!(game.board.get_space(Coordinates(2, -4, 2)), token(Color::Black, Token::Hand));
    assert_eq!(game.hand_directions, [Direction::Left, Direction::DownLeft]);
    assert_eq!(game.turn_state, TurnState::BlackSecondAction { used_piece: None });
}

#[test]
fn the_turn_passes_after_two_actions() {
    let mut game = Game::new();
    mcts::game::Game::apply_choice(&mut game, &Choice::Move(Token::Daimyo, Direction::Left));
    assert_eq!(game.turn_state, TurnState::WhiteSecondAction { used_piece: Some(Token::Daimyo) });
    assert_eq!(game.board.get_space(Coordinates(-2, 2, 0)), token(Color::White, Token::Daimyo));
    // The daimyo has acted: only passing and deploying are left.
    let choices = game.list_choices();
    assert_eq!(choices.len(), 12);
    assert!(!choices.iter().any(|choice| matches!(choice, Choice::Move(_, _))));
    mcts::game::Game::apply_choice(&mut game, &Choice::Pass);
    assert_eq!(game.turn_state, TurnState::BlackFirstAction);
    mcts::game::Game::apply_choice(&mut game, &Choice::Pass);
    assert_eq!(game.turn_state, TurnState::BlackSecondAction { used_piece: None });
    mcts::game::Game::apply_choice(&mut game, &Choice::Pass);
    assert_eq!(game.turn_state, TurnState::WhiteFirstAction);
    assert_eq!(game.choice_number, 4);
}

#[test]
fn a_push_slides_until_it_is_blocked() {
    let mut game = Game::new();
    game.push(Coordinates(0, 0, 0), Direction::Right, 3);
    assert_eq!(game.board.find(Piece::BadRock), Some(Coordinates(3, 0, -3)));
    assert_eq!(game.board.get_space(Coordinates(0, 0, 0)), Space::Empty);
    // The good rock on (4, 0, -4) is in the way.
    game.push(Coordinates(3, 0, -3), Direction::Right, 2);
    assert_eq!(game.board.find(Piece::BadRock), Some(Coordinates(3, 0, -3)));
    assert_eq!(game.board.find(Piece::GoodRock2), Some(Coordinates(4, 0, -4)));
    game.push(Coordinates(3, 0, -3), Direction::Left, 0);
    assert_eq!(game.board.find(Piece::BadRock), Some(Coordinates(3, 0, -3)));
    game.push(Coordinates(3, 0, -3), Direction::Left, 1);
    assert_eq!(game.board.find(Piece::BadRock), Some(Coordinates(2, 0, -2)));
}

#[test]
fn a_token_pushed_over_the_edge_is_lost() {
    let mut game = position(
        &[(Coordinates(3, 1, -4), token(Color::Black, Token::Scout))],
        TurnState::WhiteFirstAction,
    );
    game.push(Coordinates(3, 1, -4), Direction::Right, 1);
    assert_eq!(game.board.get_space(Coordinates(4, 1, -5)), token(Color::Black, Token::Scout));
    assert!(game.graveyards[1].is_empty());
    game.push(Coordinates(4, 1, -5), Direction::Left, 1);
    game.push(Coordinates(3, 1, -4), Direction::Right, 3);
    assert_eq!(game.board.get_space(Coordinates(3, 1, -4)), Space::Empty);
    assert_eq!(game.board.get_space(Coordinates(4, 1, -5)), Space::Empty);
    assert_eq!(game.graveyards[1], vec![Token::Scout]);
    assert!(game.graveyards[0].is_empty());
    assert_eq!(game.supplies[1], all_tokens_but(&[]));
}

#[test]
fn a_rock_pushed_against_the_edge_stays() {
    let mut game = Game::new();
    game.push(Coordinates(4, 0, -4), Direction::Right, 3);
    assert_eq!(game.board.find(Piece::GoodRock2), Some(Coordinates(5, 0, -5)));
    game.push(Coordinates(5, 0, -5), Direction::Right, 3);
    assert_eq!(game.board.find(Piece::GoodRock2), Some(Coordinates(5, 0, -5)));
    assert!(game.graveyards[0].is_empty());
    assert!(game.graveyards[1].is_empty());
}

#[test]
fn a_row_is_pushed_from_its_far_end() {
    let mut game = position(
        &[
            (Coordinates(0, 1, -1), token(Color::White, Token::Scout)),
            (Coordinates(1, 1, -2), token(Color::Black, Token::Hook)),
            (Coordinates(2, 1, -3), token(Color::White, Token::Wave)),
        ],
        TurnState::WhiteFirstAction,
    );
    game.cascading_push(Coordinates(0, 1, -1), Direction::Right, 1);
    assert_eq!(game.board.get_space(Coordinates(0, 1, -1)), Space::Empty);
    assert_eq!(game.board.get_space(Coordinates(1, 1, -2)), token(Color::White, Token::Scout));
    assert_eq!(game.board.get_space(Coordinates(2, 1, -3)), token(Color::Black, Token::Hook));
    assert_eq!(game.board.get_space(Coordinates(3, 1, -4)), token(Color::White, Token::Wave));
    game.cascading_push(Coordinates(1, 1, -2), Direction::Right, 2);
    // The wave falls off, the hook comes to the edge, the scout follows by two.
    assert_eq!(game.board.get_space(Coordinates(1, 1, -2)), Space::Empty);
    assert_eq!(game.board.get_space(Coordinates(2, 1, -3)), Space::Empty);
    assert_eq!(game.board.get_space(Coordinates(3, 1, -4)), token(Color::White, Token::Scout));
    assert_eq!(game.board.get_space(Coordinates(4, 1, -5)), token(Color::Black, Token::Hook));
    assert_eq!(game.graveyards[0], vec![Token::Wave]);
    // Nothing stands on the cell, or the cell is off the board: nothing happens.
    game.cascading_push(Coordinates(0, 1, -1), Direction::Right, 1);
    game.cascading_push(Coordinates(6, 1, -7), Direction::Right, 1);
    assert_eq!(game.board.get_space(Coordinates(3, 1, -4)), token(Color::White, Token::Scout));
}

#[test]
fn a_bomb_pushes_its_neighbours_away() {
    let mut game = position(
        &[
            (Coordinates(-1, 0, 1), token(Color::White, Token::Bomb)),
            (Coordinates(-1, 1, 0), token(Color::Black, Token::Scout)),
            (Coordinates(-1, 2, -1), token(Color::White, Token::Daimyo)),
        ],
        TurnState::WhiteFirstAction,
    );
    game.supplies[0] = all_tokens_but(&[Token::Bomb]);
    game.supplies[1] = all_tokens_but(&[Token::Scout]);
    let bomb = Choice::UseAbility(Ability::Bomb { origin: Coordinates(-1, 0, 1) });
    assert!(game.list_choices().contains(&bomb));
    mcts::game::Game::apply_choice(&mut game, &bomb);
    // The bad rock goes right, the scout and the daimyo behind it go down right.
    assert_eq!(game.board.find(Piece::BadRock), Some(Coordinates(1, 0, -1)));
    assert_eq!(game.board.get_space(Coordinates(0, 0, 0)), Space::Empty);
    assert_eq!(game.board.get_space(Coordinates(-1, 0, 1)), token(Color::White, Token::Bomb));
    assert_eq!(game.board.get_space(Coordinates(-1, 1, 0)), Space::Empty);
    assert_eq!(game.board.get_space(Coordinates(-1, 2, -1)), token(Color::Black, Token::Scout));
    assert_eq!(game.board.get_space(Coordinates(-1, 3, -2)), token(Color::White, Token::Daimyo));
    assert_eq!(game.turn_state, TurnState::WhiteSecondAction { used_piece: Some(Token::Bomb) });
}

#[test]
fn a_token_on_the_centre_is_lost() {
    let mut game = position(
        &[
            (Coordinates(0, 0, 0), Space::Empty),
            (Coordinates(0, -1, 1), Space::Occupied(Piece::BadRock)),
            (Coordinates(-1, 0, 1), token(Color::White, Token::Scout)),
        ],
        TurnState::WhiteFirstAction,
    );
    game.supplies[0] = all_tokens_but(&[Token::Scout]);
    mcts::game::Game::apply_choice(&mut game, &Choice::Move(Token::Scout, Direction::Right));
    assert_eq!(game.board.get_space(Coordinates(-1, 0, 1)), Space::Empty);
    assert_eq!(game.board.get_space(Coordinates(0, 0, 0)), Space::Empty);
    assert_eq!(game.graveyards[0], vec![Token::Scout]);
    assert_eq!(game.supplies[0], all_tokens_but(&[Token::Scout]));
    assert_eq!(game.turn_state, TurnState::WhiteSecondAction { used_piece: Some(Token::Scout) });
    // The lost token can be revived, and deployed again after that.
    assert!(game.list_choices().contains(&Choice::Revive(Token::Scout)));
    mcts::game::Game::apply_choice(&mut game, &Choice::Revive(Token::Scout));
    assert!(game.graveyards[0].is_empty());
    assert_eq!(
        game.supplies[0],
        vec![Token::Hammer, Token::Hook, Token::Wave, Token::Hand, Token::Bomb, Token::Scout]
    );
    assert_eq!(game.turn_state, TurnState::BlackFirstAction);
}

#[test]
fn the_bad_rock_in_a_village_loses_the_game() {
    let mut game = position(
        &[
            (Coordinates(0, 0, 0), Space::Empty),
            (Coordinates(0, 3, -3), Space::Occupied(Piece::BadRock)),
            (Coordinates(0, 2, -2), token(Color::Black, Token::Hammer)),
        ],
        TurnState::BlackFirstAction,
    );
    game.supplies[1] = all_tokens_but(&[Token::Hammer]);
    let blow = Choice::UseAbility(Ability::Hammer {
        target: Coordinates(0, 3, -3),
        direction: Direction::DownRight,
        distance: 1,
    });
    assert!(game.list_choices().contains(&blow));
    assert!(mcts::game::Game::choice_is_available(&game, &blow));
    assert!(matches!(mcts::game::Game::status(&game), Status::AwaitingAction(Color::Black)));
    mcts::game::Game::apply_choice(&mut game, &blow);
    assert_eq!(game.board.find(Piece::BadRock), Some(Coordinates(0, 4, -4)));
    assert_eq!(game.turn_state, TurnState::WonBy(Some(Color::Black)));
    assert!(matches!(
        mcts::game::Game::status(&game),
        Status::Terminated(Ending::Won(Color::Black))
    ));
    // When the game is over, only passing is left, and it changes nothing but the count.
    assert_eq!(game.list_choices(), vec![Choice::Pass]);
    mcts::game::Game::apply_choice(&mut game, &Choice::Pass);
    assert_eq!(game.turn_state, TurnState::WonBy(Some(Color::Black)));
    assert_eq!(game.choice_number, 2);
}

#[test]
fn the_game_is_judged_by_where_the_rocks_stand() {
    let judged = |bad: Coordinates, good: Coordinates, good_2: Coordinates| {
        let mut game = position(
            &[
                (Coordinates(0, 0, 0), Space::Empty),
                (Coordinates(-4, 0, 4), Space::Empty),
                (Coordinates(4, 0, -4), Space::Empty),
                (bad, Space::Occupied(Piece::BadRock)),
                (good, Space::Occupied(Piece::GoodRock)),
                (good_2, Space::Occupied(Piece::GoodRock2)),
            ],
            TurnState::WhiteFirstAction,
        );
        game.settle(None);
        game.turn_state
    };
    let next = TurnState::WhiteSecondAction { used_piece: None };
    let white = TurnState::WonBy(Some(Color::White));
    let black = TurnState::WonBy(Some(Color::Black));
    let (mid, mid_2) = (Coordinates(-4, 0, 4), Coordinates(4, 0, -4));
    assert_eq!(judged(Coordinates(1, 0, -1), mid, mid_2), next);
    assert_eq!(judged(Coordinates(1, 3, -4), mid, mid_2), next);
    assert_eq!(judged(Coordinates(1, 4, -5), mid, mid_2), black);
    assert_eq!(judged(Coordinates(1, -4, 3), mid, mid_2), white);
    assert_eq!(judged(Coordinates(1, 0, -1), Coordinates(0, 4, -4), Coordinates(-1, 5, -4)), white);
    assert_eq!(judged(Coordinates(1, 0, -1), Coordinates(0, -4, 4), Coordinates(1, -5, 4)), black);
    assert_eq!(judged(Coordinates(1, 0, -1), Coordinates(0, 4, -4), mid_2), next);
    // Both good rocks in a village outweigh the bad rock.
    assert_eq!(judged(Coordinates(1, 4, -5), Coordinates(0, 4, -4), Coordinates(-1, 5, -4)), white);
    assert_eq!(judged(Coordinates(1, -4, 3), Coordinates(0, -4, 4), Coordinates(2, -5, 3)), black);
    // One good rock in either village: white wins unless the bad rock is on the middle row.
    let (south, north) = (Coordinates(0, 4, -4), Coordinates(0, -4, 4));
    assert_eq!(judged(Coordinates(1, 0, -1), south, north), next);
    assert_eq!(judged(Coordinates(1, 1, -2), south, north), white);
    assert_eq!(judged(Coordinates(1, -1, 0), north, south), white);
    assert_eq!(judged(Coordinates(1, 4, -5), north, south), white);
}

#[test]
fn a_scout_changes_places() {
    let mut game = position(
        &[(Coordinates(-2, 0, 2), token(Color::White, Token::Scout))],
        TurnState::WhiteFirstAction,
    );
    game.supplies[0] = all_tokens_but(&[Token::Scout]);
    let scout = Coordinates(-2, 0, 2);
    let abilities: Vec<Choice> = game
        .list_choices()
        .into_iter()
        .filter(|choice| matches!(choice, Choice::UseAbility(Ability::Scout { .. })))
        .collect();
    // The bad rock two cells to the right, the good rock two cells to the left.
    assert_eq!(
        abilities,
        vec![
            Choice::UseAbility(Ability::Scout { target: scout, destination: Coordinates(-4, 0, 4) }),
            Choice::UseAbility(Ability::Scout { target: scout, destination: Coordinates(0, 0, 0) }),
        ]
    );
    mcts::game::Game::apply_choice(&mut game, &abilities[0]);
    assert_eq!(game.board.get_space(Coordinates(-4, 0, 4)), token(Color::White, Token::Scout));
    assert_eq!(game.board.get_space(scout), Space::Occupied(Piece::GoodRock));
    assert_eq!(game.turn_state, TurnState::WhiteSecondAction { used_piece: Some(Token::Scout) });
}

#[test]
fn a_wave_throws_over_itself() {
    let mut game = position(
        &[(Coordinates(1, 0, -1), token(Color::Black, Token::Wave))],
        TurnState::BlackFirstAction,
    );
    game.supplies[1] = all_tokens_but(&[Token::Wave]);
    let abilities: Vec<Choice> = game
        .list_choices()
        .into_iter()
        .filter(|choice| matches!(choice, Choice::UseAbility(Ability::Wave { .. })))
        .collect();
    let throw = Choice::UseAbility(Ability::Wave {
        target: Coordinates(0, 0, 0),
        destination: Coordinates(2, 0, -2),
    });
    assert_eq!(abilities, vec![throw]);
    mcts::game::Game::apply_choice(&mut game, &throw);
    assert_eq!(game.board.find(Piece::BadRock), Some(Coordinates(2, 0, -2)));
    assert_eq!(game.board.get_space(Coordinates(0, 0, 0)), Space::Empty);
    assert_eq!(game.board.get_space(Coordinates(1, 0, -1)), token(Color::Black, Token::Wave));
}

#[test]
fn a_hook_pulls_towards_itself() {
    let mut game = position(
        &[(Coordinates(-3, 0, 3), token(Color::White, Token::Hook))],
        TurnState::WhiteFirstAction,
    );
    game.supplies[0] = all_tokens_but(&[Token::Hook]);
    let abilities: Vec<Choice> = game
        .list_choices()
        .into_iter()
        .filter(|choice| matches!(choice, Choice::UseAbility(Ability::Hook { .. })))
        .collect();
    // The bad rock is three cells to the right; the good rock, one cell to the left, is too near.
    let pull = |distance: usize| {
        Choice::UseAbility(Ability::Hook {
            target: Coordinates(0, 0, 0),
            direction: Direction::Left,
            distance,
        })
    };
    assert_eq!(abilities, vec![pull(1), pull(2)]);
    mcts::game::Game::apply_choice(&mut game, &pull(2));
    assert_eq!(game.board.find(Piece::BadRock), Some(Coordinates(-2, 0, 2)));
    assert_eq!(game.turn_state, TurnState::WhiteSecondAction { used_piece: Some(Token::Hook) });
}

#[test]
fn a_hammer_pushes_up_to_three_cells() {
    let mut game = position(
        &[(Coordinates(-1, 0, 1), token(Color::White, Token::Hammer))],
        TurnState::WhiteFirstAction,
    );
    game.supplies[0] = all_tokens_but(&[Token::Hammer]);
    let abilities: Vec<Choice> = game
        .list_choices()
        .into_iter()
        .filter(|choice| matches!(choice, Choice::UseAbility(Ability::Hammer { .. })))
        .collect();
    let blow = |distance: usize| {
        Choice::UseAbility(Ability::Hammer {
            target: Coordinates(0, 0, 0),
            direction: Direction::Right,
            distance,
        })
    };
    assert_eq!(abilities, vec![blow(1), blow(2), blow(3)]);
    mcts::game::Game::apply_choice(&mut game, &blow(3));
    assert_eq!(game.board.find(Piece::BadRock), Some(Coordinates(3, 0, -3)));
}

#[test]
fn a_hand_steps_and_points() {
    let mut game = position(
        &[
            (Coordinates(2, 2, -4), token(Color::White, Token::Hand)),
            (Coordinates(3, 2, -5), token(Color::Black, Token::Scout)),
        ],
        TurnState::WhiteFirstAction,
    );
    game.supplies[0] = all_tokens_but(&[Token::Hand]);
    game.supplies[1] = all_tokens_but(&[Token::Scout]);
    let hand = Coordinates(2, 2, -4);
    let abilities: Vec<Choice> = game
        .list_choices()
        .into_iter()
        .filter(|choice| matches!(choice, Choice::UseAbility(Ability::Hand { .. })))
        .collect();
    // Right is taken by the scout: five steps, each with six ways to point.
    assert_eq!(abilities.len(), 30);
    assert_eq!(
        abilities[0],
        Choice::UseAbility(Ability::Hand {
            origin: hand,
            move_direction: Direction::Left,
            hand_direction: Direction::Left,
        })
    );
    assert_eq!(
        abilities[29],
        Choice::UseAbility(Ability::Hand {
            origin: hand,
            move_direction: Direction::DownLeft,
            hand_direction: Direction::DownLeft,
        })
    );
    assert!(!game.list_choices().iter().any(|choice| matches!(choice, Choice::Move(Token::Hand, _))));
    assert_eq!(game.grabbed_space(Color::Black), Some(Coordinates(1, 2, -3)));
    assert_eq!(game.grabbed_space(Color::White), None);
    mcts::game::Game::apply_choice(
        &mut game,
        &Choice::UseAbility(Ability::Hand {
            origin: hand,
            move_direction: Direction::UpRight,
            hand_direction: Direction::DownRight,
        }),
    );
    assert_eq!(game.board.get_space(hand), Space::Empty);
    assert_eq!(game.board.get_space(Coordinates(3, 1, -4)), token(Color::White, Token::Hand));
    assert_eq!(game.hand_directions, [Direction::DownRight, Direction::Right]);
    // The hand now holds the scout below it, which cannot act.
    assert_eq!(game.grabbed_space(Color::Black), Some(Coordinates(3, 2, -5)));
    game.turn_state = TurnState::BlackFirstAction;
    assert_eq!(
        game.units(Color::Black),
        vec![(Token::Daimyo, Coordinates(1, -2, 1)), (Token::Scout, Coordinates(3, 2, -5))]
    );
    let choices = game.list_choices();
    assert!(!choices.iter().any(|choice| matches!(choice, Choice::Move(Token::Scout, _))));
    assert!(!choices.iter().any(|choice| matches!(choice, Choice::UseAbility(Ability::Scout { .. }))));
    assert!(!choices.iter().any(|choice| matches!(choice, Choice::UseAbility(Ability::Daimyo { .. }))));
    assert!(choices.contains(&Choice::Move(Token::Daimyo, Direction::Left)));
}

#[test]
fn a_daimyo_calls_its_tokens() {
    let mut game = position(
        &[(Coordinates(4, -4, 0), token(Color::White, Token::Wave))],
        TurnState::WhiteSecondAction { used_piece: Some(Token::Wave) },
    );
    game.supplies[0] = all_tokens_but(&[Token::Wave]);
    let call = Choice::UseAbility(Ability::Daimyo {
        target: Coordinates(4, -4, 0),
        destination: Coordinates(0, 1, -1),
    });
    let choices = game.list_choices();
    assert!(choices.contains(&call));
    // The wave has acted in this turn, but it can still be called.
    assert!(!choices.iter().any(|choice| matches!(choice, Choice::Move(Token::Wave, _))));
    mcts::game::Game::apply_choice(&mut game, &call);
    assert_eq!(game.board.get_space(Coordinates(4, -4, 0)), Space::Empty);
    assert_eq!(game.board.get_space(Coordinates(0, 1, -1)), token(Color::White, Token::Wave));
    assert_eq!(game.turn_state, TurnState::BlackFirstAction);
}

#[test]
fn used_pieces_are_named_by_the_action() {
    assert_eq!(Game::used_piece(&Choice::Pass), None);
    assert_eq!(Game::used_piece(&Choice::Deploy(Token::Hook, None)), None);
    assert_eq!(Game::used_piece(&Choice::Revive(Token::Hook)), None);
    assert_eq!(Game::used_piece(&Choice::Move(Token::Hook, Direction::Left)), Some(Token::Hook));
    let cell = Coordinates(0, 0, 0);
    assert_eq!(
        Game::used_piece(&Choice::UseAbility(Ability::Bomb { origin: cell })),
        Some(Token::Bomb)
    );
    assert_eq!(
        Game::used_piece(&Choice::UseAbility(Ability::Scout { target: cell, destination: cell })),
        Some(Token::Scout)
    );
    assert_eq!(
        Game::used_piece(&Choice::UseAbility(Ability::Daimyo { target: cell, destination: cell })),
        Some(Token::Daimyo)
    );
}

#[test]
fn simulations_are_broken_off_after_fifty_actions() {
    let mut game = Game::new();
    assert!(mcts::game::Game::heuristic_early_terminate(&game).is_none());
    game.choice_number = 50;
    assert!(mcts::game::Game::heuristic_early_terminate(&game).is_none());
    game.choice_number = 51;
    assert_eq!(mcts::game::Game::heuristic_early_terminate(&game), Some(Ending::Unfinished));
    assert!(matches!(mcts::game::Game::status(&game), Status::AwaitingAction(Color::White)));
    game.choice_number = u32::MAX;
    assert!(matches!(mcts::game::Game::status(&game), Status::Terminated(Ending::Unfinished)));
    game.turn_state = TurnState::WonBy(None);
    assert!(matches!(mcts::game::Game::status(&game), Status::Terminated(Ending::Drawn)));
}

#[test]
fn a_clone_is_the_same_position() {
    let mut game = Game::new();
    mcts::game::Game::apply_choice(&mut game, &Choice::Deploy(Token::Bomb, None));
    let copy = game.clone();
    assert_eq!(copy.supplies, game.supplies);
    assert_eq!(copy.graveyards, game.graveyards);
    assert_eq!(copy.hand_directions, game.hand_directions);
    assert_eq!(copy.turn_state, game.turn_state);
    assert_eq!(copy.choice_number, game.choice_number);
    assert_eq!(copy.list_choices(), game.list_choices());
    assert_eq!(copy.board.get_space(Coordinates(-2, 4, -2)), token(Color::White, Token::Bomb));
}

#[test]
fn the_default_action_is_to_pass() {
    assert_eq!(Choice::default(), Choice::Pass);
}
