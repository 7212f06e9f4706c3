//! The rules of the board game at work: whose turn it is, and how each
//! action changes the position.

use crate::board::{on_hexagon, Board, Color, Piece, Space, Token};
use crate::choice::{Ability, Choice};
use crate::game::{Outcome, FULL_REWARD};
use crate::hex::{Coordinates, Direction};
use crate::position::{
    first_cell, reach, slide, stands, used_by, without, Position,
    USE_VARIANT_END_IF_GOOD_ROCK_IN_BOTH_VILLAGES,
    USE_VARIANT_PERMA_DEATH, USE_VARIANT_PIT_OF_MISFORTUNE,
};
use crate::sound::{
    lemma_cascade_frame, lemma_counted, lemma_drained_sound, lemma_first_cell, lemma_initial_sound,
    lemma_stands,
};
use vstd::prelude::*;

verus! {

/// Each side acts twice per turn; the second action may not reuse the token
/// that made the first.
#[derive(Clone, Copy, Debug, PartialEq, Eq, Structural)]
pub enum TurnState {
    WhiteFirstAction,
    WhiteSecondAction { used_piece: Option<Token> },
    BlackFirstAction,
    BlackSecondAction { used_piece: Option<Token> },
    WonBy(Option<Color>),
}

impl TurnState {
    /// The side to act and the token it may not use, while the game runs.
    pub open spec fn spec_matchable(self) -> Option<(Color, Option<Token>)> {
        match self {
            TurnState::WhiteFirstAction => Some((Color::White, None)),
            TurnState::WhiteSecondAction { used_piece } => Some((Color::White, used_piece)),
            TurnState::BlackFirstAction => Some((Color::Black, None)),
            TurnState::BlackSecondAction { used_piece } => Some((Color::Black, used_piece)),
            TurnState::WonBy(_) => None,
        }
    }

    /// The token that may not act now, if there is one.
    pub open spec fn spec_used_piece(self) -> Option<Token> {
        match self.spec_matchable() {
            Some((_, used_piece)) => used_piece,
            None => None,
        }
    }

    /// The side to act, while the game runs.
    pub open spec fn spec_color(self) -> Option<Color> {
        match self.spec_matchable() {
            Some((color, _)) => Some(color),
            None => None,
        }
    }

    /// The side to act and the token it may not use, while the game runs.
    pub fn get_matchable(&self) -> (r: Option<(Color, Option<Token>)>)
        ensures
            r == self.spec_matchable(),
    {
        match self {
            TurnState::WhiteFirstAction => Some((Color::White, None)),
            TurnState::WhiteSecondAction { used_piece } => Some((Color::White, *used_piece)),
            TurnState::BlackFirstAction => Some((Color::Black, None)),
            TurnState::BlackSecondAction { used_piece } => Some((Color::Black, *used_piece)),
            TurnState::WonBy(_) => None,
        }
    }

    /// The side to act, while the game runs.
    pub fn get_color(&self) -> (r: Option<Color>)
        ensures
            r == self.spec_color(),
    {
        if let Some((color, _)) = self.get_matchable() {
            Some(color)
        } else {
            None
        }
    }
}

/// How a game ended, or that it was broken off.
#[derive(Debug, Copy, Clone, PartialEq, Eq, Structural)]
pub enum Ending {
    Won(Color),
    Drawn,
    Unfinished,
}

impl Ending {
    /// What the ending pays `color`: all for a win, half for a draw,
    /// nothing otherwise.
    pub open spec fn spec_reward(self, color: Color) -> u64 {
        match self {
            Ending::Won(winner) => if winner == color {
                FULL_REWARD
            } else {
                0
            },
            Ending::Drawn => (FULL_REWARD / 2) as u64,
            Ending::Unfinished => 0,
        }
    }
}

impl Outcome<Color> for Ending {
    /// What the ending pays `player_id`.
    fn reward_for(&self, player_id: Color) -> (reward: u64)
        ensures
            reward == self.spec_reward(player_id),
    {
        match self {
            Ending::Won(winner) => if *winner == player_id {
                FULL_REWARD
            } else {
                0
            },
            Ending::Drawn => FULL_REWARD / 2,
            Ending::Unfinished => 0,
        }
    }
}

/// A position of the game: the board, what each side holds in reserve and
/// has lost, where each side's hand points, and whose action it is.
/// Per-side arrays hold white first and black second.
pub struct Game {
    pub board: Board,
    pub supplies: [Vec<Token>; 2],
    pub graveyards: [Vec<Token>; 2],
    pub hand_directions: [Direction; 2],
    pub turn_state: TurnState,
    pub choice_number: u32,
}

impl View for Game {
    type V = Position;

    /// The model of the position.
    open spec fn view(&self) -> Position {
        Position {
            grid: self.board.grid(),
            supplies: Seq::new(2, |i: int| self.supplies@[i]@),
            graveyards: Seq::new(2, |i: int| self.graveyards@[i]@),
            hand_directions: self.hand_directions@,
            turn_state: self.turn_state,
            choice_number: self.choice_number as int,
        }
    }
}

/// Removes every occurrence of `token` from `list`.
pub fn discard(list: &mut Vec<Token>, token: Token)
    ensures
        final(list)@ == without(old(list)@, token),
{
    let mut kept: Vec<Token> = Vec::new();
    let mut i: usize = 0;
    while i < list.len()
        invariant
            i <= list.len(),
            *list == *old(list),
            kept@ == without(list@.take(i as int), token),
        decreases list.len() - i,
    {
        assert(list@.take(i + 1).drop_last() =~= list@.take(i as int));
        if list[i] != token {
            kept.push(list[i]);
        }
        i += 1;
    }
    assert(list@.take(list.len() as int) =~= list@);
    *list = kept;
}

impl Game {
    /// The position in which a game begins: the starting board, every token
    /// but the daimyos in the supplies, and white to act.
    pub fn new() -> (game: Game)
        ensures
            game.board.is_initial(),
            game@.supplies == seq![
                seq![
                    Token::Scout,
                    Token::Hammer,
                    Token::Hook,
                    Token::Wave,
                    Token::Hand,
                    Token::Bomb,
                ],
                seq![
                    Token::Scout,
                    Token::Hammer,
                    Token::Hook,
                    Token::Wave,
                    Token::Hand,
                    Token::Bomb,
                ],
            ],
            game@.graveyards == seq![Seq::<Token>::empty(), Seq::<Token>::empty()],
            game@.hand_directions == seq![Direction::Left, Direction::Right],
            game.turn_state == TurnState::WhiteFirstAction,
            game.choice_number == 0,
            game@.sound(),
    {
        let game = Game {
            board: Board::new(),
            supplies: [
                vec![
                    Token::Scout,
                    Token::Hammer,
                    Token::Hook,
                    Token::Wave,
                    Token::Hand,
                    Token::Bomb,
                ],
                vec![
                    Token::Scout,
                    Token::Hammer,
                    Token::Hook,
                    Token::Wave,
                    Token::Hand,
                    Token::Bomb,
                ],
            ],
            graveyards: [vec![], vec![]],
            hand_directions: [Direction::Left, Direction::Right],
            turn_state: TurnState::WhiteFirstAction,
            choice_number: 0,
        };
        proof {
            let expected = seq![
                Token::Scout,
                Token::Hammer,
                Token::Hook,
                Token::Wave,
                Token::Hand,
                Token::Bomb,
            ];
            assert(game@.supplies[0] =~= expected);
            assert(game@.supplies[1] =~= expected);
            assert(game@.supplies =~= seq![expected, expected]);
            assert(game@.graveyards[0] =~= Seq::<Token>::empty());
            assert(game@.graveyards[1] =~= Seq::<Token>::empty());
            assert(game@.graveyards =~= seq![Seq::<Token>::empty(), Seq::<Token>::empty()]);
            assert(game@.hand_directions =~= seq![Direction::Left, Direction::Right]);
            lemma_initial_sound(game@);
        }
        game
    }

    /// Records that `token` of `color` has left the board for good.
    fn bury(&mut self, color: Color, token: Token)
        ensures
            final(self)@ == old(self)@.lose(Some((color, token))),
            final(self).board == old(self).board,
            final(self).turn_state == old(self).turn_state,
            final(self).choice_number == old(self).choice_number,
    {
        if USE_VARIANT_PERMA_DEATH {
            self.graveyards[color.index()].push(token);
        } else {
            self.supplies[color.index()].push(token);
        }
        proof {
            let expected = old(self)@.lose(Some((color, token)));
            assert(self@.graveyards =~= expected.graveyards);
            assert(self@.supplies =~= expected.supplies);
        }
    }

    /// Pushes the piece on `target` up to `distance` cells in `direction`;
    /// a token that falls off the board is lost. To push a cell on which
    /// nothing stands is the caller's error: there is nothing that could
    /// come to the edge.
    pub fn push(&mut self, target: Coordinates, direction: Direction, distance: usize)
        requires
            !target.spec_is_off_board(),
            old(self).board.space(target) != Space::Empty,
        ensures
            final(self)@ == old(self)@.pushed(target, direction, distance as nat),
            final(self).turn_state == old(self).turn_state,
            final(self).choice_number == old(self).choice_number,
    {
        let mut previous_position = target;
        let mut next_position = target.step(direction);
        let mut i: usize = 0;
        while i < distance
            invariant
                i <= distance,
                !previous_position.spec_is_off_board(),
                self.board.space(previous_position) != Space::Empty,
                next_position == previous_position.spec_step(direction),
                slide(old(self)@.grid, target, direction, distance as nat) == slide(
                    self@.grid,
                    previous_position,
                    direction,
                    (distance - i) as nat,
                ),
                self@ == (Position { grid: self@.grid, ..old(self)@ }),
            decreases distance - i,
        {
            if next_position.is_off_board() {
                match self.board.get_space(previous_position) {
                    Space::Occupied(Piece::Token(color, token)) => {
                        self.bury(color, token);
                        self.board.set_space(previous_position, Space::Empty);
                    },
                    _ => {},
                }
                return ;
            }
            if self.board.is_empty(next_position) {
                self.board.move_to(previous_position, next_position);
            } else {
                return ;
            }
            previous_position = next_position;
            next_position = next_position.step(direction);
            i += 1;
        }
    }

    /// Pushes the row of pieces that starts on `target` and runs in
    /// `direction`, the farthest piece first.
    pub fn cascading_push(&mut self, target: Coordinates, direction: Direction, distance: usize)
        requires
            target.can_step(),
        ensures
            final(self)@ == old(self)@.cascaded(target, direction, distance as nat),
            final(self).turn_state == old(self).turn_state,
            final(self).choice_number == old(self).choice_number,
        decreases reach(target, direction),
    {
        if !target.is_off_board() && !self.board.is_empty(target) {
            let next_position = target.step(direction);
            self.cascading_push(next_position, direction, distance);
            proof {
                lemma_cascade_frame(old(self)@, next_position, direction, distance as nat);
            }
            self.push(target, direction, distance);
        }
    }
}

impl Game {
    /// Makes the move `choice` for `color`, which must be allowed.
    pub fn act(&mut self, color: Color, choice: &Choice)
        requires
            old(self)@.sound(),
            old(self)@.allows(*choice),
            old(self).turn_state.spec_color() == Some(color),
        ensures
            final(self)@ == old(self)@.acted(color, *choice),
            final(self).turn_state == old(self).turn_state,
            final(self).choice_number == old(self).choice_number,
    {
        let ghost before = self@;
        match choice {
            Choice::Pass => {},
            Choice::Deploy(token, direction) => {
                discard(&mut self.supplies[color.index()], *token);
                self.board.deploy(color, *token);
                if let Some(direction) = direction {
                    self.hand_directions[color.index()] = *direction;
                }
                proof {
                    let expected = before.acted(color, *choice);
                    assert(self@.supplies =~= expected.supplies);
                    assert(self@.graveyards =~= expected.graveyards);
                    assert(self@.hand_directions =~= expected.hand_directions);
                }
            },
            Choice::Move(token, direction) => {
                let piece = Piece::Token(color, *token);
                proof {
                    let (unit_token, c) = choose|unit_token: Token, c: Coordinates|
                        #[trigger] before.usable(
                            color,
                            self.turn_state.spec_used_piece(),
                            unit_token,
                            c,
                        ) && before.unit_allows(color, unit_token, c, *choice);
                    assert(self.board.at(c.0 as int, c.1 as int) == Space::Occupied(piece));
                    assert forall|f: Coordinates| #[trigger]
                        self.board.first_holding(piece, f) implies f == c by {
                        assert(before.grid[(f.0 as int, f.1 as int)] == before.grid[(
                            c.0 as int,
                            c.1 as int,
                        )]);
                    }
                }
                let ghost old_board = self.board;
                self.board.move_piece(piece, *direction);
                proof {
                    let f = choose|f: Coordinates| old_board.first_holding(piece, f);
                    assert(old_board.first_holding(piece, f)) by {
                        let (q, r) = choose|q: int, r: int|
                            on_hexagon(q, r) && old_board.at(q, r) == Space::Occupied(piece);
                        old_board.lemma_first_exists(piece);
                    }
                    lemma_first_cell(&old_board, piece, f);
                    let expected = before.acted(color, *choice);
                    assert(self@.grid =~= expected.grid);
                    assert(self@.supplies =~= expected.supplies);
                    assert(self@.graveyards =~= expected.graveyards);
                }
            },
            Choice::UseAbility(ability) => {
                self.use_ability(color, ability);
            },
            Choice::Revive(token) => {
                self.supplies[color.index()].push(*token);
                discard(&mut self.graveyards[color.index()], *token);
                proof {
                    let expected = before.acted(color, *choice);
                    assert(self@.supplies =~= expected.supplies);
                    assert(self@.graveyards =~= expected.graveyards);
                }
            },
        }
    }

    /// Uses `ability` for `color`, which must be allowed.
    pub fn use_ability(&mut self, color: Color, ability: &Ability)
        requires
            old(self)@.sound(),
            old(self)@.allows(Choice::UseAbility(*ability)),
            old(self).turn_state.spec_color() == Some(color),
        ensures
            final(self)@ == old(self)@.acted(color, Choice::UseAbility(*ability)),
            final(self).turn_state == old(self).turn_state,
            final(self).choice_number == old(self).choice_number,
    {
        let ghost before = self@;
        let ghost choice = Choice::UseAbility(*ability);
        proof {
            let (unit_token, c) = choose|unit_token: Token, c: Coordinates|
                #[trigger] before.usable(
                    color,
                    self.turn_state.spec_used_piece(),
                    unit_token,
                    c,
                ) && before.unit_allows(color, unit_token, c, choice);
            assert(before.unit_allows(color, unit_token, c, choice));
        }
        match ability {
            Ability::Hammer { target, direction, distance } => {
                self.push(*target, *direction, *distance);
            },
            Ability::Wave { target, destination } => {
                self.board.move_to(*target, *destination);
            },
            Ability::Scout { target, destination } => {
                self.board.swap(*target, *destination);
            },
            Ability::Daimyo { target, destination } => {
                self.board.move_to(*target, *destination);
            },
            Ability::Hook { target, direction, distance } => {
                self.push(*target, *direction, *distance);
            },
            Ability::Bomb { origin } => {
                let directions = Direction::all();
                let mut k: usize = 0;
                while k < 6
                    invariant
                        k <= 6,
                        directions@ == Direction::spec_all(),
                        origin.can_leap(2),
                        self@ == before.bombed(*origin, k as nat),
                        self.turn_state == old(self).turn_state,
                        self.choice_number == old(self).choice_number,
                    decreases 6 - k,
                {
                    let direction = directions[k];
                    self.cascading_push(origin.step(direction), direction, 1);
                    k += 1;
                }
            },
            Ability::Hand { origin, move_direction, hand_direction } => {
                self.board.move_to(*origin, origin.step(*move_direction));
                self.hand_directions[color.index()] = *hand_direction;
            },
        }
        proof {
            let expected = before.acted(color, choice);
            assert(self@.grid =~= expected.grid);
            assert(self@.supplies =~= expected.supplies);
            assert(self@.graveyards =~= expected.graveyards);
            assert(self@.hand_directions =~= expected.hand_directions);
        }
    }
}

impl Game {
    /// The token that an action uses.
    pub fn used_piece(choice: &Choice) -> (used: Option<Token>)
        ensures
            used == used_by(*choice),
    {
        match choice {
            Choice::Move(token, _) => Some(*token),
            Choice::UseAbility(ability) => Some(
                match ability {
                    Ability::Hammer { .. } => Token::Hammer,
                    Ability::Wave { .. } => Token::Wave,
                    Ability::Scout { .. } => Token::Scout,
                    Ability::Daimyo { .. } => Token::Daimyo,
                    Ability::Hook { .. } => Token::Hook,
                    Ability::Bomb { .. } => Token::Bomb,
                    Ability::Hand { .. } => Token::Hand,
                },
            ),
            _ => None,
        }
    }

    /// The cell on which a rock stands.
    fn find_rock(&self, rock: Piece) -> (c: Coordinates)
        requires
            stands(self.board.grid(), rock),
        ensures
            c == first_cell(self.board.grid(), rock),
    {
        proof {
            lemma_stands(&self.board, rock);
        }
        match self.board.find(rock) {
            Some(c) => {
                proof {
                    lemma_first_cell(&self.board, rock, c);
                }
                c
            },
            None => vstd::pervasive::unreached(),
        }
    }

    /// Settles a move made with `used_piece`: a token on the centre cell is
    /// lost, the game is judged, the turn moves on and the action is
    /// counted.
    pub fn settle(&mut self, used_piece: Option<Token>)
        requires
            old(self)@.sound(),
            old(self).choice_number < u32::MAX,
        ensures
            final(self)@ == old(self)@.settled(used_piece),
            final(self)@.sound(),
            final(self).choice_number == old(self).choice_number + 1,
    {
        let centre = Coordinates(0, 0, 0);
        if USE_VARIANT_PIT_OF_MISFORTUNE {
            match self.board.get_space(centre) {
                Space::Occupied(Piece::Token(color, token)) => {
                    self.board.set_space(centre, Space::Empty);
                    self.bury(color, token);
                },
                _ => {},
            }
        }
        proof {
            lemma_drained_sound(old(self)@);
            assert(self@ == old(self)@.drained());
        }
        let bad_rock_coordinates = self.find_rock(Piece::BadRock);
        let good_rock_coordinates = self.find_rock(Piece::GoodRock);
        let good_rock_2_coordinates = self.find_rock(Piece::GoodRock2);
        if self.board.is_in_village(bad_rock_coordinates, Color::White) {
            self.turn_state = TurnState::WonBy(Some(Color::Black));
        }
        if self.board.is_in_village(bad_rock_coordinates, Color::Black) {
            self.turn_state = TurnState::WonBy(Some(Color::White));
        }
        if self.board.is_in_village(good_rock_coordinates, Color::White)
            && self.board.is_in_village(good_rock_2_coordinates, Color::White) {
            self.turn_state = TurnState::WonBy(Some(Color::White));
        }
        if self.board.is_in_village(good_rock_coordinates, Color::Black)
            && self.board.is_in_village(good_rock_2_coordinates, Color::Black) {
            self.turn_state = TurnState::WonBy(Some(Color::Black));
        }
        if USE_VARIANT_END_IF_GOOD_ROCK_IN_BOTH_VILLAGES {
            if self.board.is_in_village(good_rock_coordinates, Color::Black)
                && self.board.is_in_village(good_rock_2_coordinates, Color::White) || (
            self.board.is_in_village(good_rock_coordinates, Color::White)
                && self.board.is_in_village(good_rock_2_coordinates, Color::Black)) {
                if bad_rock_coordinates.1 < 0 {
                    self.turn_state = TurnState::WonBy(Some(Color::White));
                } else if bad_rock_coordinates.1 > 0 {
                    self.turn_state = TurnState::WonBy(Some(Color::White));
                }
            }
        }
        match self.turn_state {
            TurnState::WhiteFirstAction => {
                self.turn_state = TurnState::WhiteSecondAction { used_piece };
            },
            TurnState::WhiteSecondAction { .. } => {
                self.turn_state = TurnState::BlackFirstAction;
            },
            TurnState::BlackFirstAction => {
                self.turn_state = TurnState::BlackSecondAction { used_piece };
            },
            TurnState::BlackSecondAction { .. } => {
                self.turn_state = TurnState::WhiteFirstAction;
            },
            TurnState::WonBy(_) => {},
        }
        self.choice_number += 1;
        proof {
            lemma_counted(old(self)@.drained(), self@);
        }
    }
}

} // verus!
