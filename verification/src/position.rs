//! The board game as a mathematical model: what a position is, which
//! moves the rules allow in it, and what each move makes of it.

use crate::board::{key, on_hexagon, Board, Color, Piece, Space, Token};
use crate::choice::{Ability, Choice};
use crate::hex::{leap, Coordinates, Direction};
use crate::rules::TurnState;
use vstd::prelude::*;

verus! {

/// Variant rule: a token that ends an action on the centre cell is lost.
pub const USE_VARIANT_PIT_OF_MISFORTUNE: bool = true;

/// Variant rule: lost tokens go to the graveyard, not back to the supply.
pub const USE_VARIANT_PERMA_DEATH: bool = true;

/// Variant rule: a side may spend an action to bring a token back from the
/// graveyard to its supply.
pub const USE_VARIANT_REVIVE_ACTION: bool = true;

/// Variant rule: the game also ends when each village holds a good rock.
pub const USE_VARIANT_END_IF_GOOD_ROCK_IN_BOTH_VILLAGES: bool = true;

/// Whether `c` is the first cell of the hexagon, in scan order, that holds
/// `piece`.
pub open spec fn holds_first(grid: Map<(int, int), Space>, piece: Piece, c: Coordinates) -> bool {
    &&& on_hexagon(c.0 as int, c.1 as int)
    &&& c.2 == -c.0 - c.1
    &&& grid[key(c)] == Space::Occupied(piece)
    &&& forall|q: int, r: int|
        on_hexagon(q, r) && (q < c.0 || (q == c.0 && r < c.1)) ==> #[trigger] grid[(q, r)]
            != Space::Occupied(piece)
}

/// The first cell of the hexagon, in scan order, that holds `piece`.
pub open spec fn first_cell(grid: Map<(int, int), Space>, piece: Piece) -> Coordinates {
    choose|c: Coordinates| holds_first(grid, piece, c)
}

/// Whether `piece` stands on the hexagon.
pub open spec fn stands(grid: Map<(int, int), Space>, piece: Piece) -> bool {
    exists|q: int, r: int| on_hexagon(q, r) && #[trigger] grid[(q, r)] == Space::Occupied(piece)
}

/// The board when what stood on `from` stands on `to`.
pub open spec fn relocate(
    grid: Map<(int, int), Space>,
    from: Coordinates,
    to: Coordinates,
) -> Map<(int, int), Space> {
    grid.insert(key(to), grid[key(from)]).insert(key(from), Space::Empty)
}

/// The board when the contents of two cells have changed places.
pub open spec fn exchange(
    grid: Map<(int, int), Space>,
    a: Coordinates,
    b: Coordinates,
) -> Map<(int, int), Space> {
    grid.insert(key(b), grid[key(a)]).insert(key(a), grid[key(b)])
}

/// Whether the map has every cell of the grid, and no piece stands on two
/// cells of the hexagon.
pub open spec fn tidy(grid: Map<(int, int), Space>) -> bool {
    &&& forall|q: int, r: int|
        -5 <= q <= 5 && -5 <= r <= 5 ==> #[trigger] grid.dom().contains((q, r))
    &&& forall|q: int, r: int, x: int, y: int|
        on_hexagon(q, r) && on_hexagon(x, y) && #[trigger] grid[(q, r)] == #[trigger] grid[(x, y)]
            && grid[(q, r)] != Space::Empty ==> q == x && r == y
}

/// Whether `c` names a cell of the hexagon.
pub open spec fn on_cell(c: Coordinates) -> bool {
    on_hexagon(c.0 as int, c.1 as int) && c.2 == -c.0 - c.1
}

/// Whether the three coordinates add up to nought.
pub open spec fn is_cube(c: Coordinates) -> bool {
    c.2 == -c.0 - c.1
}

/// Whether the same pieces stand on the two boards.
pub open spec fn same_pieces(before: Map<(int, int), Space>, after: Map<(int, int), Space>) -> bool {
    forall|piece: Piece| #[trigger] stands(after, piece) <==> stands(before, piece)
}

/// Whether `after` has the pieces of `before` but for `gone`.
pub open spec fn pieces_but(
    before: Map<(int, int), Space>,
    after: Map<(int, int), Space>,
    gone: Piece,
) -> bool {
    forall|piece: Piece| #[trigger] stands(after, piece) <==> stands(before, piece) && piece != gone
}

/// The list without every occurrence of `token`.
pub open spec fn without(list: Seq<Token>, token: Token) -> Seq<Token>
    decreases list.len(),
{
    if list.len() == 0 {
        list
    } else if list.last() == token {
        without(list.drop_last(), token)
    } else {
        without(list.drop_last(), token).push(list.last())
    }
}

/// How far a cell lies along `direction`: each step in that direction
/// takes a piece one further.
pub open spec fn rank(cell: (int, int), direction: Direction) -> int {
    match direction {
        Direction::Left => -cell.0,
        Direction::UpLeft => -cell.1,
        Direction::UpRight | Direction::Right => cell.0,
        Direction::DownRight | Direction::DownLeft => cell.1,
    }
}

/// A bound on the steps that can be taken from `from` in `direction`
/// before the board is left.
pub open spec fn reach(from: Coordinates, direction: Direction) -> nat {
    if from.spec_is_off_board() {
        0
    } else {
        (6 - rank(key(from), direction)) as nat
    }
}

/// What a push leaves behind: the board, and the token that fell off it.
pub struct Slide {
    pub grid: Map<(int, int), Space>,
    pub fallen: Option<(Color, Token)>,
}

/// Pushes whatever stands on `from`, a cell of the board, up to `distance`
/// cells in `direction`. The piece slides while the next cell is a free
/// cell of the board. If it is stopped by the edge, a token falls off and
/// a rock stays where it is.
pub open spec fn slide(
    grid: Map<(int, int), Space>,
    from: Coordinates,
    direction: Direction,
    distance: nat,
) -> Slide
    decreases distance,
{
    let next = from.spec_step(direction);
    if distance == 0 {
        Slide { grid, fallen: None }
    } else if next.spec_is_off_board() {
        match grid[key(from)] {
            Space::Occupied(Piece::Token(color, token)) => Slide {
                grid: grid.insert(key(from), Space::Empty),
                fallen: Some((color, token)),
            },
            _ => Slide { grid, fallen: None },
        }
    } else if grid[key(next)] == Space::Empty {
        slide(
            grid.insert(key(next), grid[key(from)]).insert(key(from), Space::Empty),
            next,
            direction,
            (distance - 1) as nat,
        )
    } else {
        Slide { grid, fallen: None }
    }
}

/// The token that an ability belongs to.
pub open spec fn ability_token(ability: Ability) -> Token {
    match ability {
        Ability::Hammer { .. } => Token::Hammer,
        Ability::Wave { .. } => Token::Wave,
        Ability::Scout { .. } => Token::Scout,
        Ability::Daimyo { .. } => Token::Daimyo,
        Ability::Hook { .. } => Token::Hook,
        Ability::Bomb { .. } => Token::Bomb,
        Ability::Hand { .. } => Token::Hand,
    }
}

/// The token that an action uses, which may not act again in the same
/// turn.
pub open spec fn used_by(choice: Choice) -> Option<Token> {
    match choice {
        Choice::Move(token, _) => Some(token),
        Choice::UseAbility(ability) => Some(ability_token(ability)),
        _ => None,
    }
}

/// Whether a cell with this `r` coordinate lies in the village of `color`.
pub open spec fn in_village(r: int, color: Color) -> bool {
    match color {
        Color::Black => r <= -4,
        Color::White => r >= 4,
    }
}

/// The state of the turn once the rocks stand on the cells given: the game
/// is won when the bad rock is in a village, by the other side, or when
/// both good rocks are in one village, by that side; with one good rock in
/// either village, by white unless the bad rock is on the middle row.
pub open spec fn judge(
    turn_state: TurnState,
    bad: Coordinates,
    good: Coordinates,
    good_2: Coordinates,
) -> TurnState {
    let first = if in_village(bad.1 as int, Color::White) {
        TurnState::WonBy(Some(Color::Black))
    } else {
        turn_state
    };
    let second = if in_village(bad.1 as int, Color::Black) {
        TurnState::WonBy(Some(Color::White))
    } else {
        first
    };
    let third = if in_village(good.1 as int, Color::White) && in_village(
        good_2.1 as int,
        Color::White,
    ) {
        TurnState::WonBy(Some(Color::White))
    } else {
        second
    };
    let fourth = if in_village(good.1 as int, Color::Black) && in_village(
        good_2.1 as int,
        Color::Black,
    ) {
        TurnState::WonBy(Some(Color::Black))
    } else {
        third
    };
    if USE_VARIANT_END_IF_GOOD_ROCK_IN_BOTH_VILLAGES && ((in_village(good.1 as int, Color::Black)
        && in_village(good_2.1 as int, Color::White)) || (in_village(good.1 as int, Color::White)
        && in_village(good_2.1 as int, Color::Black))) && bad.1 != 0 {
        TurnState::WonBy(Some(Color::White))
    } else {
        fourth
    }
}

/// Whose action is next: each side acts twice, and the second action may
/// not use the token that made the first.
pub open spec fn advance(turn_state: TurnState, used_piece: Option<Token>) -> TurnState {
    match turn_state {
        TurnState::WhiteFirstAction => TurnState::WhiteSecondAction { used_piece },
        TurnState::WhiteSecondAction { .. } => TurnState::BlackFirstAction,
        TurnState::BlackFirstAction => TurnState::BlackSecondAction { used_piece },
        TurnState::BlackSecondAction { .. } => TurnState::WhiteFirstAction,
        TurnState::WonBy(winner) => TurnState::WonBy(winner),
    }
}

/// The model of a position: the board as a map from grid cells to their
/// contents, the per-side lists with white first, the state of the turn
/// and the number of actions taken.
pub struct Position {
    pub grid: Map<(int, int), Space>,
    pub supplies: Seq<Seq<Token>>,
    pub graveyards: Seq<Seq<Token>>,
    pub hand_directions: Seq<Direction>,
    pub turn_state: TurnState,
    pub choice_number: int,
}

impl Position {
    /// The position when a token, if any, has been lost.
    pub open spec fn lose(self, fallen: Option<(Color, Token)>) -> Position {
        match fallen {
            Some((color, token)) => if USE_VARIANT_PERMA_DEATH {
                Position {
                    graveyards: self.graveyards.update(
                        color.spec_index(),
                        self.graveyards[color.spec_index()].push(token),
                    ),
                    ..self
                }
            } else {
                Position {
                    supplies: self.supplies.update(
                        color.spec_index(),
                        self.supplies[color.spec_index()].push(token),
                    ),
                    ..self
                }
            },
            None => self,
        }
    }

    /// The position when the piece on `target` has been pushed.
    pub open spec fn pushed(self, target: Coordinates, direction: Direction, distance: nat) -> Position {
        let slid = slide(self.grid, target, direction, distance);
        Position { grid: slid.grid, ..self }.lose(slid.fallen)
    }

    /// The position when the row of pieces that starts on `target` and
    /// runs in `direction` has been pushed, the farthest piece first.
    pub open spec fn cascaded(
        self,
        target: Coordinates,
        direction: Direction,
        distance: nat,
    ) -> Position
        decreases reach(target, direction),
    {
        if target.spec_is_off_board() || !target.can_step() || self.grid[key(target)]
            == Space::Empty {
            self
        } else {
            self.cascaded(target.spec_step(direction), direction, distance).pushed(
                target,
                direction,
                distance,
            )
        }
    }
}

impl Position {
    /// The position when a bomb has gone off on `origin` in the first
    /// `directions` directions: in each the row of pieces next to the bomb
    /// is pushed by one cell.
    pub open spec fn bombed(self, origin: Coordinates, directions: nat) -> Position
        decreases directions,
    {
        if directions == 0 || directions > 6 {
            self
        } else {
            let direction = Direction::spec_all()[directions - 1];
            self.bombed(origin, (directions - 1) as nat).cascaded(
                origin.spec_step(direction),
                direction,
                1,
            )
        }
    }

    /// The position when `color` has made the move `choice`, before the
    /// position is settled.
    pub open spec fn acted(self, color: Color, choice: Choice) -> Position {
        let side = color.spec_index();
        match choice {
            Choice::Pass => self,
            Choice::Deploy(token, direction) => Position {
                grid: self.grid.insert(
                    key(Board::spec_gate_coords(color)),
                    Space::Occupied(Piece::Token(color, token)),
                ),
                supplies: self.supplies.update(side, without(self.supplies[side], token)),
                hand_directions: match direction {
                    Some(direction) => self.hand_directions.update(side, direction),
                    None => self.hand_directions,
                },
                ..self
            },
            Choice::Move(token, direction) => {
                let from = first_cell(self.grid, Piece::Token(color, token));
                Position { grid: relocate(self.grid, from, from.spec_step(direction)), ..self }
            },
            Choice::UseAbility(ability) => match ability {
                Ability::Hammer { target, direction, distance } => self.pushed(
                    target,
                    direction,
                    distance as nat,
                ),
                Ability::Wave { target, destination } => Position {
                    grid: relocate(self.grid, target, destination),
                    ..self
                },
                Ability::Scout { target, destination } => Position {
                    grid: exchange(self.grid, target, destination),
                    ..self
                },
                Ability::Daimyo { target, destination } => Position {
                    grid: relocate(self.grid, target, destination),
                    ..self
                },
                Ability::Hook { target, direction, distance } => self.pushed(
                    target,
                    direction,
                    distance as nat,
                ),
                Ability::Bomb { origin } => self.bombed(origin, 6),
                Ability::Hand { origin, move_direction, hand_direction } => Position {
                    grid: relocate(self.grid, origin, origin.spec_step(move_direction)),
                    hand_directions: self.hand_directions.update(side, hand_direction),
                    ..self
                },
            },
            Choice::Revive(token) => Position {
                supplies: self.supplies.update(side, self.supplies[side].push(token)),
                graveyards: self.graveyards.update(side, without(self.graveyards[side], token)),
                ..self
            },
        }
    }

    /// The position when a token on the centre cell has been lost.
    pub open spec fn drained(self) -> Position {
        match self.grid[(0, 0)] {
            Space::Occupied(Piece::Token(color, token)) => if USE_VARIANT_PIT_OF_MISFORTUNE {
                Position { grid: self.grid.insert((0, 0), Space::Empty), ..self }.lose(
                    Some((color, token)),
                )
            } else {
                self
            },
            _ => self,
        }
    }

    /// Whether `c` is a free cell of the board.
    pub open spec fn free(self, c: Coordinates) -> bool {
        !c.spec_is_off_board() && self.grid[key(c)] == Space::Empty
    }

    /// Whether `c` is a cell of the board on which something stands.
    pub open spec fn blocked(self, c: Coordinates) -> bool {
        !c.spec_is_off_board() && self.grid[key(c)] != Space::Empty
    }

    /// The cell that the hand of the other side holds, if that hand is on
    /// the board. What stands there cannot act.
    pub open spec fn grabbed(self, color: Color) -> Option<Coordinates> {
        let hand = Piece::Token(color.spec_opposite(), Token::Hand);
        if stands(self.grid, hand) {
            Some(
                first_cell(self.grid, hand).spec_step(
                    self.hand_directions[color.spec_opposite().spec_index()],
                ),
            )
        } else {
            None
        }
    }

    /// Whether `token` of `color` stands on `c`, a cell of the hexagon.
    pub open spec fn unit(self, color: Color, token: Token, c: Coordinates) -> bool {
        &&& on_hexagon(c.0 as int, c.1 as int)
        &&& c.2 == -c.0 - c.1
        &&& self.grid[key(c)] == Space::Occupied(Piece::Token(color, token))
    }

    /// Whether `token` of `color` stands on `c` and can act: it has not
    /// acted in this turn and is not held by the other side's hand.
    pub open spec fn usable(
        self,
        color: Color,
        used_piece: Option<Token>,
        token: Token,
        c: Coordinates,
    ) -> bool {
        &&& self.unit(color, token, c)
        &&& used_piece != Some(token)
        &&& self.grabbed(color) != Some(c)
    }

    /// Whether `choice` is a step of the token on `c` onto a free
    /// neighbouring cell. The hand does not step.
    pub open spec fn steps(self, token: Token, c: Coordinates, choice: Choice) -> bool {
        choice matches Choice::Move(moved, direction) && moved == token && token != Token::Hand
            && self.free(c.spec_step(direction))
    }

    /// Whether `choice` is a use of its ability by the token of `color` on
    /// `c`.
    ///
    /// The daimyo calls another token of its side, one that no hand holds,
    /// to a free cell next to itself. The scout changes places with a piece
    /// one or two cells away in a straight line. The hammer pushes a piece
    /// next to it away by up to three cells. The hook pulls a piece two to
    /// four cells away towards itself, by less than their distance. The
    /// wave throws a piece next to it over itself onto the free cell
    /// opposite. The hand steps onto a free neighbouring cell and points
    /// where it likes. The bomb goes off where it stands.
    pub open spec fn wields(self, color: Color, token: Token, c: Coordinates, choice: Choice) -> bool {
        choice matches Choice::UseAbility(ability) && match ability {
            Ability::Daimyo { target, destination } => {
                &&& token == Token::Daimyo
                &&& exists|other: Token|
                    other != Token::Daimyo && #[trigger] self.unit(color, other, target)
                &&& self.grabbed(color) != Some(target)
                &&& self.free(destination)
                &&& exists|direction: Direction| destination == #[trigger] c.spec_step(direction)
            },
            Ability::Scout { target, destination } => {
                &&& token == Token::Scout
                &&& target == c
                &&& self.blocked(destination)
                &&& exists|direction: Direction|
                    destination == #[trigger] c.spec_step(direction) || destination
                        == c.spec_step(direction).spec_step(direction)
            },
            Ability::Hammer { target, direction, distance } => {
                &&& token == Token::Hammer
                &&& target == c.spec_step(direction)
                &&& self.blocked(target)
                &&& 1 <= distance <= 3
            },
            Ability::Hook { target, direction, distance } => {
                &&& token == Token::Hook
                &&& self.blocked(target)
                &&& exists|span: int|
                    2 <= span <= 4 && distance < span && target == #[trigger] leap(
                        c,
                        direction.spec_opposite(),
                        span,
                    )
                &&& 1 <= distance
            },
            Ability::Wave { target, destination } => {
                &&& token == Token::Wave
                &&& self.blocked(target)
                &&& self.free(destination)
                &&& exists|direction: Direction|
                    target == #[trigger] c.spec_step(direction) && destination == c.spec_step(
                        direction.spec_opposite(),
                    )
            },
            Ability::Hand { origin, move_direction, hand_direction } => {
                &&& token == Token::Hand
                &&& origin == c
                &&& self.free(c.spec_step(move_direction))
            },
            Ability::Bomb { origin } => token == Token::Bomb && origin == c,
        }
    }

    /// Whether the token of `color` that stands on `c` can make the move
    /// `choice`: a step, or a use of its ability.
    pub open spec fn unit_allows(
        self,
        color: Color,
        token: Token,
        c: Coordinates,
        choice: Choice,
    ) -> bool {
        self.steps(token, c, choice) || self.wields(color, token, c, choice)
    }

    /// Whether `choice` deploys a token of the supply of `color` on its
    /// gate, which is free: the hand with the direction in which it is to
    /// point, any other token without one.
    pub open spec fn deploys(self, color: Color, choice: Choice) -> bool {
        choice matches Choice::Deploy(token, direction) && self.grid[key(
            Board::spec_gate_coords(color),
        )] == Space::Empty && self.supplies[color.spec_index()].contains(token) && (token
            == Token::Hand <==> direction is Some)
    }

    /// Whether `choice` revives a token of the graveyard of `color`.
    pub open spec fn revives(self, color: Color, choice: Choice) -> bool {
        choice matches Choice::Revive(token) && USE_VARIANT_REVIVE_ACTION
            && self.graveyards[color.spec_index()].contains(token)
    }

    /// Whether the side to act may make the move `choice`.
    ///
    /// Passing is always allowed. While the game runs, a side may also act
    /// with a token that can act (see `unit_allows`), deploy a token (see
    /// `deploys`), or revive one (see `revives`).
    pub open spec fn allows(self, choice: Choice) -> bool {
        match choice {
            Choice::Pass => true,
            Choice::Deploy(_, _) => {
                &&& self.turn_state.spec_matchable() matches Some((color, _))
                &&& self.deploys(color, choice)
            },
            Choice::Revive(_) => {
                &&& self.turn_state.spec_matchable() matches Some((color, _))
                &&& self.revives(color, choice)
            },
            _ => {
                &&& self.turn_state.spec_matchable() matches Some((color, used_piece))
                &&& exists|token: Token, c: Coordinates|
                    #[trigger] self.usable(color, used_piece, token, c) && self.unit_allows(
                        color,
                        token,
                        c,
                        choice,
                    )
            },
        }
    }

    /// Whether the side lists are in place: one supply, one graveyard and
    /// one hand direction for either side.
    pub open spec fn shaped(self) -> bool {
        &&& self.supplies.len() == 2
        &&& self.graveyards.len() == 2
        &&& self.hand_directions.len() == 2
        &&& forall|q: int, r: int|
            -5 <= q <= 5 && -5 <= r <= 5 ==> #[trigger] self.grid.dom().contains((q, r))
    }

    /// Whether `color` holds `token` in reserve.
    pub open spec fn in_supply(self, color: Color, token: Token) -> bool {
        self.supplies[color.spec_index()].contains(token)
    }

    /// Whether `color` has lost `token`.
    pub open spec fn in_graveyard(self, color: Color, token: Token) -> bool {
        self.graveyards[color.spec_index()].contains(token)
    }

    /// Whether `token` of `color` stands on the hexagon.
    pub open spec fn on_board(self, color: Color, token: Token) -> bool {
        stands(self.grid, Piece::Token(color, token))
    }

    /// Whether every piece is in one place only: no piece stands on two
    /// cells of the hexagon, no token in a supply stands on the board, and
    /// no token in a graveyard stands on the board or is in the supply.
    pub open spec fn placed_once(self) -> bool {
        &&& forall|q: int, r: int, x: int, y: int|
            on_hexagon(q, r) && on_hexagon(x, y) && #[trigger] self.grid[(q, r)]
                == #[trigger] self.grid[(x, y)] && self.grid[(q, r)] != Space::Empty ==> q == x
                && r == y
        &&& forall|color: Color, token: Token|
            #[trigger] self.in_supply(color, token) ==> !self.on_board(color, token)
        &&& forall|color: Color, token: Token|
            #[trigger] self.in_graveyard(color, token) ==> !self.on_board(color, token)
                && !self.in_supply(color, token)
    }

    /// What holds of every position of a game: the lists are in place, the
    /// rocks stand on the hexagon, and every piece is in one place only.
    pub open spec fn sound(self) -> bool {
        &&& self.shaped()
        &&& self.rocks_stand()
        &&& self.placed_once()
    }

    /// Whether the three rocks stand on the hexagon.
    pub open spec fn rocks_stand(self) -> bool {
        &&& stands(self.grid, Piece::BadRock)
        &&& stands(self.grid, Piece::GoodRock)
        &&& stands(self.grid, Piece::GoodRock2)
    }

    /// The position when a move has been made with `used_piece` and is
    /// settled: a token on the centre cell is lost, the game is judged, the
    /// turn moves on and the action is counted.
    pub open spec fn settled(self, used_piece: Option<Token>) -> Position {
        let drained = self.drained();
        let judged = judge(
            drained.turn_state,
            first_cell(drained.grid, Piece::BadRock),
            first_cell(drained.grid, Piece::GoodRock),
            first_cell(drained.grid, Piece::GoodRock2),
        );
        Position {
            turn_state: advance(judged, used_piece),
            choice_number: self.choice_number + 1,
            ..drained
        }
    }

    /// The position when the side to act has made the move `choice`, and
    /// the move is settled. When the game is over, no move is made.
    pub open spec fn after(self, choice: Choice) -> Position {
        match self.turn_state.spec_matchable() {
            Some((color, _)) => self.acted(color, choice).settled(used_by(choice)),
            None => self.settled(None),
        }
    }
}

/// What an allowed use of an ability says of the cells it names: they are
/// cells of the hexagon, a piece that is to move stands on its cell, and a
/// cell that is to be entered is free.
pub open spec fn ability_fits(position: Position, ability: Ability) -> bool {
    match ability {
        Ability::Hammer { target, direction, distance } => on_cell(target) && position.blocked(
            target,
        ),
        Ability::Hook { target, direction, distance } => on_cell(target) && position.blocked(target),
        Ability::Wave { target, destination } => on_cell(target) && on_cell(destination)
            && position.free(destination),
        Ability::Daimyo { target, destination } => on_cell(target) && on_cell(destination)
            && position.free(destination),
        Ability::Scout { target, destination } => on_cell(target) && on_cell(destination),
        Ability::Bomb { origin } => on_cell(origin),
        Ability::Hand { origin, move_direction, hand_direction } => on_cell(origin) && on_cell(
            origin.spec_step(move_direction),
        ) && position.free(origin.spec_step(move_direction)),
    }
}

} // verus!
