//! The order in which the actions of a position are listed: token by token
//! in scan order, for each token its steps and then the uses of its
//! ability, direction by direction; then the deployments in the order of
//! the supply, then the revivals in the order of the graveyard.
//!
//! Each list below is what has been listed when a number of directions,
//! cells or tokens have been gone through; the numbers count what is done.

use crate::board::{key, scans_before, Board, Color, Space, Token};
use crate::choice::{Ability, Choice};
use crate::hex::{leap, Coordinates, Direction};
use crate::position::{Position, USE_VARIANT_REVIVE_ACTION};
use vstd::prelude::*;

verus! {

/// The steps of `token` on `c` in the first `k` directions.
pub open spec fn step_list(position: Position, token: Token, c: Coordinates, k: int) -> Seq<Choice>
    decreases k,
{
    if k <= 0 {
        Seq::empty()
    } else {
        let direction = Direction::spec_all()[k - 1];
        let before = step_list(position, token, c, k - 1);
        if position.free(c.spec_step(direction)) {
            before.push(Choice::Move(token, direction))
        } else {
            before
        }
    }
}

/// The exchanges of a scout on `c` in the first `k` directions: in each,
/// with the piece next to it and then with the piece behind that.
pub open spec fn scout_list(position: Position, c: Coordinates, k: int) -> Seq<Choice>
    decreases k,
{
    if k <= 0 {
        Seq::empty()
    } else {
        let direction = Direction::spec_all()[k - 1];
        let near = c.spec_step(direction);
        let far = near.spec_step(direction);
        let before = scout_list(position, c, k - 1);
        let with_near = if position.blocked(near) {
            before.push(Choice::UseAbility(Ability::Scout { target: c, destination: near }))
        } else {
            before
        };
        if position.blocked(far) {
            with_near.push(Choice::UseAbility(Ability::Scout { target: c, destination: far }))
        } else {
            with_near
        }
    }
}

/// The pushes of a hammer on `c` in the first `k` directions, and in the
/// next by up to `m` cells.
pub open spec fn hammer_list(position: Position, c: Coordinates, k: int, m: int) -> Seq<Choice>
    decreases k, m,
{
    if k < 0 {
        Seq::empty()
    } else if m > 0 {
        let direction = Direction::spec_all()[k];
        hammer_list(position, c, k, m - 1).push(
            Choice::UseAbility(
                Ability::Hammer {
                    target: c.spec_step(direction),
                    direction,
                    distance: m as usize,
                },
            ),
        )
    } else if k > 0 {
        if position.blocked(c.spec_step(Direction::spec_all()[k - 1])) {
            hammer_list(position, c, k - 1, 3)
        } else {
            hammer_list(position, c, k - 1, 0)
        }
    } else {
        Seq::empty()
    }
}

/// The pulls of a hook on `c` in the first `k` directions, and in the next
/// at the pieces less than `s` cells away, and at the piece `s` cells away
/// by up to `m` cells.
pub open spec fn hook_list(position: Position, c: Coordinates, k: int, s: int, m: int) -> Seq<Choice>
    decreases k, s, m,
{
    if k < 0 || s < 2 {
        Seq::empty()
    } else if m > 0 {
        let direction = Direction::spec_all()[k];
        hook_list(position, c, k, s, m - 1).push(
            Choice::UseAbility(
                Ability::Hook {
                    target: leap(c, direction, s),
                    direction: direction.spec_opposite(),
                    distance: m as usize,
                },
            ),
        )
    } else if s > 2 {
        if position.blocked(leap(c, Direction::spec_all()[k], s - 1)) {
            hook_list(position, c, k, s - 1, s - 2)
        } else {
            hook_list(position, c, k, s - 1, 0)
        }
    } else if k > 0 {
        hook_list(position, c, k - 1, 5, 0)
    } else {
        Seq::empty()
    }
}

/// The throws of a wave on `c` in the first `k` directions.
pub open spec fn wave_list(position: Position, c: Coordinates, k: int) -> Seq<Choice>
    decreases k,
{
    if k <= 0 {
        Seq::empty()
    } else {
        let direction = Direction::spec_all()[k - 1];
        let target = c.spec_step(direction);
        let destination = c.spec_step(direction.spec_opposite());
        let before = wave_list(position, c, k - 1);
        if position.blocked(target) && position.free(destination) {
            before.push(Choice::UseAbility(Ability::Wave { target, destination }))
        } else {
            before
        }
    }
}

/// The steps of a hand on `c` in the first `k` directions, and in the next
/// while it points in the first `j`.
pub open spec fn hand_list(position: Position, c: Coordinates, k: int, j: int) -> Seq<Choice>
    decreases k, j,
{
    if k < 0 {
        Seq::empty()
    } else if j > 0 {
        hand_list(position, c, k, j - 1).push(
            Choice::UseAbility(
                Ability::Hand {
                    origin: c,
                    move_direction: Direction::spec_all()[k],
                    hand_direction: Direction::spec_all()[j - 1],
                },
            ),
        )
    } else if k > 0 {
        if position.free(c.spec_step(Direction::spec_all()[k - 1])) {
            hand_list(position, c, k - 1, 6)
        } else {
            hand_list(position, c, k - 1, 0)
        }
    } else {
        Seq::empty()
    }
}

/// The calls of a daimyo on `c` to the first `i` of `units`, and to the
/// next to the cells in the first `k` directions.
pub open spec fn daimyo_list(
    position: Position,
    units: Seq<(Token, Coordinates)>,
    color: Color,
    c: Coordinates,
    i: int,
    k: int,
) -> Seq<Choice>
    decreases i, k,
{
    if i < 0 {
        Seq::empty()
    } else if k > 0 {
        let destination = c.spec_step(Direction::spec_all()[k - 1]);
        let before = daimyo_list(position, units, color, c, i, k - 1);
        if position.free(destination) {
            before.push(Choice::UseAbility(Ability::Daimyo { target: units[i].1, destination }))
        } else {
            before
        }
    } else if i > 0 {
        if units[i - 1].0 != Token::Daimyo && position.grabbed(color) != Some(units[i - 1].1) {
            daimyo_list(position, units, color, c, i - 1, 6)
        } else {
            daimyo_list(position, units, color, c, i - 1, 0)
        }
    } else {
        Seq::empty()
    }
}

/// What `token` of `color` on `c` can do: its steps, unless it is the
/// hand, and then the uses of its ability.
pub open spec fn unit_list(
    position: Position,
    units: Seq<(Token, Coordinates)>,
    color: Color,
    token: Token,
    c: Coordinates,
) -> Seq<Choice> {
    let steps = if token != Token::Hand {
        step_list(position, token, c, 6)
    } else {
        Seq::empty()
    };
    steps + match token {
        Token::Daimyo => daimyo_list(position, units, color, c, units.len() as int, 0),
        Token::Scout => scout_list(position, c, 6),
        Token::Hammer => hammer_list(position, c, 6, 0),
        Token::Hook => hook_list(position, c, 6, 2, 0),
        Token::Wave => wave_list(position, c, 6),
        Token::Hand => hand_list(position, c, 6, 0),
        Token::Bomb => seq![Choice::UseAbility(Ability::Bomb { origin: c })],
    }
}

/// What the first `i` of `units` can do, those that can act.
pub open spec fn acts_list(
    position: Position,
    units: Seq<(Token, Coordinates)>,
    color: Color,
    used_piece: Option<Token>,
    i: int,
) -> Seq<Choice>
    decreases i,
{
    if i <= 0 {
        Seq::empty()
    } else {
        let (token, c) = units[i - 1];
        let before = acts_list(position, units, color, used_piece, i - 1);
        if used_piece != Some(token) && position.grabbed(color) != Some(c) {
            before + unit_list(position, units, color, token, c)
        } else {
            before
        }
    }
}

/// The deployments of the first `i` tokens of `supply`, and of the next, a
/// hand, to point in the first `k` directions.
pub open spec fn deploy_list(supply: Seq<Token>, i: int, k: int) -> Seq<Choice>
    decreases i, k,
{
    if i < 0 {
        Seq::empty()
    } else if k > 0 {
        deploy_list(supply, i, k - 1).push(
            Choice::Deploy(Token::Hand, Some(Direction::spec_all()[k - 1])),
        )
    } else if i > 0 {
        if supply[i - 1] == Token::Hand {
            deploy_list(supply, i - 1, 6)
        } else {
            deploy_list(supply, i - 1, 0).push(Choice::Deploy(supply[i - 1], None))
        }
    } else {
        Seq::empty()
    }
}

/// The revivals of the first `i` tokens of `graveyard`.
pub open spec fn revive_list(graveyard: Seq<Token>, i: int) -> Seq<Choice>
    decreases i,
{
    if i <= 0 {
        Seq::empty()
    } else {
        revive_list(graveyard, i - 1).push(Choice::Revive(graveyard[i - 1]))
    }
}

/// The deployments of `color`, if nothing stands where it deploys.
pub open spec fn deployments(position: Position, color: Color) -> Seq<Choice> {
    if position.grid[key(Board::spec_gate_coords(color))] == Space::Empty {
        let supply = position.supplies[color.spec_index()];
        deploy_list(supply, supply.len() as int, 0)
    } else {
        Seq::empty()
    }
}

/// The revivals of `color`.
pub open spec fn revivals(position: Position, color: Color) -> Seq<Choice> {
    if USE_VARIANT_REVIVE_ACTION {
        let graveyard = position.graveyards[color.spec_index()];
        revive_list(graveyard, graveyard.len() as int)
    } else {
        Seq::empty()
    }
}

/// Whether `units` is in scan order.
pub open spec fn in_scan_order(units: Seq<(Token, Coordinates)>) -> bool {
    forall|i: int, j: int|
        0 <= i < j < units.len() ==> scans_before((#[trigger] units[i]).1, (#[trigger] units[j]).1)
}

/// The actions of the side to act, where `units` are its tokens on the
/// board: passing; then, while the game runs, what the tokens can do, the
/// deployments and the revivals.
pub open spec fn listing(position: Position, units: Seq<(Token, Coordinates)>) -> Seq<Choice> {
    match position.turn_state.spec_matchable() {
        Some((color, used_piece)) => seq![Choice::Pass] + acts_list(
            position,
            units,
            color,
            used_piece,
            units.len() as int,
        ) + deployments(position, color) + revivals(position, color),
        None => seq![Choice::Pass],
    }
}

} // verus!
