//! The actions of the board game.

use crate::board::Token;
use crate::hex::{Coordinates, Direction};
use vstd::prelude::*;

verus! {

/// What a token can do besides stepping.
#[derive(Debug, Copy, Clone, PartialEq, Eq, Hash, Structural)]
pub enum Ability {
    Hammer { target: Coordinates, direction: Direction, distance: usize },
    Wave { target: Coordinates, destination: Coordinates },
    Scout { target: Coordinates, destination: Coordinates },
    Daimyo { target: Coordinates, destination: Coordinates },
    Hook { target: Coordinates, direction: Direction, distance: usize },
    Bomb { origin: Coordinates },
    Hand { origin: Coordinates, move_direction: Direction, hand_direction: Direction },
}

/// One action of the side to move.
#[derive(Debug, Copy, Clone, PartialEq, Eq, Hash, Structural)]
pub enum Choice {
    Pass,
    Deploy(Token, Option<Direction>),
    Move(Token, Direction),
    UseAbility(Ability),
    Revive(Token),
}

impl Default for Choice {
    /// To pass.
    fn default() -> (choice: Self)
        ensures
            choice == Choice::Pass,
    {
        Choice::Pass
    }
}

/// A clone of an action is the action.
pub proof fn lemma_choice_clone()
    ensures
        crate::game::clone_is_identity::<Choice>(),
{
}

} // verus!
