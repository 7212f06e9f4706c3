//! The move generator of the board game: every action that the side to act
//! is allowed, listed token by token.

use crate::board::{holds_color, Color, Piece, Token};
use crate::choice::{Ability, Choice};
use crate::hex::{leap, Coordinates, Direction};
use crate::listing::{
    acts_list, daimyo_list, deploy_list, deployments, hammer_list, hand_list, hook_list,
    in_scan_order, listing, revivals, revive_list, scout_list, step_list, unit_list, wave_list,
};
use crate::position::{is_cube, on_cell, Position, USE_VARIANT_REVIVE_ACTION};
use crate::rules::Game;
use crate::sound::{
    lemma_first_cell, lemma_leap, lemma_push_contains, lemma_stands, lemma_step_cube,
};
use vstd::prelude::*;

verus! {

/// Adds `choice` to the end of `choices`.
pub fn offer(choices: &mut Vec<Choice>, choice: Choice)
    ensures
        final(choices)@ == old(choices)@.push(choice),
        forall|other: Choice|
            #[trigger] final(choices)@.contains(other) <==> old(choices)@.contains(other) || other
                == choice,
{
    choices.push(choice);
    proof {
        assert forall|other: Choice|
            #[trigger] choices@.contains(other) <==> old(choices)@.contains(other) || other
                == choice by {
            lemma_push_contains(old(choices)@, choice, other);
        }
    }
}

/// Every direction is found in the list of all directions at the place
/// that its ordinal names, and nowhere else.
pub proof fn lemma_ordinal(direction: Direction)
    ensures
        0 <= direction.ordinal() < 6,
        Direction::spec_all()[direction.ordinal()] == direction,
        forall|k: int|
            0 <= k < 6 && #[trigger] Direction::spec_all()[k] == direction ==> k
                == direction.ordinal(),
{
    let all = Direction::spec_all();
    assert(all[0] == Direction::Left);
    assert(all[1] == Direction::UpLeft);
    assert(all[2] == Direction::UpRight);
    assert(all[3] == Direction::Right);
    assert(all[4] == Direction::DownRight);
    assert(all[5] == Direction::DownLeft);
}

impl Game {
    /// The cell that the hand of the other side holds, if that hand is on
    /// the board.
    pub fn grabbed_space(&self, color: Color) -> (grabbed: Option<Coordinates>)
        ensures
            grabbed == self@.grabbed(color),
    {
        let hand = Piece::Token(color.opposite(), Token::Hand);
        proof {
            lemma_stands(&self.board, hand);
        }
        match self.board.find(hand) {
            Some(hand_space) => {
                proof {
                    lemma_first_cell(&self.board, hand, hand_space);
                }
                Some(hand_space.step(self.hand_directions[color.opposite().index()]))
            },
            None => None,
        }
    }

    /// Adds the steps that `token` can take from `c`.
    fn add_steps(&self, choices: &mut Vec<Choice>, token: Token, c: Coordinates)
        requires
            on_cell(c),
            token != Token::Hand,
        ensures
            final(choices)@ == old(choices)@ + step_list(self@, token, c, 6),
            old(choices)@.is_prefix_of(final(choices)@),
            forall|choice: Choice|
                #[trigger] final(choices)@.contains(choice) <==> old(choices)@.contains(choice)
                    || self@.steps(token, c, choice),
    {
        let directions = Direction::all();
        let mut k: usize = 0;
        while k < 6
            invariant
                k <= 6,
                on_cell(c),
                token != Token::Hand,
                directions@ == Direction::spec_all(),
                choices@ == old(choices)@ + step_list(self@, token, c, k as int),
                old(choices)@.is_prefix_of(choices@),
                forall|choice: Choice|
                    #[trigger] choices@.contains(choice) <==> old(choices)@.contains(choice) || (
                    self@.steps(token, c, choice) && choice->Move_1.ordinal() < k),
            decreases 6 - k,
        {
            let direction = directions[k];
            proof {
                lemma_ordinal(direction);
            }
            let ghost before = choices@;
            let new_coordinates = c.step(direction);
            if !new_coordinates.is_off_board() && self.board.is_empty(new_coordinates) {
                offer(choices, Choice::Move(token, direction));
            }
            proof {
                assert(choices@ =~= old(choices)@ + step_list(self@, token, c, k + 1));
                assert forall|choice: Choice|
                    #[trigger] choices@.contains(choice) <==> old(choices)@.contains(choice) || (
                    self@.steps(token, c, choice) && choice->Move_1.ordinal() < k + 1) by {
                    assert(before.contains(choice) <==> old(choices)@.contains(choice) || (
                    self@.steps(token, c, choice) && choice->Move_1.ordinal() < k));
                    if self@.steps(token, c, choice) {
                        lemma_ordinal(choice->Move_1);
                    }
                }
            }
            k += 1;
        }
        proof {
            assert forall|choice: Choice|
                #[trigger] choices@.contains(choice) <==> old(choices)@.contains(choice)
                    || self@.steps(token, c, choice) by {
                if self@.steps(token, c, choice) {
                    lemma_ordinal(choice->Move_1);
                }
            }
        }
    }

    /// Adds the exchanges that a scout on `c` can make.
    fn add_scout(&self, choices: &mut Vec<Choice>, color: Color, c: Coordinates)
        requires
            on_cell(c),
        ensures
            final(choices)@ == old(choices)@ + scout_list(self@, c, 6),
            old(choices)@.is_prefix_of(final(choices)@),
            forall|choice: Choice|
                #[trigger] final(choices)@.contains(choice) <==> old(choices)@.contains(choice)
                    || self@.wields(color, Token::Scout, c, choice),
    {
        let directions = Direction::all();
        let mut k: usize = 0;
        while k < 6
            invariant
                k <= 6,
                on_cell(c),
                directions@ == Direction::spec_all(),
                choices@ == old(choices)@ + scout_list(self@, c, k as int),
                old(choices)@.is_prefix_of(choices@),
                forall|choice: Choice|
                    #[trigger] choices@.contains(choice) <==> old(choices)@.contains(choice)
                        || scout_upto(self@, c, choice, k as int),
            decreases 6 - k,
        {
            let direction = directions[k];
            let ghost before = choices@;
            proof {
                lemma_ordinal(direction);
                lemma_step_cube(c, direction);
            }
            let mut destination = c.step(direction);
            if !destination.is_off_board() && !self.board.is_empty(destination) {
                offer(choices, Choice::UseAbility(Ability::Scout { target: c, destination }));
            }
            destination = destination.step(direction);
            if !destination.is_off_board() && !self.board.is_empty(destination) {
                offer(choices, Choice::UseAbility(Ability::Scout { target: c, destination }));
            }
            proof {
                assert(choices@ =~= old(choices)@ + scout_list(self@, c, k + 1));
                assert forall|choice: Choice|
                    #[trigger] choices@.contains(choice) <==> old(choices)@.contains(choice)
                        || scout_upto(self@, c, choice, k + 1) by {
                    assert(before.contains(choice) <==> old(choices)@.contains(choice)
                        || scout_upto(self@, c, choice, k as int));
                    if scout_upto(self@, c, choice, k + 1) {
                        let d = choose|d: Direction|
                            #[trigger] d.ordinal() < k + 1 && (choice->UseAbility_0->Scout_destination
                                == c.spec_step(d) || choice->UseAbility_0->Scout_destination
                                == c.spec_step(d).spec_step(d));
                        lemma_ordinal(d);
                        if d.ordinal() < k {
                            assert(scout_upto(self@, c, choice, k as int));
                        }
                    }
                    if scout_upto(self@, c, choice, k as int) {
                        let d = choose|d: Direction|
                            #[trigger] d.ordinal() < k && (choice->UseAbility_0->Scout_destination
                                == c.spec_step(d) || choice->UseAbility_0->Scout_destination
                                == c.spec_step(d).spec_step(d));
                        assert(d.ordinal() < k + 1);
                    }
                    if choice == Choice::UseAbility(
                        Ability::Scout { target: c, destination: c.spec_step(direction) },
                    ) || choice == Choice::UseAbility(
                        Ability::Scout {
                            target: c,
                            destination: c.spec_step(direction).spec_step(direction),
                        },
                    ) {
                        assert(direction.ordinal() < k + 1);
                    }
                }
            }
            k += 1;
        }
        proof {
            assert forall|choice: Choice|
                #[trigger] choices@.contains(choice) <==> old(choices)@.contains(choice)
                    || self@.wields(color, Token::Scout, c, choice) by {
                if self@.wields(color, Token::Scout, c, choice) {
                    let d = choose|d: Direction|
                        choice->UseAbility_0->Scout_destination == #[trigger] c.spec_step(d)
                            || choice->UseAbility_0->Scout_destination == c.spec_step(
                            d,
                        ).spec_step(d);
                    lemma_ordinal(d);
                    assert(d.ordinal() < 6);
                }
                if scout_upto(self@, c, choice, 6) {
                    let d = choose|d: Direction|
                        #[trigger] d.ordinal() < 6 && (choice->UseAbility_0->Scout_destination
                            == c.spec_step(d) || choice->UseAbility_0->Scout_destination
                            == c.spec_step(d).spec_step(d));
                    assert(choice->UseAbility_0->Scout_destination == c.spec_step(d)
                        || choice->UseAbility_0->Scout_destination == c.spec_step(d).spec_step(d));
                }
            }
        }
    }

    /// Adds the pushes that a hammer on `c` can make.
    fn add_hammer(&self, choices: &mut Vec<Choice>, color: Color, c: Coordinates)
        requires
            on_cell(c),
        ensures
            final(choices)@ == old(choices)@ + hammer_list(self@, c, 6, 0),
            old(choices)@.is_prefix_of(final(choices)@),
            forall|choice: Choice|
                #[trigger] final(choices)@.contains(choice) <==> old(choices)@.contains(choice)
                    || self@.wields(color, Token::Hammer, c, choice),
    {
        let directions = Direction::all();
        let mut k: usize = 0;
        while k < 6
            invariant
                k <= 6,
                on_cell(c),
                directions@ == Direction::spec_all(),
                choices@ == old(choices)@ + hammer_list(self@, c, k as int, 0),
                old(choices)@.is_prefix_of(choices@),
                forall|choice: Choice|
                    #[trigger] choices@.contains(choice) <==> old(choices)@.contains(choice)
                        || hammer_upto(self@, c, choice, k as int, 1),
            decreases 6 - k,
        {
            let direction = directions[k];
            proof {
                lemma_ordinal(direction);
                lemma_step_cube(c, direction);
            }
            let target = c.step(direction);
            if !target.is_off_board() && !self.board.is_empty(target) {
                let mut distance: usize = 1;
                while distance <= 3
                    invariant
                        1 <= distance <= 4,
                        k < 6,
                        direction == Direction::spec_all()[k as int],
                        direction.ordinal() == k,
                        target == c.spec_step(direction),
                        self@.blocked(target),
                        choices@ == old(choices)@ + hammer_list(self@, c, k as int, distance - 1),
                        old(choices)@.is_prefix_of(choices@),
                        forall|choice: Choice|
                            #[trigger] choices@.contains(choice) <==> old(choices)@.contains(choice)
                                || hammer_upto(self@, c, choice, k as int, distance as int),
                    decreases 4 - distance,
                {
                    let ghost before = choices@;
                    offer(choices, Choice::UseAbility(Ability::Hammer { target, direction, distance }));
                    proof {
                        assert(choices@ =~= old(choices)@ + hammer_list(
                            self@,
                            c,
                            k as int,
                            distance as int,
                        ));
                        assert forall|choice: Choice|
                            #[trigger] choices@.contains(choice) <==> old(choices)@.contains(choice)
                                || hammer_upto(self@, c, choice, k as int, distance + 1) by {
                            assert(before.contains(choice) <==> old(choices)@.contains(choice)
                                || hammer_upto(self@, c, choice, k as int, distance as int));
                            if hammer_upto(self@, c, choice, k as int, distance + 1) {
                                lemma_ordinal(choice->UseAbility_0->Hammer_direction);
                            }
                        }
                    }
                    distance += 1;
                }
            }
            proof {
                assert(choices@ =~= old(choices)@ + hammer_list(self@, c, k + 1, 0));
                assert forall|choice: Choice|
                    #[trigger] choices@.contains(choice) <==> old(choices)@.contains(choice)
                        || hammer_upto(self@, c, choice, k + 1, 1) by {
                    if hammer_upto(self@, c, choice, k + 1, 1) || hammer_upto(
                        self@,
                        c,
                        choice,
                        k as int,
                        4,
                    ) || hammer_upto(self@, c, choice, k as int, 1) {
                        lemma_ordinal(choice->UseAbility_0->Hammer_direction);
                    }
                }
            }
            k += 1;
        }
        proof {
            assert forall|choice: Choice|
                #[trigger] choices@.contains(choice) <==> old(choices)@.contains(choice)
                    || self@.wields(color, Token::Hammer, c, choice) by {
                if self@.wields(color, Token::Hammer, c, choice) {
                    lemma_ordinal(choice->UseAbility_0->Hammer_direction);
                }
            }
        }
    }

    /// Adds the throws that a wave on `c` can make.
    fn add_wave(&self, choices: &mut Vec<Choice>, color: Color, c: Coordinates)
        requires
            on_cell(c),
        ensures
            final(choices)@ == old(choices)@ + wave_list(self@, c, 6),
            old(choices)@.is_prefix_of(final(choices)@),
            forall|choice: Choice|
                #[trigger] final(choices)@.contains(choice) <==> old(choices)@.contains(choice)
                    || self@.wields(color, Token::Wave, c, choice),
    {
        let directions = Direction::all();
        let mut k: usize = 0;
        while k < 6
            invariant
                k <= 6,
                on_cell(c),
                directions@ == Direction::spec_all(),
                choices@ == old(choices)@ + wave_list(self@, c, k as int),
                old(choices)@.is_prefix_of(choices@),
                forall|choice: Choice|
                    #[trigger] choices@.contains(choice) <==> old(choices)@.contains(choice)
                        || wave_upto(self@, c, choice, k as int),
            decreases 6 - k,
        {
            let direction = directions[k];
            let ghost before = choices@;
            proof {
                lemma_ordinal(direction);
                lemma_step_cube(c, direction);
                lemma_step_cube(c, direction.spec_opposite());
            }
            let target = c.step(direction);
            if !target.is_off_board() && !self.board.is_empty(target) {
                let destination = c.step(direction.opposite());
                if !destination.is_off_board() && self.board.is_empty(destination) {
                    offer(choices, Choice::UseAbility(Ability::Wave { target, destination }));
                }
            }
            proof {
                assert(choices@ =~= old(choices)@ + wave_list(self@, c, k + 1));
                assert forall|choice: Choice|
                    #[trigger] choices@.contains(choice) <==> old(choices)@.contains(choice)
                        || wave_upto(self@, c, choice, k + 1) by {
                    assert(before.contains(choice) <==> old(choices)@.contains(choice) || wave_upto(
                        self@,
                        c,
                        choice,
                        k as int,
                    ));
                    if wave_upto(self@, c, choice, k + 1) {
                        let d = choose|d: Direction|
                            #[trigger] d.ordinal() < k + 1 && choice->UseAbility_0->Wave_target
                                == c.spec_step(d) && choice->UseAbility_0->Wave_destination
                                == c.spec_step(d.spec_opposite());
                        lemma_ordinal(d);
                        if d.ordinal() < k {
                            assert(wave_upto(self@, c, choice, k as int));
                        }
                    }
                    if wave_upto(self@, c, choice, k as int) {
                        let d = choose|d: Direction|
                            #[trigger] d.ordinal() < k && choice->UseAbility_0->Wave_target
                                == c.spec_step(d) && choice->UseAbility_0->Wave_destination
                                == c.spec_step(d.spec_opposite());
                        assert(d.ordinal() < k + 1);
                    }
                    if choice == Choice::UseAbility(
                        Ability::Wave {
                            target: c.spec_step(direction),
                            destination: c.spec_step(direction.spec_opposite()),
                        },
                    ) {
                        assert(direction.ordinal() < k + 1);
                    }
                }
            }
            k += 1;
        }
        proof {
            assert forall|choice: Choice|
                #[trigger] choices@.contains(choice) <==> old(choices)@.contains(choice)
                    || self@.wields(color, Token::Wave, c, choice) by {
                if self@.wields(color, Token::Wave, c, choice) {
                    let d = choose|d: Direction|
                        choice->UseAbility_0->Wave_target == #[trigger] c.spec_step(d)
                            && choice->UseAbility_0->Wave_destination == c.spec_step(
                            d.spec_opposite(),
                        );
                    lemma_ordinal(d);
                    assert(d.ordinal() < 6);
                }
                if wave_upto(self@, c, choice, 6) {
                    let d = choose|d: Direction|
                        #[trigger] d.ordinal() < 6 && choice->UseAbility_0->Wave_target
                            == c.spec_step(d) && choice->UseAbility_0->Wave_destination
                            == c.spec_step(d.spec_opposite());
                    assert(choice->UseAbility_0->Wave_target == c.spec_step(d));
                }
            }
        }
    }

    /// Adds the steps that a hand on `c` can take, each with every
    /// direction in which it can point.
    fn add_hand(&self, choices: &mut Vec<Choice>, color: Color, c: Coordinates)
        requires
            on_cell(c),
        ensures
            final(choices)@ == old(choices)@ + hand_list(self@, c, 6, 0),
            old(choices)@.is_prefix_of(final(choices)@),
            forall|choice: Choice|
                #[trigger] final(choices)@.contains(choice) <==> old(choices)@.contains(choice)
                    || self@.wields(color, Token::Hand, c, choice),
    {
        let directions = Direction::all();
        let mut k: usize = 0;
        while k < 6
            invariant
                k <= 6,
                on_cell(c),
                directions@ == Direction::spec_all(),
                choices@ == old(choices)@ + hand_list(self@, c, k as int, 0),
                old(choices)@.is_prefix_of(choices@),
                forall|choice: Choice|
                    #[trigger] choices@.contains(choice) <==> old(choices)@.contains(choice)
                        || hand_upto(self@, c, choice, k as int, 0),
            decreases 6 - k,
        {
            let move_direction = directions[k];
            proof {
                lemma_ordinal(move_direction);
            }
            let new_coordinates = c.step(move_direction);
            if !new_coordinates.is_off_board() && self.board.is_empty(new_coordinates) {
                let mut j: usize = 0;
                while j < 6
                    invariant
                        j <= 6,
                        k < 6,
                        directions@ == Direction::spec_all(),
                        move_direction == Direction::spec_all()[k as int],
                        move_direction.ordinal() == k,
                        self@.free(c.spec_step(move_direction)),
                        choices@ == old(choices)@ + hand_list(self@, c, k as int, j as int),
                        old(choices)@.is_prefix_of(choices@),
                        forall|choice: Choice|
                            #[trigger] choices@.contains(choice) <==> old(choices)@.contains(choice)
                                || hand_upto(self@, c, choice, k as int, j as int),
                    decreases 6 - j,
                {
                    let hand_direction = directions[j];
                    let ghost before = choices@;
                    proof {
                        lemma_ordinal(hand_direction);
                    }
                    offer(
                        choices,
                        Choice::UseAbility(
                            Ability::Hand { origin: c, move_direction, hand_direction },
                        ),
                    );
                    proof {
                        assert(choices@ =~= old(choices)@ + hand_list(self@, c, k as int, j + 1));
                        assert forall|choice: Choice|
                            #[trigger] choices@.contains(choice) <==> old(choices)@.contains(choice)
                                || hand_upto(self@, c, choice, k as int, j + 1) by {
                            assert(before.contains(choice) <==> old(choices)@.contains(choice)
                                || hand_upto(self@, c, choice, k as int, j as int));
                            if hand_upto(self@, c, choice, k as int, j + 1) {
                                lemma_ordinal(choice->UseAbility_0->Hand_move_direction);
                                lemma_ordinal(choice->UseAbility_0->Hand_hand_direction);
                            }
                        }
                    }
                    j += 1;
                }
            }
            proof {
                assert(choices@ =~= old(choices)@ + hand_list(self@, c, k + 1, 0));
                assert forall|choice: Choice|
                    #[trigger] choices@.contains(choice) <==> old(choices)@.contains(choice)
                        || hand_upto(self@, c, choice, k + 1, 0) by {
                    if hand_upto(self@, c, choice, k + 1, 0) || hand_upto(
                        self@,
                        c,
                        choice,
                        k as int,
                        6,
                    ) || hand_upto(self@, c, choice, k as int, 0) {
                        lemma_ordinal(choice->UseAbility_0->Hand_move_direction);
                        lemma_ordinal(choice->UseAbility_0->Hand_hand_direction);
                    }
                }
            }
            k += 1;
        }
        proof {
            assert forall|choice: Choice|
                #[trigger] choices@.contains(choice) <==> old(choices)@.contains(choice)
                    || self@.wields(color, Token::Hand, c, choice) by {
                if self@.wields(color, Token::Hand, c, choice) {
                    lemma_ordinal(choice->UseAbility_0->Hand_move_direction);
                    lemma_ordinal(choice->UseAbility_0->Hand_hand_direction);
                }
            }
        }
    }

    /// Adds the explosion of a bomb on `c`.
    fn add_bomb(&self, choices: &mut Vec<Choice>, color: Color, c: Coordinates)
        ensures
            final(choices)@ == old(choices)@ + seq![Choice::UseAbility(Ability::Bomb { origin: c })],
            old(choices)@.is_prefix_of(final(choices)@),
            forall|choice: Choice|
                #[trigger] final(choices)@.contains(choice) <==> old(choices)@.contains(choice)
                    || self@.wields(color, Token::Bomb, c, choice),
    {
        offer(choices, Choice::UseAbility(Ability::Bomb { origin: c }));
        assert(choices@ =~= old(choices)@ + seq![Choice::UseAbility(Ability::Bomb { origin: c })]);
    }

    /// The cell `span` steps from `c` in `direction`.
    fn far_cell(c: Coordinates, direction: Direction, span: usize) -> (target: Coordinates)
        requires
            on_cell(c),
            span <= 4,
        ensures
            target == leap(c, direction, span as int),
            is_cube(target),
    {
        let mut target = c;
        let mut n: usize = 0;
        proof {
            lemma_leap(c, direction, 0);
        }
        while n < span
            invariant
                n <= span <= 4,
                on_cell(c),
                target == leap(c, direction, n as int),
                is_cube(target),
            decreases span - n,
        {
            proof {
                lemma_leap(c, direction, n as int);
                lemma_leap(c, direction, n + 1);
                assert((n + 1) * direction.dq() == n * direction.dq() + direction.dq())
                    by (nonlinear_arith);
                assert((n + 1) * direction.dr() == n * direction.dr() + direction.dr())
                    by (nonlinear_arith);
                assert((n + 1) * direction.ds() == n * direction.ds() + direction.ds())
                    by (nonlinear_arith);
                assert(-4 <= n * direction.dq() <= 4 && -4 <= n * direction.dr() <= 4 && -4 <= n
                    * direction.ds() <= 4) by (nonlinear_arith)
                    requires
                        0 <= n <= 4,
                        -1 <= direction.dq() <= 1,
                        -1 <= direction.dr() <= 1,
                        -1 <= direction.ds() <= 1,
                ;
            }
            target = target.step(direction);
            n += 1;
        }
        target
    }

    /// Adds the pulls that a hook on `c` can make.
    fn add_hook(&self, choices: &mut Vec<Choice>, color: Color, c: Coordinates)
        requires
            on_cell(c),
        ensures
            final(choices)@ == old(choices)@ + hook_list(self@, c, 6, 2, 0),
            old(choices)@.is_prefix_of(final(choices)@),
            forall|choice: Choice|
                #[trigger] final(choices)@.contains(choice) <==> old(choices)@.contains(choice)
                    || self@.wields(color, Token::Hook, c, choice),
    {
        let directions = Direction::all();
        let mut k: usize = 0;
        while k < 6
            invariant
                k <= 6,
                on_cell(c),
                directions@ == Direction::spec_all(),
                choices@ == old(choices)@ + hook_list(self@, c, k as int, 2, 0),
                old(choices)@.is_prefix_of(choices@),
                forall|choice: Choice|
                    #[trigger] choices@.contains(choice) <==> old(choices)@.contains(choice)
                        || hook_upto(self@, c, choice, k as int, 2, 1),
            decreases 6 - k,
        {
            let direction = directions[k];
            proof {
                lemma_ordinal(direction);
                crate::hex::lemma_opposite(direction);
            }
            let mut distance_to_target: usize = 2;
            while distance_to_target <= 4
                invariant
                    2 <= distance_to_target <= 5,
                    k < 6,
                    on_cell(c),
                    direction == Direction::spec_all()[k as int],
                    direction.ordinal() == k,
                    choices@ == old(choices)@ + hook_list(
                        self@,
                        c,
                        k as int,
                        distance_to_target as int,
                        0,
                    ),
                    old(choices)@.is_prefix_of(choices@),
                    forall|choice: Choice|
                        #[trigger] choices@.contains(choice) <==> old(choices)@.contains(choice)
                            || hook_upto(self@, c, choice, k as int, distance_to_target as int, 1),
                decreases 5 - distance_to_target,
            {
                let target = Game::far_cell(c, direction, distance_to_target);
                if !target.is_off_board() && !self.board.is_empty(target) {
                    let mut distance_to_pull: usize = 1;
                    while distance_to_pull < distance_to_target
                        invariant
                            1 <= distance_to_pull <= distance_to_target <= 4,
                            2 <= distance_to_target,
                            k < 6,
                            direction == Direction::spec_all()[k as int],
                            direction.ordinal() == k,
                            direction.spec_opposite().spec_opposite() == direction,
                            target == leap(c, direction, distance_to_target as int),
                            self@.blocked(target),
                            choices@ == old(choices)@ + hook_list(
                                self@,
                                c,
                                k as int,
                                distance_to_target as int,
                                distance_to_pull - 1,
                            ),
                            old(choices)@.is_prefix_of(choices@),
                            forall|choice: Choice|
                                #[trigger] choices@.contains(choice) <==> old(choices)@.contains(
                                    choice,
                                ) || hook_upto(
                                    self@,
                                    c,
                                    choice,
                                    k as int,
                                    distance_to_target as int,
                                    distance_to_pull as int,
                                ),
                        decreases distance_to_target - distance_to_pull,
                    {
                        let ghost before = choices@;
                        let pull = Choice::UseAbility(
                            Ability::Hook {
                                target,
                                direction: direction.opposite(),
                                distance: distance_to_pull,
                            },
                        );
                        offer(choices, pull);
                        proof {
                            assert(choices@ =~= old(choices)@ + hook_list(
                                self@,
                                c,
                                k as int,
                                distance_to_target as int,
                                distance_to_pull as int,
                            ));
                            assert forall|choice: Choice|
                                #[trigger] choices@.contains(choice) <==> old(choices)@.contains(
                                    choice,
                                ) || hook_upto(
                                    self@,
                                    c,
                                    choice,
                                    k as int,
                                    distance_to_target as int,
                                    distance_to_pull + 1,
                                ) by {
                                assert(before.contains(choice) <==> old(choices)@.contains(choice)
                                    || hook_upto(
                                    self@,
                                    c,
                                    choice,
                                    k as int,
                                    distance_to_target as int,
                                    distance_to_pull as int,
                                ));
                                lemma_hook_step(
                                    self@,
                                    c,
                                    choice,
                                    k as int,
                                    distance_to_target as int,
                                    distance_to_pull as int,
                                    pull,
                                );
                            }
                        }
                        distance_to_pull += 1;
                    }
                }
                proof {
                    assert(choices@ =~= old(choices)@ + hook_list(
                        self@,
                        c,
                        k as int,
                        distance_to_target + 1,
                        0,
                    ));
                    assert forall|choice: Choice|
                        #[trigger] choices@.contains(choice) <==> old(choices)@.contains(choice)
                            || hook_upto(self@, c, choice, k as int, distance_to_target + 1, 1) by {
                        lemma_hook_span(self@, c, choice, k as int, distance_to_target as int);
                    }
                }
                distance_to_target += 1;
            }
            proof {
                assert(choices@ =~= old(choices)@ + hook_list(self@, c, k + 1, 2, 0));
                assert forall|choice: Choice|
                    #[trigger] choices@.contains(choice) <==> old(choices)@.contains(choice)
                        || hook_upto(self@, c, choice, k + 1, 2, 1) by {
                    lemma_hook_direction(self@, c, choice, k as int);
                }
            }
            k += 1;
        }
        proof {
            assert forall|choice: Choice|
                #[trigger] choices@.contains(choice) <==> old(choices)@.contains(choice)
                    || self@.wields(color, Token::Hook, c, choice) by {
                lemma_hook_all(self@, color, c, choice);
            }
        }
    }

    /// The tokens of `color` on the board, each with its cell, in scan
    /// order.
    pub fn units(&self, color: Color) -> (units: Vec<(Token, Coordinates)>)
        ensures
            lists_units(self@, color, units@),
            in_scan_order(units@),
    {
        let units = self.board.find_all_of_color(color);
        proof {
            assert forall|n: int| 0 <= n < units.len() implies self@.unit(
                color,
                (#[trigger] units[n]).0,
                units[n].1,
            ) by {}
            assert forall|token: Token, c: Coordinates| #[trigger]
                self@.unit(color, token, c) implies exists|n: int|
                0 <= n < units.len() && #[trigger] units[n] == (token, c) by {
                assert(holds_color(self.board.at(c.0 as int, c.1 as int), color));
                let n = choose|n: int|
                    0 <= n < units.len() && (#[trigger] units[n]).1.0 == c.0 && units[n].1.1
                        == c.1;
                assert(units[n] == (token, c));
            }
        }
        units
    }

    /// Adds the calls that a daimyo on `c` can make.
    fn add_daimyo(
        &self,
        choices: &mut Vec<Choice>,
        color: Color,
        c: Coordinates,
        units: &Vec<(Token, Coordinates)>,
        grabbed_space: Option<Coordinates>,
    )
        requires
            on_cell(c),
            lists_units(self@, color, units@),
            grabbed_space == self@.grabbed(color),
        ensures
            final(choices)@ == old(choices)@ + daimyo_list(
                self@,
                units@,
                color,
                c,
                units.len() as int,
                0,
            ),
            old(choices)@.is_prefix_of(final(choices)@),
            forall|choice: Choice|
                #[trigger] final(choices)@.contains(choice) <==> old(choices)@.contains(choice)
                    || self@.wields(color, Token::Daimyo, c, choice),
    {
        let directions = Direction::all();
        let mut i: usize = 0;
        while i < units.len()
            invariant
                i <= units.len(),
                on_cell(c),
                lists_units(self@, color, units@),
                grabbed_space == self@.grabbed(color),
                directions@ == Direction::spec_all(),
                choices@ == old(choices)@ + daimyo_list(self@, units@, color, c, i as int, 0),
                old(choices)@.is_prefix_of(choices@),
                forall|choice: Choice|
                    #[trigger] choices@.contains(choice) <==> old(choices)@.contains(choice)
                        || daimyo_upto(self@, units@, color, c, choice, i as int, 0),
            decreases units.len() - i,
        {
            let (other_token, target) = units[i];
            let held = match grabbed_space {
                Some(space) => target == space,
                None => false,
            };
            if other_token != Token::Daimyo && !held {
                let mut k: usize = 0;
                while k < 6
                    invariant
                        k <= 6,
                        i < units.len(),
                        on_cell(c),
                        directions@ == Direction::spec_all(),
                        units[i as int] == (other_token, target),
                        other_token != Token::Daimyo,
                        self@.grabbed(color) != Some(target),
                        choices@ == old(choices)@ + daimyo_list(
                            self@,
                            units@,
                            color,
                            c,
                            i as int,
                            k as int,
                        ),
                        old(choices)@.is_prefix_of(choices@),
                        forall|choice: Choice|
                            #[trigger] choices@.contains(choice) <==> old(choices)@.contains(choice)
                                || daimyo_upto(self@, units@, color, c, choice, i as int, k as int),
                    decreases 6 - k,
                {
                    let direction = directions[k];
                    let ghost before = choices@;
                    proof {
                        lemma_ordinal(direction);
                    }
                    let destination = c.step(direction);
                    if !destination.is_off_board() && self.board.is_empty(destination) {
                        offer(choices, Choice::UseAbility(Ability::Daimyo { target, destination }));
                    }
                    proof {
                        assert(choices@ =~= old(choices)@ + daimyo_list(
                            self@,
                            units@,
                            color,
                            c,
                            i as int,
                            k + 1,
                        ));
                        assert forall|choice: Choice|
                            #[trigger] choices@.contains(choice) <==> old(choices)@.contains(choice)
                                || daimyo_upto(self@, units@, color, c, choice, i as int, k + 1) by {
                            assert(before.contains(choice) <==> old(choices)@.contains(choice)
                                || daimyo_upto(
                                self@,
                                units@,
                                color,
                                c,
                                choice,
                                i as int,
                                k as int,
                            ));
                            lemma_daimyo_step(
                                self@,
                                units@,
                                color,
                                c,
                                choice,
                                i as int,
                                k as int,
                            );
                        }
                    }
                    k += 1;
                }
            }
            proof {
                assert(choices@ =~= old(choices)@ + daimyo_list(self@, units@, color, c, i + 1, 0));
                assert forall|choice: Choice|
                    #[trigger] choices@.contains(choice) <==> old(choices)@.contains(choice)
                        || daimyo_upto(self@, units@, color, c, choice, i + 1, 0) by {
                    lemma_daimyo_unit(self@, units@, color, c, choice, i as int);
                }
            }
            i += 1;
        }
        proof {
            assert forall|choice: Choice|
                #[trigger] choices@.contains(choice) <==> old(choices)@.contains(choice)
                    || self@.wields(color, Token::Daimyo, c, choice) by {
                lemma_daimyo_all(self@, units@, color, c, choice);
            }
        }
    }

    /// Adds what the token of `color` on `c` can do: its steps and the uses
    /// of its ability.
    fn add_unit(
        &self,
        choices: &mut Vec<Choice>,
        color: Color,
        token: Token,
        c: Coordinates,
        units: &Vec<(Token, Coordinates)>,
        grabbed_space: Option<Coordinates>,
    )
        requires
            on_cell(c),
            lists_units(self@, color, units@),
            grabbed_space == self@.grabbed(color),
        ensures
            final(choices)@ == old(choices)@ + unit_list(self@, units@, color, token, c),
            old(choices)@.is_prefix_of(final(choices)@),
            forall|choice: Choice|
                #[trigger] final(choices)@.contains(choice) <==> old(choices)@.contains(choice)
                    || self@.unit_allows(color, token, c, choice),
    {
        // The hand's step is an ability.
        if token != Token::Hand {
            self.add_steps(choices, token, c);
        }
        let ghost stepped = choices@;
        assert(stepped =~= old(choices)@ + if token != Token::Hand {
            step_list(self@, token, c, 6)
        } else {
            Seq::empty()
        });
        match token {
            Token::Daimyo => {
                self.add_daimyo(choices, color, c, units, grabbed_space);
            },
            Token::Scout => {
                self.add_scout(choices, color, c);
            },
            Token::Hammer => {
                self.add_hammer(choices, color, c);
            },
            Token::Hook => {
                self.add_hook(choices, color, c);
            },
            Token::Wave => {
                self.add_wave(choices, color, c);
            },
            Token::Hand => {
                self.add_hand(choices, color, c);
            },
            Token::Bomb => {
                self.add_bomb(choices, color, c);
            },
        }
        assert(choices@ =~= old(choices)@ + unit_list(self@, units@, color, token, c));
    }

    /// Adds the deployments that `color` can make.
    fn add_deployments(&self, choices: &mut Vec<Choice>, color: Color)
        ensures
            final(choices)@ == old(choices)@ + deployments(self@, color),
            old(choices)@.is_prefix_of(final(choices)@),
            forall|choice: Choice|
                #[trigger] final(choices)@.contains(choice) <==> old(choices)@.contains(choice)
                    || self@.deploys(color, choice),
    {
        assert(old(choices)@ + Seq::<Choice>::empty() =~= old(choices)@);
        if self.board.gate_is_empty(color) {
            let directions = Direction::all();
            let side = color.index();
            let ghost supply = self.supplies@[side as int]@;
            assert(supply == self@.supplies[color.spec_index()]);
            let mut i: usize = 0;
            while i < self.supplies[side].len()
                invariant
                    i <= supply.len(),
                    side == color.spec_index(),
                    supply == self.supplies@[side as int]@,
                    directions@ == Direction::spec_all(),
                    choices@ == old(choices)@ + deploy_list(supply, i as int, 0),
                    old(choices)@.is_prefix_of(choices@),
                    forall|choice: Choice|
                        #[trigger] choices@.contains(choice) <==> old(choices)@.contains(choice)
                            || deploy_upto(supply, choice, i as int, 0),
                decreases supply.len() - i,
            {
                let token = self.supplies[side][i];
                if token == Token::Hand {
                    let mut k: usize = 0;
                    while k < 6
                        invariant
                            k <= 6,
                            i < supply.len(),
                            token == supply[i as int],
                            token == Token::Hand,
                            directions@ == Direction::spec_all(),
                            choices@ == old(choices)@ + deploy_list(supply, i as int, k as int),
                            old(choices)@.is_prefix_of(choices@),
                            forall|choice: Choice|
                                #[trigger] choices@.contains(choice) <==> old(choices)@.contains(
                                    choice,
                                ) || deploy_upto(supply, choice, i as int, k as int),
                        decreases 6 - k,
                    {
                        let direction = directions[k];
                        let ghost before = choices@;
                        offer(choices, Choice::Deploy(token, Some(direction)));
                        proof {
                            assert(choices@ =~= old(choices)@ + deploy_list(supply, i as int, k + 1));
                            assert forall|choice: Choice|
                                #[trigger] choices@.contains(choice) <==> old(choices)@.contains(
                                    choice,
                                ) || deploy_upto(supply, choice, i as int, k + 1) by {
                                assert(before.contains(choice) <==> old(choices)@.contains(choice)
                                    || deploy_upto(supply, choice, i as int, k as int));
                                lemma_deploy_step(supply, choice, i as int, k as int);
                            }
                        }
                        k += 1;
                    }
                } else {
                    let ghost before = choices@;
                    offer(choices, Choice::Deploy(token, None));
                    proof {
                        assert forall|choice: Choice|
                            #[trigger] choices@.contains(choice) <==> old(choices)@.contains(choice)
                                || deploy_upto(supply, choice, i as int, 6) by {
                            assert(before.contains(choice) <==> old(choices)@.contains(choice)
                                || deploy_upto(supply, choice, i as int, 0));
                            lemma_deploy_plain(supply, choice, i as int);
                        }
                    }
                }
                proof {
                    assert(choices@ =~= old(choices)@ + deploy_list(supply, i + 1, 0));
                    assert forall|choice: Choice|
                        #[trigger] choices@.contains(choice) <==> old(choices)@.contains(choice)
                            || deploy_upto(supply, choice, i + 1, 0) by {
                        lemma_deploy_item(supply, choice, i as int);
                    }
                }
                i += 1;
            }
            proof {
                assert forall|choice: Choice|
                    #[trigger] choices@.contains(choice) <==> old(choices)@.contains(choice)
                        || self@.deploys(color, choice) by {
                    lemma_deploy_all(supply, choice);
                }
            }
        }
    }

    /// Adds the revivals that `color` can make.
    fn add_revivals(&self, choices: &mut Vec<Choice>, color: Color)
        ensures
            final(choices)@ == old(choices)@ + revivals(self@, color),
            old(choices)@.is_prefix_of(final(choices)@),
            forall|choice: Choice|
                #[trigger] final(choices)@.contains(choice) <==> old(choices)@.contains(choice)
                    || self@.revives(color, choice),
    {
        assert(old(choices)@ + Seq::<Choice>::empty() =~= old(choices)@);
        if USE_VARIANT_REVIVE_ACTION {
            let side = color.index();
            let ghost graveyard = self.graveyards@[side as int]@;
            assert(graveyard == self@.graveyards[color.spec_index()]);
            let mut i: usize = 0;
            while i < self.graveyards[side].len()
                invariant
                    i <= graveyard.len(),
                    side == color.spec_index(),
                    graveyard == self.graveyards@[side as int]@,
                    choices@ == old(choices)@ + revive_list(graveyard, i as int),
                    old(choices)@.is_prefix_of(choices@),
                    forall|choice: Choice|
                        #[trigger] choices@.contains(choice) <==> old(choices)@.contains(choice) || (
                        choice matches Choice::Revive(token) && exists|n: int|
                            0 <= n < i && #[trigger] graveyard[n] == token),
                decreases graveyard.len() - i,
            {
                let token = self.graveyards[side][i];
                let ghost before = choices@;
                offer(choices, Choice::Revive(token));
                proof {
                    assert(choices@ =~= old(choices)@ + revive_list(graveyard, i + 1));
                    assert forall|choice: Choice|
                        #[trigger] choices@.contains(choice) <==> old(choices)@.contains(choice) || (
                        choice matches Choice::Revive(token) && exists|n: int|
                            0 <= n < i + 1 && #[trigger] graveyard[n] == token) by {
                        assert(before.contains(choice) <==> old(choices)@.contains(choice) || (
                        choice matches Choice::Revive(token) && exists|n: int|
                            0 <= n < i && #[trigger] graveyard[n] == token));
                        if choice matches Choice::Revive(revived) && exists|n: int|
                            0 <= n < i + 1 && #[trigger] graveyard[n] == revived {
                            let n = choose|n: int|
                                0 <= n < i + 1 && #[trigger] graveyard[n] == choice->Revive_0;
                            if n < i {
                                assert(graveyard[n] == choice->Revive_0);
                            }
                        }
                        if choice matches Choice::Revive(revived) && exists|n: int|
                            0 <= n < i && #[trigger] graveyard[n] == revived {
                            let n = choose|n: int|
                                0 <= n < i && #[trigger] graveyard[n] == choice->Revive_0;
                            assert(graveyard[n] == choice->Revive_0);
                        }
                        if choice == Choice::Revive(token) {
                            assert(graveyard[i as int] == token);
                        }
                    }
                }
                i += 1;
            }
            proof {
                assert forall|choice: Choice|
                    #[trigger] choices@.contains(choice) <==> old(choices)@.contains(choice)
                        || self@.revives(color, choice) by {
                    if self@.revives(color, choice) {
                        let n = choose|n: int|
                            0 <= n < graveyard.len() && graveyard[n] == choice->Revive_0;
                        assert(graveyard[n] == choice->Revive_0);
                    }
                    if choice matches Choice::Revive(revived) && exists|n: int|
                        0 <= n < graveyard.len() && #[trigger] graveyard[n] == revived {
                        let n = choose|n: int|
                            0 <= n < graveyard.len() && #[trigger] graveyard[n]
                                == choice->Revive_0;
                        assert(graveyard.contains(choice->Revive_0));
                    }
                }
            }
        }
    }

    /// Every action that the side to act is allowed, token by token in
    /// scan order, then the deployments, then the revivals. An action may
    /// be listed more than once.
    pub fn list_choices(&self) -> (choices: Vec<Choice>)
        ensures
            forall|choice: Choice| #[trigger] choices@.contains(choice) <==> self@.allows(choice),
            choices.len() > 0,
            choices[0] == Choice::Pass,
            self.turn_state.spec_matchable() matches Some((color, _)) ==> exists|
                units: Seq<(Token, Coordinates)>,
            |
                lists_units(self@, color, units) && in_scan_order(units) && choices@
                    == #[trigger] listing(self@, units),
            self.turn_state.spec_matchable() is None ==> choices@ == seq![Choice::Pass],
    {
        let mut choices: Vec<Choice> = Vec::with_capacity(32);
        offer(&mut choices, Choice::Pass);
        match self.turn_state.get_matchable() {
            Some((color, used_piece)) => {
                let grabbed_space = self.grabbed_space(color);
                let units = self.units(color);
                let mut i: usize = 0;
                while i < units.len()
                    invariant
                        i <= units.len(),
                        choices.len() > 0,
                        choices[0] == Choice::Pass,
                        lists_units(self@, color, units@),
                        grabbed_space == self@.grabbed(color),
                        choices@ == seq![Choice::Pass] + acts_list(
                            self@,
                            units@,
                            color,
                            used_piece,
                            i as int,
                        ),
                        forall|choice: Choice|
                            #[trigger] choices@.contains(choice) <==> choice == Choice::Pass
                                || acts_upto(self@, units@, color, used_piece, choice, i as int),
                    decreases units.len() - i,
                {
                    let (token, coordinates) = units[i];
                    let used = match used_piece {
                        Some(used_token) => used_token == token,
                        None => false,
                    };
                    let held = match grabbed_space {
                        Some(space) => coordinates == space,
                        None => false,
                    };
                    let ghost before = choices@;
                    if !used && !held {
                        self.add_unit(&mut choices, color, token, coordinates, &units, grabbed_space);
                    }
                    proof {
                        assert(choices@ =~= seq![Choice::Pass] + acts_list(
                            self@,
                            units@,
                            color,
                            used_piece,
                            i + 1,
                        ));
                        assert(choices.len() > 0) by {
                            assert(before.contains(Choice::Pass));
                            assert(choices@.contains(Choice::Pass));
                        }
                        assert forall|choice: Choice|
                            #[trigger] choices@.contains(choice) <==> choice == Choice::Pass
                                || acts_upto(self@, units@, color, used_piece, choice, i + 1) by {
                            assert(before.contains(choice) <==> choice == Choice::Pass || acts_upto(
                                self@,
                                units@,
                                color,
                                used_piece,
                                choice,
                                i as int,
                            ));
                            lemma_acts_step(self@, units@, color, used_piece, choice, i as int);
                        }
                    }
                    i += 1;
                }
                let ghost acted = choices@;
                self.add_deployments(&mut choices, color);
                let ghost deployed = choices@;
                self.add_revivals(&mut choices, color);
                proof {
                    assert(choices.len() > 0) by {
                        assert(acted.contains(Choice::Pass));
                        assert(deployed.contains(Choice::Pass));
                        assert(choices@.contains(Choice::Pass));
                    }
                    assert forall|choice: Choice| #[trigger]
                        choices@.contains(choice) <==> self@.allows(choice) by {
                        assert(acted.contains(choice) <==> choice == Choice::Pass || acts_upto(
                            self@,
                            units@,
                            color,
                            used_piece,
                            choice,
                            units.len() as int,
                        ));
                        assert(deployed.contains(choice) <==> acted.contains(choice)
                            || self@.deploys(color, choice));
                        lemma_acts_all(self@, units@, color, used_piece, choice);
                    }
                    assert(choices@ =~= listing(self@, units@));
                }
            },
            None => {
                assert(choices@ =~= seq![Choice::Pass]);
            },
        }
        choices
    }
}

/// Whether `choice` is an exchange that a scout on `c` can make in one of
/// the first `k` directions.
pub open spec fn scout_upto(position: Position, c: Coordinates, choice: Choice, k: int) -> bool {
    choice matches Choice::UseAbility(Ability::Scout { target, destination }) && target == c
        && position.blocked(destination) && exists|d: Direction|
        #[trigger] d.ordinal() < k && (destination == c.spec_step(d) || destination == c.spec_step(
            d,
        ).spec_step(d))
}

/// Whether `choice` is a push that a hammer on `c` can make in one of the
/// first `k` directions, or in the next by less than `m` cells.
pub open spec fn hammer_upto(
    position: Position,
    c: Coordinates,
    choice: Choice,
    k: int,
    m: int,
) -> bool {
    choice matches Choice::UseAbility(Ability::Hammer { target, direction, distance }) && target
        == c.spec_step(direction) && position.blocked(target) && 1 <= distance <= 3 && (
    direction.ordinal() < k || (direction.ordinal() == k && distance < m))
}

/// Whether `choice` is a throw that a wave on `c` can make in one of the
/// first `k` directions.
pub open spec fn wave_upto(position: Position, c: Coordinates, choice: Choice, k: int) -> bool {
    choice matches Choice::UseAbility(Ability::Wave { target, destination }) && position.blocked(
        target,
    ) && position.free(destination) && exists|d: Direction|
        #[trigger] d.ordinal() < k && target == c.spec_step(d) && destination == c.spec_step(
            d.spec_opposite(),
        )
}

/// Whether `choice` is a step that a hand on `c` can take in one of the
/// first `k` directions, or in the next while it points in one of the
/// first `j`.
pub open spec fn hand_upto(position: Position, c: Coordinates, choice: Choice, k: int, j: int) -> bool {
    choice matches Choice::UseAbility(Ability::Hand { origin, move_direction, hand_direction })
        && origin == c && position.free(c.spec_step(move_direction)) && (move_direction.ordinal()
        < k || (move_direction.ordinal() == k && hand_direction.ordinal() < j))
}

/// Whether `choice` is a pull that a hook on `c` can make in one of the
/// first `k` directions, or in the next at a piece less than `s` cells
/// away, or `s` cells away by less than `m` cells.
pub open spec fn hook_upto(
    position: Position,
    c: Coordinates,
    choice: Choice,
    k: int,
    s: int,
    m: int,
) -> bool {
    choice matches Choice::UseAbility(Ability::Hook { target, direction, distance })
        && position.blocked(target) && 1 <= distance && exists|span: int|
        2 <= span <= 4 && distance < span && target == #[trigger] leap(
            c,
            direction.spec_opposite(),
            span,
        ) && (direction.spec_opposite().ordinal() < k || (direction.spec_opposite().ordinal() == k
            && (span < s || (span == s && distance < m))))
}

/// One more pull has been added for the piece `s` cells away.
proof fn lemma_hook_step(
    position: Position,
    c: Coordinates,
    choice: Choice,
    k: int,
    s: int,
    m: int,
    pull: Choice,
)
    requires
        0 <= k < 6,
        2 <= s <= 4,
        1 <= m < s,
        pull matches Choice::UseAbility(Ability::Hook { target, direction, distance })
            && position.blocked(target) && distance == m && direction.spec_opposite().ordinal()
            == k && target == leap(c, direction.spec_opposite(), s),
    ensures
        hook_upto(position, c, choice, k, s, m + 1) <==> hook_upto(position, c, choice, k, s, m)
            || choice == pull,
{
    if hook_upto(position, c, choice, k, s, m + 1) {
        let span = choose|span: int|
            2 <= span <= 4 && choice->UseAbility_0->Hook_distance < span
                && choice->UseAbility_0->Hook_target == #[trigger] leap(
                c,
                choice->UseAbility_0->Hook_direction.spec_opposite(),
                span,
            ) && (choice->UseAbility_0->Hook_direction.spec_opposite().ordinal() < k || (
            choice->UseAbility_0->Hook_direction.spec_opposite().ordinal() == k && (span < s || (
            span == s && choice->UseAbility_0->Hook_distance < m + 1))));
        let d = choice->UseAbility_0->Hook_direction;
        if d.spec_opposite().ordinal() == k && span == s && choice->UseAbility_0->Hook_distance
            == m {
            lemma_ordinal(d.spec_opposite());
            lemma_ordinal(pull->UseAbility_0->Hook_direction.spec_opposite());
            crate::hex::lemma_opposite(d);
            crate::hex::lemma_opposite(pull->UseAbility_0->Hook_direction);
            assert(d == pull->UseAbility_0->Hook_direction);
            assert(choice == pull);
        } else {
            assert(hook_upto(position, c, choice, k, s, m));
        }
    }
    if hook_upto(position, c, choice, k, s, m) {
        let span = choose|span: int|
            2 <= span <= 4 && choice->UseAbility_0->Hook_distance < span
                && choice->UseAbility_0->Hook_target == #[trigger] leap(
                c,
                choice->UseAbility_0->Hook_direction.spec_opposite(),
                span,
            ) && (choice->UseAbility_0->Hook_direction.spec_opposite().ordinal() < k || (
            choice->UseAbility_0->Hook_direction.spec_opposite().ordinal() == k && (span < s || (
            span == s && choice->UseAbility_0->Hook_distance < m))));
        assert(hook_upto(position, c, choice, k, s, m + 1));
    }
    if choice == pull {
        assert(pull->UseAbility_0->Hook_target == leap(
            c,
            pull->UseAbility_0->Hook_direction.spec_opposite(),
            s,
        ));
        assert(hook_upto(position, c, choice, k, s, m + 1));
    }
}

/// The pulls at the piece `s` cells away are done, or there is no piece.
proof fn lemma_hook_span(position: Position, c: Coordinates, choice: Choice, k: int, s: int)
    requires
        0 <= k < 6,
        2 <= s <= 4,
        on_cell(c),
    ensures
        hook_upto(position, c, choice, k, s + 1, 1) <==> hook_upto(position, c, choice, k, s, s),
        !position.blocked(leap(c, Direction::spec_all()[k], s)) ==> (hook_upto(
            position,
            c,
            choice,
            k,
            s,
            s,
        ) <==> hook_upto(position, c, choice, k, s, 1)),
{
    if hook_upto(position, c, choice, k, s + 1, 1) {
        let span = choose|span: int|
            2 <= span <= 4 && choice->UseAbility_0->Hook_distance < span
                && choice->UseAbility_0->Hook_target == #[trigger] leap(
                c,
                choice->UseAbility_0->Hook_direction.spec_opposite(),
                span,
            ) && (choice->UseAbility_0->Hook_direction.spec_opposite().ordinal() < k || (
            choice->UseAbility_0->Hook_direction.spec_opposite().ordinal() == k && (span < s + 1
                || (span == s + 1 && choice->UseAbility_0->Hook_distance < 1))));
        assert(hook_upto(position, c, choice, k, s, s));
    }
    if hook_upto(position, c, choice, k, s, s) {
        let span = choose|span: int|
            2 <= span <= 4 && choice->UseAbility_0->Hook_distance < span
                && choice->UseAbility_0->Hook_target == #[trigger] leap(
                c,
                choice->UseAbility_0->Hook_direction.spec_opposite(),
                span,
            ) && (choice->UseAbility_0->Hook_direction.spec_opposite().ordinal() < k || (
            choice->UseAbility_0->Hook_direction.spec_opposite().ordinal() == k && (span < s || (
            span == s && choice->UseAbility_0->Hook_distance < s))));
        assert(hook_upto(position, c, choice, k, s + 1, 1));
        if !position.blocked(leap(c, Direction::spec_all()[k], s)) {
            lemma_ordinal(choice->UseAbility_0->Hook_direction.spec_opposite());
            assert(hook_upto(position, c, choice, k, s, 1));
        }
    }
    if hook_upto(position, c, choice, k, s, 1) {
        let span = choose|span: int|
            2 <= span <= 4 && choice->UseAbility_0->Hook_distance < span
                && choice->UseAbility_0->Hook_target == #[trigger] leap(
                c,
                choice->UseAbility_0->Hook_direction.spec_opposite(),
                span,
            ) && (choice->UseAbility_0->Hook_direction.spec_opposite().ordinal() < k || (
            choice->UseAbility_0->Hook_direction.spec_opposite().ordinal() == k && (span < s || (
            span == s && choice->UseAbility_0->Hook_distance < 1))));
        assert(hook_upto(position, c, choice, k, s, s));
    }
}

/// The pulls in direction `k` are done.
proof fn lemma_hook_direction(position: Position, c: Coordinates, choice: Choice, k: int)
    requires
        0 <= k < 6,
    ensures
        hook_upto(position, c, choice, k + 1, 2, 1) <==> hook_upto(position, c, choice, k, 5, 1),
{
    if hook_upto(position, c, choice, k + 1, 2, 1) {
        let span = choose|span: int|
            2 <= span <= 4 && choice->UseAbility_0->Hook_distance < span
                && choice->UseAbility_0->Hook_target == #[trigger] leap(
                c,
                choice->UseAbility_0->Hook_direction.spec_opposite(),
                span,
            ) && (choice->UseAbility_0->Hook_direction.spec_opposite().ordinal() < k + 1 || (
            choice->UseAbility_0->Hook_direction.spec_opposite().ordinal() == k + 1 && (span < 2
                || (span == 2 && choice->UseAbility_0->Hook_distance < 1))));
        assert(hook_upto(position, c, choice, k, 5, 1));
    }
    if hook_upto(position, c, choice, k, 5, 1) {
        let span = choose|span: int|
            2 <= span <= 4 && choice->UseAbility_0->Hook_distance < span
                && choice->UseAbility_0->Hook_target == #[trigger] leap(
                c,
                choice->UseAbility_0->Hook_direction.spec_opposite(),
                span,
            ) && (choice->UseAbility_0->Hook_direction.spec_opposite().ordinal() < k || (
            choice->UseAbility_0->Hook_direction.spec_opposite().ordinal() == k && (span < 5 || (
            span == 5 && choice->UseAbility_0->Hook_distance < 1))));
        assert(hook_upto(position, c, choice, k + 1, 2, 1));
    }
}

/// The pulls in all six directions are what a hook can do.
proof fn lemma_hook_all(position: Position, color: Color, c: Coordinates, choice: Choice)
    ensures
        hook_upto(position, c, choice, 6, 2, 1) <==> position.wields(color, Token::Hook, c, choice),
{
    if hook_upto(position, c, choice, 6, 2, 1) {
        let span = choose|span: int|
            2 <= span <= 4 && choice->UseAbility_0->Hook_distance < span
                && choice->UseAbility_0->Hook_target == #[trigger] leap(
                c,
                choice->UseAbility_0->Hook_direction.spec_opposite(),
                span,
            ) && (choice->UseAbility_0->Hook_direction.spec_opposite().ordinal() < 6 || (
            choice->UseAbility_0->Hook_direction.spec_opposite().ordinal() == 6 && (span < 2 || (
            span == 2 && choice->UseAbility_0->Hook_distance < 1))));
        assert(position.wields(color, Token::Hook, c, choice));
    }
    if position.wields(color, Token::Hook, c, choice) {
        let span = choose|span: int|
            2 <= span <= 4 && choice->UseAbility_0->Hook_distance < span
                && choice->UseAbility_0->Hook_target == #[trigger] leap(
                c,
                choice->UseAbility_0->Hook_direction.spec_opposite(),
                span,
            );
        lemma_ordinal(choice->UseAbility_0->Hook_direction.spec_opposite());
        assert(hook_upto(position, c, choice, 6, 2, 1));
    }
}

/// Whether `units` lists the tokens of `color` on the board, each with its
/// cell.
pub open spec fn lists_units(
    position: Position,
    color: Color,
    units: Seq<(Token, Coordinates)>,
) -> bool {
    &&& forall|n: int|
        0 <= n < units.len() ==> position.unit(color, (#[trigger] units[n]).0, units[n].1)
    &&& forall|token: Token, c: Coordinates| #[trigger]
        position.unit(color, token, c) ==> exists|n: int|
            0 <= n < units.len() && #[trigger] units[n] == (token, c)
}

/// Whether `choice` is a call that a daimyo on `c` can make to one of the
/// first `i` of `units`, or to the next to a cell in one of the first `k`
/// directions.
pub open spec fn daimyo_upto(
    position: Position,
    units: Seq<(Token, Coordinates)>,
    color: Color,
    c: Coordinates,
    choice: Choice,
    i: int,
    k: int,
) -> bool {
    choice matches Choice::UseAbility(Ability::Daimyo { target, destination }) && position.grabbed(
        color,
    ) != Some(target) && position.free(destination) && exists|n: int|
        0 <= n < units.len() && (#[trigger] units[n]).1 == target && units[n].0 != Token::Daimyo
            && called_upto(c, destination, n, i, k)
}

/// Whether `destination` is next to `c`, and in one of the first `k`
/// directions if `n` is `i`, or in any if `n` is less.
pub open spec fn called_upto(c: Coordinates, destination: Coordinates, n: int, i: int, k: int) -> bool {
    exists|d: Direction|
        destination == #[trigger] c.spec_step(d) && (n < i || (n == i && d.ordinal() < k))
}

/// How `called_upto` goes from unit to unit and from direction to
/// direction.
proof fn lemma_called(c: Coordinates, destination: Coordinates, n: int, i: int, k: int)
    ensures
        n < i ==> (called_upto(c, destination, n, i, k) <==> exists|d: Direction|
            destination == #[trigger] c.spec_step(d)),
        n > i ==> !called_upto(c, destination, n, i, k),
        n == i && k <= 0 ==> !called_upto(c, destination, n, i, k),
        n == i && 0 <= k < 6 ==> (called_upto(c, destination, n, i, k + 1) <==> called_upto(
            c,
            destination,
            n,
            i,
            k,
        ) || destination == c.spec_step(Direction::spec_all()[k])),
        n == i && k >= 6 ==> (called_upto(c, destination, n, i, k) <==> exists|d: Direction|
            destination == #[trigger] c.spec_step(d)),
{
    if n < i {
        if called_upto(c, destination, n, i, k) {
            let d = choose|d: Direction|
                destination == #[trigger] c.spec_step(d) && (n < i || (n == i && d.ordinal() < k));
            assert(destination == c.spec_step(d));
        }
        if exists|d: Direction| destination == #[trigger] c.spec_step(d) {
            let d = choose|d: Direction| destination == #[trigger] c.spec_step(d);
            assert(destination == c.spec_step(d) && (n < i || (n == i && d.ordinal() < k)));
        }
    }
    if n == i && k <= 0 {
        if called_upto(c, destination, n, i, k) {
            let d = choose|d: Direction|
                destination == #[trigger] c.spec_step(d) && (n < i || (n == i && d.ordinal() < k));
            lemma_ordinal(d);
        }
    }
    if n == i && 0 <= k < 6 {
        let direction = Direction::spec_all()[k];
        lemma_ordinal_at(k);
        if called_upto(c, destination, n, i, k + 1) {
            let d = choose|d: Direction|
                destination == #[trigger] c.spec_step(d) && (n < i || (n == i && d.ordinal() < k
                    + 1));
            lemma_ordinal(d);
            if d.ordinal() < k {
                assert(destination == c.spec_step(d) && (n < i || (n == i && d.ordinal() < k)));
            } else {
                assert(d == direction);
            }
        }
        if called_upto(c, destination, n, i, k) {
            let d = choose|d: Direction|
                destination == #[trigger] c.spec_step(d) && (n < i || (n == i && d.ordinal() < k));
            assert(destination == c.spec_step(d) && (n < i || (n == i && d.ordinal() < k + 1)));
        }
        if destination == c.spec_step(direction) {
            assert(destination == c.spec_step(direction) && (n < i || (n == i
                && direction.ordinal() < k + 1)));
        }
    }
    if n == i && k >= 6 {
        if called_upto(c, destination, n, i, k) {
            let d = choose|d: Direction|
                destination == #[trigger] c.spec_step(d) && (n < i || (n == i && d.ordinal() < k));
            assert(destination == c.spec_step(d));
        }
        if exists|d: Direction| destination == #[trigger] c.spec_step(d) {
            let d = choose|d: Direction| destination == #[trigger] c.spec_step(d);
            lemma_ordinal(d);
            assert(destination == c.spec_step(d) && (n < i || (n == i && d.ordinal() < k)));
        }
    }
}

/// One more call has been added for unit `i`, if the cell is free.
proof fn lemma_daimyo_step(
    position: Position,
    units: Seq<(Token, Coordinates)>,
    color: Color,
    c: Coordinates,
    choice: Choice,
    i: int,
    k: int,
)
    requires
        0 <= i < units.len(),
        0 <= k < 6,
        units[i].0 != Token::Daimyo,
        position.grabbed(color) != Some(units[i].1),
    ensures
        daimyo_upto(position, units, color, c, choice, i, k + 1) <==> daimyo_upto(
            position,
            units,
            color,
            c,
            choice,
            i,
            k,
        ) || (position.free(c.spec_step(Direction::spec_all()[k])) && choice == Choice::UseAbility(
            Ability::Daimyo {
                target: units[i].1,
                destination: c.spec_step(Direction::spec_all()[k]),
            },
        )),
{
    let direction = Direction::spec_all()[k];
    let target = choice->UseAbility_0->Daimyo_target;
    let destination = choice->UseAbility_0->Daimyo_destination;
    if daimyo_upto(position, units, color, c, choice, i, k + 1) {
        let n = choose|n: int|
            0 <= n < units.len() && (#[trigger] units[n]).1 == target && units[n].0
                != Token::Daimyo && called_upto(c, destination, n, i, k + 1);
        lemma_called(c, destination, n, i, k);
        lemma_called(c, destination, n, i, k + 1);
        if n == i && !called_upto(c, destination, n, i, k) {
        } else {
            assert(units[n].1 == target && called_upto(c, destination, n, i, k));
        }
    }
    if daimyo_upto(position, units, color, c, choice, i, k) {
        let n = choose|n: int|
            0 <= n < units.len() && (#[trigger] units[n]).1 == target && units[n].0
                != Token::Daimyo && called_upto(c, destination, n, i, k);
        lemma_called(c, destination, n, i, k);
        lemma_called(c, destination, n, i, k + 1);
        assert(units[n].1 == target && called_upto(c, destination, n, i, k + 1));
    }
    if position.free(c.spec_step(direction)) && choice == Choice::UseAbility(
        Ability::Daimyo { target: units[i].1, destination: c.spec_step(direction) },
    ) {
        lemma_called(c, destination, i, i, k);
        assert(units[i].1 == target && called_upto(c, destination, i, i, k + 1));
    }
}

/// The direction at place `k` of the list of all directions has the
/// ordinal `k`.
pub proof fn lemma_ordinal_at(k: int)
    requires
        0 <= k < 6,
    ensures
        Direction::spec_all()[k].ordinal() == k,
{
    let all = Direction::spec_all();
    assert(all[0] == Direction::Left);
    assert(all[1] == Direction::UpLeft);
    assert(all[2] == Direction::UpRight);
    assert(all[3] == Direction::Right);
    assert(all[4] == Direction::DownRight);
    assert(all[5] == Direction::DownLeft);
}

/// The calls to unit `i` are done, or it cannot be called.
proof fn lemma_daimyo_unit(
    position: Position,
    units: Seq<(Token, Coordinates)>,
    color: Color,
    c: Coordinates,
    choice: Choice,
    i: int,
)
    requires
        0 <= i < units.len(),
    ensures
        daimyo_upto(position, units, color, c, choice, i + 1, 0) <==> daimyo_upto(
            position,
            units,
            color,
            c,
            choice,
            i,
            6,
        ),
        units[i].0 == Token::Daimyo || position.grabbed(color) == Some(units[i].1) ==> (
        daimyo_upto(position, units, color, c, choice, i, 6) <==> daimyo_upto(
            position,
            units,
            color,
            c,
            choice,
            i,
            0,
        )),
{
    let target = choice->UseAbility_0->Daimyo_target;
    let destination = choice->UseAbility_0->Daimyo_destination;
    if daimyo_upto(position, units, color, c, choice, i + 1, 0) {
        let n = choose|n: int|
            0 <= n < units.len() && (#[trigger] units[n]).1 == target && units[n].0
                != Token::Daimyo && called_upto(c, destination, n, i + 1, 0);
        lemma_called(c, destination, n, i + 1, 0);
        lemma_called(c, destination, n, i, 6);
        assert(units[n].1 == target && called_upto(c, destination, n, i, 6));
    }
    if daimyo_upto(position, units, color, c, choice, i, 6) {
        let n = choose|n: int|
            0 <= n < units.len() && (#[trigger] units[n]).1 == target && units[n].0
                != Token::Daimyo && called_upto(c, destination, n, i, 6);
        lemma_called(c, destination, n, i + 1, 0);
        lemma_called(c, destination, n, i, 6);
        lemma_called(c, destination, n, i, 0);
        assert(units[n].1 == target && called_upto(c, destination, n, i + 1, 0));
        if units[i].0 == Token::Daimyo || position.grabbed(color) == Some(units[i].1) {
            assert(n < i);
            assert(units[n].1 == target && called_upto(c, destination, n, i, 0));
        }
    }
    if daimyo_upto(position, units, color, c, choice, i, 0) {
        let n = choose|n: int|
            0 <= n < units.len() && (#[trigger] units[n]).1 == target && units[n].0
                != Token::Daimyo && called_upto(c, destination, n, i, 0);
        lemma_called(c, destination, n, i, 6);
        lemma_called(c, destination, n, i, 0);
        assert(units[n].1 == target && called_upto(c, destination, n, i, 6));
    }
}

/// The calls to all units are what a daimyo can do.
proof fn lemma_daimyo_all(
    position: Position,
    units: Seq<(Token, Coordinates)>,
    color: Color,
    c: Coordinates,
    choice: Choice,
)
    requires
        lists_units(position, color, units),
    ensures
        daimyo_upto(position, units, color, c, choice, units.len() as int, 0) <==> position.wields(
            color,
            Token::Daimyo,
            c,
            choice,
        ),
{
    let target = choice->UseAbility_0->Daimyo_target;
    let destination = choice->UseAbility_0->Daimyo_destination;
    let all = units.len() as int;
    if daimyo_upto(position, units, color, c, choice, all, 0) {
        let n = choose|n: int|
            0 <= n < units.len() && (#[trigger] units[n]).1 == target && units[n].0
                != Token::Daimyo && called_upto(c, destination, n, all, 0);
        lemma_called(c, destination, n, all, 0);
        assert(position.unit(color, units[n].0, units[n].1));
        assert(position.wields(color, Token::Daimyo, c, choice));
    }
    if position.wields(color, Token::Daimyo, c, choice) {
        let other = choose|other: Token|
            other != Token::Daimyo && #[trigger] position.unit(color, other, target);
        let n = choose|n: int| 0 <= n < units.len() && #[trigger] units[n] == (other, target);
        lemma_called(c, destination, n, all, 0);
        assert(units[n].1 == target && called_upto(c, destination, n, all, 0));
        assert(daimyo_upto(position, units, color, c, choice, all, 0));
    }
}

/// Whether `choice` deploys one of the first `i` tokens of `supply`, or the
/// next, a hand, to point in one of the first `k` directions.
pub open spec fn deploy_upto(supply: Seq<Token>, choice: Choice, i: int, k: int) -> bool {
    choice matches Choice::Deploy(token, direction) && (token == Token::Hand <==> direction is Some)
        && exists|n: int|
        0 <= n < supply.len() && #[trigger] supply[n] == token && (n < i || (n == i && (
        direction matches Some(d) ==> d.ordinal() < k) && (direction is None ==> k >= 6)))
}

/// One more deployment of the hand has been added.
proof fn lemma_deploy_step(supply: Seq<Token>, choice: Choice, i: int, k: int)
    requires
        0 <= i < supply.len(),
        0 <= k < 6,
        supply[i] == Token::Hand,
    ensures
        deploy_upto(supply, choice, i, k + 1) <==> deploy_upto(supply, choice, i, k) || choice
            == Choice::Deploy(Token::Hand, Some(Direction::spec_all()[k])),
{
    let token = choice->Deploy_0;
    let direction = choice->Deploy_1;
    lemma_ordinal_at(k);
    if deploy_upto(supply, choice, i, k + 1) {
        let n = choose|n: int|
            0 <= n < supply.len() && #[trigger] supply[n] == token && (n < i || (n == i && (
            direction matches Some(d) ==> d.ordinal() < k + 1) && (direction is None ==> k + 1
                >= 6)));
        if n == i {
            lemma_ordinal(direction->Some_0);
            if direction->Some_0.ordinal() < k {
                assert(supply[n] == token);
                assert(deploy_upto(supply, choice, i, k));
            }
        } else {
            assert(supply[n] == token);
            assert(deploy_upto(supply, choice, i, k));
        }
    }
    if deploy_upto(supply, choice, i, k) {
        let n = choose|n: int|
            0 <= n < supply.len() && #[trigger] supply[n] == token && (n < i || (n == i && (
            direction matches Some(d) ==> d.ordinal() < k) && (direction is None ==> k >= 6)));
        assert(supply[n] == token);
        assert(deploy_upto(supply, choice, i, k + 1));
    }
    if choice == Choice::Deploy(Token::Hand, Some(Direction::spec_all()[k])) {
        assert(supply[i] == token);
        assert(deploy_upto(supply, choice, i, k + 1));
    }
}

/// The deployment of a token other than the hand has been added.
proof fn lemma_deploy_plain(supply: Seq<Token>, choice: Choice, i: int)
    requires
        0 <= i < supply.len(),
        supply[i] != Token::Hand,
    ensures
        deploy_upto(supply, choice, i, 6) <==> deploy_upto(supply, choice, i, 0) || choice
            == Choice::Deploy(supply[i], None),
{
    let token = choice->Deploy_0;
    let direction = choice->Deploy_1;
    if deploy_upto(supply, choice, i, 6) {
        let n = choose|n: int|
            0 <= n < supply.len() && #[trigger] supply[n] == token && (n < i || (n == i && (
            direction matches Some(d) ==> d.ordinal() < 6) && (direction is None ==> 6 >= 6int)));
        if n < i {
            assert(supply[n] == token);
            assert(deploy_upto(supply, choice, i, 0));
        }
    }
    if deploy_upto(supply, choice, i, 0) {
        let n = choose|n: int|
            0 <= n < supply.len() && #[trigger] supply[n] == token && (n < i || (n == i && (
            direction matches Some(d) ==> d.ordinal() < 0) && (direction is None ==> 0 >= 6int)));
        assert(supply[n] == token);
        assert(n < i);
        assert(deploy_upto(supply, choice, i, 6));
    }
    if choice == Choice::Deploy(supply[i], None) {
        assert(supply[i] == token);
        assert(deploy_upto(supply, choice, i, 6));
    }
}

/// The deployments of token `i` of the supply are done.
proof fn lemma_deploy_item(supply: Seq<Token>, choice: Choice, i: int)
    requires
        0 <= i < supply.len(),
    ensures
        deploy_upto(supply, choice, i + 1, 0) <==> deploy_upto(supply, choice, i, 6),
{
    let token = choice->Deploy_0;
    let direction = choice->Deploy_1;
    if deploy_upto(supply, choice, i + 1, 0) {
        let n = choose|n: int|
            0 <= n < supply.len() && #[trigger] supply[n] == token && (n < i + 1 || (n == i + 1
                && (direction matches Some(d) ==> d.ordinal() < 0) && (direction is None ==> 0
                >= 6int)));
        if direction is Some {
            lemma_ordinal(direction->Some_0);
        }
        assert(supply[n] == token);
        assert(n < i + 1);
        assert(deploy_upto(supply, choice, i, 6));
    }
    if deploy_upto(supply, choice, i, 6) {
        let n = choose|n: int|
            0 <= n < supply.len() && #[trigger] supply[n] == token && (n < i || (n == i && (
            direction matches Some(d) ==> d.ordinal() < 6) && (direction is None ==> 6 >= 6int)));
        assert(supply[n] == token);
        assert(deploy_upto(supply, choice, i + 1, 0));
    }
}

/// The deployments of all tokens of the supply are those that a side is
/// allowed while nothing stands where it deploys.
proof fn lemma_deploy_all(supply: Seq<Token>, choice: Choice)
    ensures
        deploy_upto(supply, choice, supply.len() as int, 0) <==> (choice matches Choice::Deploy(
            token,
            direction,
        ) && supply.contains(token) && (token == Token::Hand <==> direction is Some)),
{
    let token = choice->Deploy_0;
    let direction = choice->Deploy_1;
    let all = supply.len() as int;
    if deploy_upto(supply, choice, all, 0) {
        let n = choose|n: int|
            0 <= n < supply.len() && #[trigger] supply[n] == token && (n < all || (n == all && (
            direction matches Some(d) ==> d.ordinal() < 0) && (direction is None ==> 0 >= 6int)));
        assert(supply.contains(token));
    }
    if choice matches Choice::Deploy(t, d) && supply.contains(t) && (t == Token::Hand <==> d is Some) {
        let n = choose|n: int| 0 <= n < supply.len() && supply[n] == token;
        assert(supply[n] == token);
        assert(deploy_upto(supply, choice, all, 0));
    }
}

/// Whether one of the first `i` of `units` can act and can make the move
/// `choice`.
pub open spec fn acts_upto(
    position: Position,
    units: Seq<(Token, Coordinates)>,
    color: Color,
    used_piece: Option<Token>,
    choice: Choice,
    i: int,
) -> bool {
    exists|n: int|
        0 <= n < i && n < units.len() && position.usable(
            color,
            used_piece,
            (#[trigger] units[n]).0,
            units[n].1,
        ) && position.unit_allows(color, units[n].0, units[n].1, choice)
}

/// The moves of unit `i` have been added, if it can act.
proof fn lemma_acts_step(
    position: Position,
    units: Seq<(Token, Coordinates)>,
    color: Color,
    used_piece: Option<Token>,
    choice: Choice,
    i: int,
)
    requires
        0 <= i < units.len(),
    ensures
        acts_upto(position, units, color, used_piece, choice, i + 1) <==> acts_upto(
            position,
            units,
            color,
            used_piece,
            choice,
            i,
        ) || (position.usable(color, used_piece, units[i].0, units[i].1) && position.unit_allows(
            color,
            units[i].0,
            units[i].1,
            choice,
        )),
{
    if acts_upto(position, units, color, used_piece, choice, i + 1) {
        let n = choose|n: int|
            0 <= n < i + 1 && n < units.len() && position.usable(
                color,
                used_piece,
                (#[trigger] units[n]).0,
                units[n].1,
            ) && position.unit_allows(color, units[n].0, units[n].1, choice);
        if n < i {
            assert(position.usable(color, used_piece, units[n].0, units[n].1));
            assert(acts_upto(position, units, color, used_piece, choice, i));
        }
    }
    if acts_upto(position, units, color, used_piece, choice, i) {
        let n = choose|n: int|
            0 <= n < i && n < units.len() && position.usable(
                color,
                used_piece,
                (#[trigger] units[n]).0,
                units[n].1,
            ) && position.unit_allows(color, units[n].0, units[n].1, choice);
        assert(position.usable(color, used_piece, units[n].0, units[n].1));
        assert(acts_upto(position, units, color, used_piece, choice, i + 1));
    }
    if position.usable(color, used_piece, units[i].0, units[i].1) && position.unit_allows(
        color,
        units[i].0,
        units[i].1,
        choice,
    ) {
        assert(acts_upto(position, units, color, used_piece, choice, i + 1));
    }
}

/// Passing, the moves of all units, the deployments and the revivals are
/// what a side is allowed.
proof fn lemma_acts_all(
    position: Position,
    units: Seq<(Token, Coordinates)>,
    color: Color,
    used_piece: Option<Token>,
    choice: Choice,
)
    requires
        lists_units(position, color, units),
        position.turn_state.spec_matchable() == Some((color, used_piece)),
    ensures
        position.allows(choice) <==> choice == Choice::Pass || acts_upto(
            position,
            units,
            color,
            used_piece,
            choice,
            units.len() as int,
        ) || position.deploys(color, choice) || position.revives(color, choice),
{
    if acts_upto(position, units, color, used_piece, choice, units.len() as int) {
        let n = choose|n: int|
            0 <= n < units.len() && n < units.len() && position.usable(
                color,
                used_piece,
                (#[trigger] units[n]).0,
                units[n].1,
            ) && position.unit_allows(color, units[n].0, units[n].1, choice);
        assert(position.usable(color, used_piece, units[n].0, units[n].1));
        assert(position.allows(choice));
    }
    if position.allows(choice) && choice != Choice::Pass && !position.deploys(color, choice)
        && !position.revives(color, choice) {
        let (token, c) = choose|token: Token, c: Coordinates|
            #[trigger] position.usable(color, used_piece, token, c) && position.unit_allows(
                color,
                token,
                c,
                choice,
            );
        assert(position.unit(color, token, c));
        let n = choose|n: int| 0 <= n < units.len() && #[trigger] units[n] == (token, c);
        assert(position.usable(color, used_piece, units[n].0, units[n].1));
        assert(acts_upto(position, units, color, used_piece, choice, units.len() as int));
    }
}

} // verus!
