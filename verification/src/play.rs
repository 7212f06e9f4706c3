//! The board game as a decision process that can be searched.

use crate::board::{Color, Token};
use crate::hex::Coordinates;
use crate::listing::{in_scan_order, listing};
use crate::moves::lists_units;
use crate::choice::{lemma_choice_clone, Choice};
use crate::game::Status;
use crate::rules::{Ending, Game, TurnState};
use crate::sound::{lemma_acted_sound, lemma_push_contains};
use vstd::prelude::*;

verus! {

/// Whether `choice` is among the first `n` of `choices`.
pub open spec fn listed(choices: Seq<Choice>, n: int, choice: Choice) -> bool {
    exists|j: int| 0 <= j < n && j < choices.len() && #[trigger] choices[j] == choice
}

/// The list with each action kept where it occurs first.
pub open spec fn first_occurrences(choices: Seq<Choice>) -> Seq<Choice>
    decreases choices.len(),
{
    if choices.len() == 0 {
        choices
    } else if first_occurrences(choices.drop_last()).contains(choices.last()) {
        first_occurrences(choices.drop_last())
    } else {
        first_occurrences(choices.drop_last()).push(choices.last())
    }
}

/// The list with each action kept where it occurs first. A list that holds
/// no action twice stays as it is.
pub fn distinct(choices: Vec<Choice>) -> (kept: Vec<Choice>)
    ensures
        kept@ == first_occurrences(choices@),
        kept@.no_duplicates(),
        forall|choice: Choice| kept@.contains(choice) <==> choices@.contains(choice),
        choices@.no_duplicates() ==> kept@ == choices@,
        choices.len() > 0 ==> kept.len() > 0 && kept[0] == choices[0],
{
    let mut kept: Vec<Choice> = Vec::new();
    let mut i: usize = 0;
    while i < choices.len()
        invariant
            i <= choices.len(),
            kept@.no_duplicates(),
            forall|choice: Choice| #[trigger] kept@.contains(choice) <==> listed(choices@, i as int, choice),
            choices@.no_duplicates() ==> kept@ == choices@.take(i as int),
            kept.len() <= i,
            kept@ == first_occurrences(choices@.take(i as int)),
            i > 0 ==> kept.len() > 0 && kept[0] == choices[0],
        decreases choices.len() - i,
    {
        let choice = choices[i];
        assert(choices@.take(i + 1).drop_last() =~= choices@.take(i as int));
        let mut found = false;
        let mut j: usize = 0;
        while j < kept.len()
            invariant
                j <= kept.len(),
                found <==> exists|m: int| 0 <= m < j && #[trigger] kept[m] == choice,
            decreases kept.len() - j,
        {
            if kept[j] == choice {
                found = true;
            }
            j += 1;
        }
        let ghost before = kept@;
        proof {
            if found {
                let m = choose|m: int| 0 <= m < kept.len() && #[trigger] kept[m] == choice;
                assert(kept@.contains(choice));
            }
            if kept@.contains(choice) {
                let m = choose|m: int| 0 <= m < kept.len() && kept[m] == choice;
                assert(kept[m] == choice);
            }
        }
        if !found {
            kept.push(choice);
        }
        proof {
            assert forall|other: Choice| #[trigger]
                kept@.contains(other) <==> listed(choices@, i + 1, other) by {
                assert(before.contains(other) <==> listed(choices@, i as int, other));
                lemma_push_contains(before, choice, other);
                if listed(choices@, i + 1, other) {
                    let m = choose|m: int|
                        0 <= m < i + 1 && m < choices.len() && #[trigger] choices[m] == other;
                    if m < i {
                        assert(listed(choices@, i as int, other));
                    }
                }
                if listed(choices@, i as int, other) {
                    let m = choose|m: int|
                        0 <= m < i && m < choices.len() && #[trigger] choices[m] == other;
                    assert(choices[m] == other);
                }
                if other == choice {
                    assert(choices[i as int] == other);
                }
            }
            if choices@.no_duplicates() {
                if found {
                    let m = choose|m: int|
                        0 <= m < i && m < choices.len() && #[trigger] choices[m] == choice;
                    assert(choices[m] == choices[i as int]);
                }
                assert(kept@ =~= choices@.take(i + 1));
            }
        }
        i += 1;
    }
    proof {
        assert(choices@.take(choices.len() as int) =~= choices@);
        if choices.len() > 0 {
            assert(listed(choices@, choices.len() as int, choices[0]));
            assert(kept@.contains(choices[0]));
        }
        assert forall|choice: Choice| kept@.contains(choice) <==> choices@.contains(choice) by {
            if choices@.contains(choice) {
                let m = choose|m: int| 0 <= m < choices.len() && choices[m] == choice;
                assert(choices[m] == choice);
            }
            if listed(choices@, choices.len() as int, choice) {
                let m = choose|m: int|
                    0 <= m < choices.len() && m < choices.len() && #[trigger] choices[m] == choice;
                assert(choices@.contains(choice));
            }
        }
    }
    kept
}

impl Clone for Game {
    /// A copy of the position.
    fn clone(&self) -> (copy: Self)
        ensures
            copy@ == self@,
    {
        let copy = Game {
            board: self.board,
            supplies: [self.supplies[0].clone(), self.supplies[1].clone()],
            graveyards: [self.graveyards[0].clone(), self.graveyards[1].clone()],
            hand_directions: self.hand_directions,
            turn_state: self.turn_state,
            choice_number: self.choice_number,
        };
        proof {
            assert(copy.supplies@[0]@ =~= self.supplies@[0]@);
            assert(copy.supplies@[1]@ =~= self.supplies@[1]@);
            assert(copy.graveyards@[0]@ =~= self.graveyards@[0]@);
            assert(copy.graveyards@[1]@ =~= self.graveyards@[1]@);
            assert(copy@.supplies =~= self@.supplies);
            assert(copy@.graveyards =~= self@.graveyards);
        }
        copy
    }
}

impl crate::game::Game for Game {
    type Choice = Choice;

    type PlayerId = Color;

    type Outcome = Ending;

    /// A position is valid if it is sound: its rocks stand on the board and
    /// every piece is in one place only.
    open spec fn valid(&self) -> bool {
        self@.sound()
    }

    /// The side to act while nobody has won; after as many actions as the
    /// counter holds, nobody is to act.
    open spec fn active_player(&self) -> Option<Color> {
        if self.choice_number == u32::MAX {
            None
        } else {
            self.turn_state.spec_color()
        }
    }

    /// The actions that the rules allow the side to act.
    open spec fn legal(&self, choice: Choice) -> bool {
        self@.allows(choice)
    }

    /// The actions that the counter can still count.
    open spec fn horizon(&self) -> u64 {
        (u32::MAX - self.choice_number) as u64
    }

    /// Actions are copied, and a copy of a position is the same position.
    proof fn laws() {
        lemma_choice_clone();
        assert forall|a: Self, b: Self| #[trigger] cloned(a, b) implies {
            &&& a.valid() == b.valid()
            &&& a.active_player() == b.active_player()
            &&& a.horizon() == b.horizon()
            &&& forall|c: Choice| #[trigger] a.legal(c) == b.legal(c)
        } by {
            assert(a@ == b@);
            assert(a.choice_number as int == a@.choice_number);
            assert(b.choice_number as int == b@.choice_number);
            assert(a.turn_state == a@.turn_state);
            assert(b.turn_state == b@.turn_state);
        }
    }

    /// Actions are the same if they are equal.
    fn same_choice(a: &Choice, b: &Choice) -> (same: bool) {
        *a == *b
    }

    /// Every action that the side to act is allowed, each once (see
    /// `list_choices`), with passing first.
    fn get_all_choices(&self) -> (choices: Vec<Choice>)
        ensures
            choices[0] == Choice::Pass,
            self.turn_state.spec_matchable() matches Some((color, _)) ==> exists|
                units: Seq<(Token, Coordinates)>,
            |
                lists_units(self@, color, units) && in_scan_order(units) && choices@
                    == first_occurrences(#[trigger] listing(self@, units)),
            self.turn_state.spec_matchable() is None ==> choices@ == seq![Choice::Pass],
    {
        let listed = self.list_choices();
        proof {
            if self.turn_state.spec_matchable() is None {
                assert(listed@.no_duplicates());
            }
        }
        distinct(listed)
    }

    /// Makes the move `choice` and settles it.
    fn apply_choice(&mut self, choice: &Choice)
        ensures
            final(self)@ == old(self)@.after(*choice),
            final(self).choice_number == old(self).choice_number + 1,
    {
        match self.turn_state.get_matchable() {
            Some((color, _)) => {
                proof {
                    lemma_acted_sound(self@, color, *choice);
                }
                self.act(color, choice);
                self.settle(Game::used_piece(choice));
            },
            None => {
                self.settle(None);
            },
        }
    }

    /// The side to act, or how the game ended: won, drawn, or broken off
    /// when the counter of actions is full.
    fn status(&self) -> (status: Status<Color, Ending>)
        ensures
            status == self.spec_status(),
    {
        match self.turn_state {
            TurnState::WonBy(Some(winner)) => Status::Terminated(Ending::Won(winner)),
            TurnState::WonBy(None) => Status::Terminated(Ending::Drawn),
            TurnState::WhiteFirstAction | TurnState::WhiteSecondAction { .. } => {
                if self.choice_number == u32::MAX {
                    Status::Terminated(Ending::Unfinished)
                } else {
                    Status::AwaitingAction(Color::White)
                }
            },
            TurnState::BlackFirstAction | TurnState::BlackSecondAction { .. } => {
                if self.choice_number == u32::MAX {
                    Status::Terminated(Ending::Unfinished)
                } else {
                    Status::AwaitingAction(Color::Black)
                }
            },
        }
    }

    /// A simulation is broken off after fifty actions.
    fn heuristic_early_terminate(&self) -> (outcome: Option<Ending>)
        ensures
            outcome == if self.choice_number > 50 {
                Some(Ending::Unfinished)
            } else {
                None
            },
    {
        if self.choice_number > 50 {
            Some(Ending::Unfinished)
        } else {
            None
        }
    }
}

impl Game {
    /// The side to act, or how the game ended.
    pub open spec fn spec_status(&self) -> Status<Color, Ending> {
        match self.turn_state {
            TurnState::WonBy(Some(winner)) => Status::Terminated(Ending::Won(winner)),
            TurnState::WonBy(None) => Status::Terminated(Ending::Drawn),
            _ => if self.choice_number == u32::MAX {
                Status::Terminated(Ending::Unfinished)
            } else {
                Status::AwaitingAction(self.turn_state.spec_color()->0)
            },
        }
    }
}

} // verus!
