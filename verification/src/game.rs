//! The contract between the search and the decision process it explores.

use crate::random::pick_one;
use vstd::prelude::*;

verus! {

/// Whether every clone of a `T` equals the value it was cloned from.
pub open spec fn clone_is_identity<T: Clone>() -> bool {
    forall|a: T, b: T| #[trigger] cloned(a, b) ==> a == b
}

/// The reward that stands for a certain win. Rewards are whole numbers; a
/// game that thinks of rewards between nought and one counts them in
/// millionths.
pub const FULL_REWARD: u64 = 1_000_000;

/// How a finished game went, seen through the reward it pays each player.
pub trait Outcome<P: Copy> {
    /// What the outcome pays `player_id`.
    fn reward_for(&self, player_id: P) -> u64;
}

/// Whether a decision process waits for a player or has ended.
pub enum Status<P: Copy, O: Outcome<P>> {
    AwaitingAction(P),
    Terminated(O),
}

impl<P: Copy, O: Outcome<P>> Status<P, O> {
    /// The player to act, if the process waits for one.
    pub open spec fn get_active_player_id_spec(&self) -> Option<P> {
        match *self {
            Status::AwaitingAction(player_id) => Some(player_id),
            Status::Terminated(_) => None,
        }
    }

    /// The player to act, if the process waits for one.
    pub fn get_active_player_id(&self) -> (player: Option<P>)
        ensures
            player == self.get_active_player_id_spec(),
    {
        match self {
            Status::AwaitingAction(player_id) => Some(*player_id),
            Status::Terminated(_) => None,
        }
    }
}

/// A sequential decision process for one or more players.
///
/// The ghost functions describe a state to the search: `valid` is the
/// implementer's invariant, `active_player` is the player to act while
/// there is one, `legal` is the set of actions that may be applied, and
/// `horizon` bounds the number of actions still to come.
pub trait Game: Clone + Sized {
    type Choice: Eq + Clone;

    type PlayerId: Copy + Eq;

    type Outcome: Outcome<Self::PlayerId>;

    /// What the implementer keeps true of every state.
    spec fn valid(&self) -> bool;

    /// The player to act, while the game has not ended.
    spec fn active_player(&self) -> Option<Self::PlayerId>;

    /// Whether `choice` may be played in this state.
    spec fn legal(&self, choice: Self::Choice) -> bool;

    /// A bound on the number of actions still to come.
    spec fn horizon(&self) -> u64;

    /// A clone of an action is equal to the action, and a clone of a state
    /// is the same state to the search.
    proof fn laws()
        ensures
            clone_is_identity::<Self::Choice>(),
            forall|a: Self, b: Self| #[trigger]
                cloned(a, b) ==> {
                    &&& a.valid() == b.valid()
                    &&& a.active_player() == b.active_player()
                    &&& a.horizon() == b.horizon()
                    &&& forall|c: Self::Choice| #[trigger] a.legal(c) == b.legal(c)
                },
    ;

    /// Whether two actions are one and the same.
    fn same_choice(a: &Self::Choice, b: &Self::Choice) -> (same: bool)
        ensures
            same == (*a == *b),
    ;

    /// The legal actions, each once.
    fn get_all_choices(&self) -> (choices: Vec<Self::Choice>)
        requires
            self.valid(),
        ensures
            choices@.no_duplicates(),
            forall|c: Self::Choice| choices@.contains(c) <==> self.legal(c),
            self.active_player() is Some ==> choices.len() > 0,
    ;

    /// Plays a legal action; every action brings the end nearer.
    fn apply_choice(&mut self, choice: &Self::Choice)
        requires
            old(self).valid(),
            old(self).active_player() is Some,
            old(self).legal(*choice),
        ensures
            final(self).valid(),
            final(self).horizon() < old(self).horizon(),
    ;

    /// The player to act, or how the game has ended.
    fn status(&self) -> (status: Status<Self::PlayerId, Self::Outcome>)
        requires
            self.valid(),
        ensures
            status.get_active_player_id_spec() == self.active_player(),
    ;

    /// Whether an action met in another sample of this state can be played
    /// in this one.
    fn choice_is_available(&self, choice: &Self::Choice) -> (available: bool)
        requires
            self.valid(),
        ensures
            available == self.legal(*choice),
    {
        let choices = self.get_all_choices();
        let mut i: usize = 0;
        while i < choices.len()
            invariant
                i <= choices.len(),
                forall|c: Self::Choice| choices@.contains(c) <==> self.legal(c),
                forall|k: int| 0 <= k < i ==> choices[k] != *choice,
            decreases choices.len() - i,
        {
            if Self::same_choice(&choices[i], choice) {
                assert(choices@.contains(*choice));
                return true;
            }
            i += 1;
        }
        assert(!choices@.contains(*choice));
        false
    }

    /// A fully observable sample of this state, in which the same player
    /// has the same actions: by default a clone of the state.
    fn get_determinization(&self, from_perspective: Option<Self::PlayerId>) -> (sample: Self)
        requires
            self.valid(),
        ensures
            sample.valid(),
            sample.active_player() == self.active_player(),
            forall|c: Self::Choice| sample.legal(c) == self.legal(c),
        default_ensures
            cloned(*self, sample),
    {
        let sample = self.clone();
        proof {
            Self::laws();
            assert(cloned(*self, sample));
        }
        sample
    }

    /// The action to play next in a simulation: by default any legal one.
    fn get_rollout_choice(&self) -> (choice: Self::Choice)
        requires
            self.valid(),
            self.active_player() is Some,
        ensures
            self.legal(choice),
    {
        let mut rng = rand::thread_rng();
        let choices = self.get_all_choices();
        match pick_one(&choices, &mut rng) {
            Some(chosen) => {
                let choice = chosen.clone();
                proof {
                    Self::laws();
                    assert(cloned(*chosen, choice));
                    assert(choices@.contains(*chosen));
                }
                choice
            },
            None => vstd::pervasive::unreached(),
        }
    }

    /// An outcome at which a simulation may stop before the game has ended.
    fn heuristic_early_terminate(&self) -> (outcome: Option<Self::Outcome>)
        requires
            self.valid(),
        default_ensures
            outcome is None,
    {
        None
    }

    /// What `outcome` pays `player_id`: by default what the outcome itself
    /// says.
    fn get_reward_for_outcome(&self, player_id: Self::PlayerId, outcome: &Self::Outcome) -> (reward:
        u64)
        requires
            self.valid(),
        default_ensures
            call_ensures(
                <Self::Outcome as Outcome<Self::PlayerId>>::reward_for,
                (outcome, player_id),
                reward,
            ),
    {
        outcome.reward_for(player_id)
    }
}

} // verus!
