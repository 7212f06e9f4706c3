//! The search itself: how a child is selected, how a simulation is played
//! out and recorded, and the loop that grows the tree.

use crate::game::{Game, Status};
use crate::node::{
    lemma_visits_extend, lemma_visits_update, seen_again, visits, MonteCarloTreeNode,
};
use vstd::prelude::*;

verus! {

/// What selection knows of one child: whether its action can be played in
/// the current sample, whether it has never been visited, and the value
/// that the policy gave it (larger is better).
#[derive(Clone, Copy, Debug)]
pub struct Candidate {
    pub available: bool,
    pub unvisited: bool,
    pub value: u64,
}

/// Whether the candidate at `i` is to be preferred to the one at `j`: by
/// value; at equal value a child never visited goes first; among equals
/// the later position wins.
pub open spec fn outranks(candidates: Seq<Candidate>, i: int, j: int) -> bool {
    let a = candidates[i];
    let b = candidates[j];
    ||| a.value > b.value
    ||| a.value == b.value && a.unvisited && !b.unvisited
    ||| a.value == b.value && a.unvisited == b.unvisited && i >= j
}

/// Whether `i` is the position of an available candidate that is preferred
/// to every available candidate.
pub open spec fn is_best(candidates: Seq<Candidate>, i: int) -> bool {
    &&& 0 <= i < candidates.len()
    &&& candidates[i].available
    &&& forall|j: int|
        0 <= j < candidates.len() && (#[trigger] candidates[j]).available ==> outranks(
            candidates,
            i,
            j,
        )
}

/// The position of the best available candidate, if any is available.
pub fn best_candidate(candidates: &Vec<Candidate>) -> (best: Option<usize>)
    ensures
        best is None <==> forall|j: int|
            0 <= j < candidates.len() ==> !(#[trigger] candidates[j]).available,
        best matches Some(i) ==> is_best(candidates@, i as int),
{
    let mut best: Option<usize> = None;
    let mut i: usize = 0;
    while i < candidates.len()
        invariant
            i <= candidates.len(),
            best is None <==> forall|j: int| 0 <= j < i ==> !(#[trigger] candidates[j]).available,
            best matches Some(b) ==> {
                &&& b < i
                &&& candidates[b as int].available
                &&& forall|j: int|
                    0 <= j < i && (#[trigger] candidates[j]).available ==> outranks(
                        candidates@,
                        b as int,
                        j,
                    )
            },
        decreases candidates.len() - i,
    {
        let candidate = candidates[i];
        if candidate.available {
            let better = match best {
                None => true,
                Some(b) => {
                    let held = candidates[b];
                    candidate.value > held.value || (candidate.value == held.value && (
                    candidate.unvisited || !held.unvisited))
                },
            };
            if better {
                best = Some(i);
            }
        }
        i += 1;
    }
    best
}

/// First-play priority: where some available child has never been visited
/// and its value is no less than that of any available child that has, the
/// best candidate is a child never visited, whatever the values of the
/// others are.
pub proof fn lemma_first_play_priority(candidates: Seq<Candidate>, best: int, fresh: int)
    requires
        is_best(candidates, best),
        0 <= fresh < candidates.len(),
        candidates[fresh].available,
        candidates[fresh].unvisited,
        forall|j: int|
            0 <= j < candidates.len() && (#[trigger] candidates[j]).available
                && !candidates[j].unvisited ==> candidates[j].value <= candidates[fresh].value,
    ensures
        candidates[best].unvisited,
{
    assert(outranks(candidates, best, fresh));
}

/// Root and reward totals of a finished search.
#[derive(Clone, Copy, Debug)]
pub struct MctsStats {
    pub tree_cumulative_reward: u128,
    pub tree_games: u64,
}

/// A search strategy: the values by which children are compared, and hooks
/// into selection, simulation and recording, each with a default.
pub trait MonteCarloTreeSearch: Sized {
    type Game: Game;

    /// Called when an iteration has finished, with the state it ended in.
    fn after_iteration(&mut self, game: &Self::Game, outcome: <Self::Game as Game>::Outcome)
        requires
            game.valid(),
    {
    }

    /// Called when a child has been selected, before its action is played.
    fn after_selection(&mut self, game: &Self::Game, selected: &MonteCarloTreeNode<Self::Game>)
        requires
            game.valid(),
            selected.wf(),
    {
    }

    /// Whether the strategy puts first play first: it gives a child that
    /// has never been visited the greatest value there is, and selects such
    /// a child while one can be played. It does so by default.
    open spec fn first_play_is_urgent() -> bool {
        true
    }

    /// The value of a child that has never been visited: by default the
    /// greatest there is.
    fn get_first_play_value(
        &self,
        game: &Self::Game,
        parent: &MonteCarloTreeNode<Self::Game>,
        child: &MonteCarloTreeNode<Self::Game>,
        choices: &Option<Vec<<Self::Game as Game>::Choice>>,
    ) -> (value: u64)
        requires
            game.valid(),
            parent.wf(),
            parent.has_child_node(child),
            child.games == 0,
        ensures
            Self::first_play_is_urgent() ==> value == u64::MAX,
        default_ensures
            value == u64::MAX,
    {
        u64::MAX
    }

    /// The value of a child that has been visited.
    fn get_selection_value(
        &self,
        game: &Self::Game,
        parent: &MonteCarloTreeNode<Self::Game>,
        child: &MonteCarloTreeNode<Self::Game>,
    ) -> (value: u64)
        requires
            game.valid(),
            parent.wf(),
            parent.has_child_node(child),
            child.games > 0,
    ;

    /// The position of the child to descend into: one whose action is legal
    /// in `game`. By default the best candidate among the children, each
    /// valued by `get_first_play_value` or `get_selection_value`.
    fn select(
        &self,
        node: &MonteCarloTreeNode<Self::Game>,
        game: &Self::Game,
        choices: Option<Vec<<Self::Game as Game>::Choice>>,
    ) -> (position: usize)
        requires
            node.wf(),
            game.valid(),
            exists|i: int|
                0 <= i < node.children.len() && game.legal(
                    (#[trigger] node.children[i]).choice->0,
                ),
        ensures
            position < node.children.len(),
            game.legal(node.children[position as int].choice->0),
            Self::first_play_is_urgent() && (exists|i: int|
                0 <= i < node.children.len() && game.legal(
                    (#[trigger] node.children[i]).choice->0,
                ) && node.children[i].games == 0) ==> node.children[position as int].games == 0,
        default_ensures
            exists|candidates: Seq<Candidate>|
                {
                    &&& candidates.len() == node.children.len()
                    &&& #[trigger] is_best(candidates, position as int)
                    &&& forall|k: int|
                        0 <= k < candidates.len() ==> {
                            &&& (#[trigger] candidates[k]).available == game.legal(
                                node.children[k].choice->0,
                            )
                            &&& candidates[k].unvisited == (node.children[k].games == 0)
                            &&& candidates[k].available && candidates[k].unvisited ==> call_ensures(
                                Self::get_first_play_value,
                                (self, game, node, &node.children[k], &choices),
                                candidates[k].value,
                            )
                            &&& candidates[k].available && !candidates[k].unvisited
                                ==> call_ensures(
                                Self::get_selection_value,
                                (self, game, node, &node.children[k]),
                                candidates[k].value,
                            )
                        }
                },
    {
        let mut candidates: Vec<Candidate> = Vec::new();
        let mut i: usize = 0;
        while i < node.children.len()
            invariant
                i <= node.children.len(),
                candidates.len() == i,
                node.wf(),
                game.valid(),
                forall|k: int|
                    0 <= k < i ==> {
                        &&& (#[trigger] candidates[k]).available == game.legal(
                            node.children[k].choice->0,
                        )
                        &&& candidates[k].unvisited == (node.children[k].games == 0)
                        &&& Self::first_play_is_urgent() && candidates[k].available
                            && candidates[k].unvisited ==> candidates[k].value == u64::MAX
                        &&& candidates[k].available && candidates[k].unvisited ==> call_ensures(
                            Self::get_first_play_value,
                            (self, game, node, &node.children[k], &choices),
                            candidates[k].value,
                        )
                        &&& candidates[k].available && !candidates[k].unvisited ==> call_ensures(
                            Self::get_selection_value,
                            (self, game, node, &node.children[k]),
                            candidates[k].value,
                        )
                    },
            decreases node.children.len() - i,
        {
            let child = &node.children[i];
            let available = match &child.choice {
                Some(choice) => game.choice_is_available(choice),
                None => false,
            };
            let unvisited = child.games == 0;
            let value = if !available {
                0
            } else if unvisited {
                self.get_first_play_value(game, node, child, &choices)
            } else {
                self.get_selection_value(game, node, child)
            };
            candidates.push(Candidate { available, unvisited, value });
            i += 1;
        }
        match best_candidate(&candidates) {
            Some(position) => {
                proof {
                    if Self::first_play_is_urgent() && (exists|i: int|
                        0 <= i < node.children.len() && game.legal(
                            (#[trigger] node.children[i]).choice->0,
                        ) && node.children[i].games == 0) {
                        let fresh = choose|i: int|
                            0 <= i < node.children.len() && game.legal(
                                (#[trigger] node.children[i]).choice->0,
                            ) && node.children[i].games == 0;
                        lemma_first_play_priority(candidates@, position as int, fresh);
                    }
                    assert(is_best(candidates@, position as int));
                }
                position
            },
            None => {
                proof {
                    let k = choose|k: int|
                        0 <= k < node.children.len() && game.legal(
                            (#[trigger] node.children[k]).choice->0,
                        );
                    assert(candidates[k].available);
                }
                vstd::pervasive::unreached()
            },
        }
    }

    /// Plays `game` on from where it stands until it has ended, or until
    /// its heuristic ends it early. A game that has ended is left as it is;
    /// in any other at least one action is played before the heuristic is
    /// asked.
    fn rollout(&mut self, node: &mut MonteCarloTreeNode<Self::Game>, game: &mut Self::Game) -> (outcome:
        <Self::Game as Game>::Outcome)
        requires
            old(node).wf(),
            old(game).valid(),
        ensures
            *final(node) == *old(node),
            final(game).valid(),
            final(game).horizon() <= old(game).horizon(),
            call_ensures(
                <Self::Game as Game>::status,
                (final(game),),
                Status::Terminated(outcome),
            ) || call_ensures(
                <Self::Game as Game>::heuristic_early_terminate,
                (final(game),),
                Some(outcome),
            ),
            old(game).active_player() is None ==> *final(game) == *old(game) && call_ensures(
                <Self::Game as Game>::status,
                (old(game),),
                Status::Terminated(outcome),
            ),
            old(game).active_player() is Some ==> final(game).horizon() < old(game).horizon(),
    {
        loop
            invariant
                *node == *old(node),
                node.wf(),
                game.valid(),
                *game == *old(game) || (old(game).active_player() is Some && game.horizon() < old(
                    game,
                ).horizon()),
            decreases game.horizon(),
        {
            let game_status = game.status();
            match game_status {
                Status::AwaitingAction(_player_id) => {
                    let choice = game.get_rollout_choice();
                    let choice = self.intercept_rollout_choice(node, game, choice);
                    game.apply_choice(&choice);
                },
                Status::Terminated(outcome) => {
                    return outcome;
                },
            }
            if let Some(outcome) = game.heuristic_early_terminate() {
                return outcome;
            }
        }
    }

    /// May replace the action that a simulation is about to play by another
    /// legal one.
    fn intercept_rollout_choice(
        &mut self,
        node: &mut MonteCarloTreeNode<Self::Game>,
        game: &mut Self::Game,
        choice: <Self::Game as Game>::Choice,
    ) -> (played: <Self::Game as Game>::Choice)
        requires
            old(node).wf(),
            old(game).valid(),
            old(game).active_player() is Some,
            old(game).legal(choice),
        ensures
            *final(node) == *old(node),
            *final(game) == *old(game),
            final(game).legal(played),
        default_ensures
            played == choice,
    {
        choice
    }

    /// Counts one visit at `node` and adds what `outcome` pays the player
    /// of that node. A strategy may keep statistics of its own besides; the
    /// statistics of the tree follow this rule.
    fn record_outcome(
        &mut self,
        node: &mut MonteCarloTreeNode<Self::Game>,
        game: &Self::Game,
        outcome: &<Self::Game as Game>::Outcome,
    )
        requires
            old(node).wf(),
            old(node).games < u64::MAX,
            game.valid(),
        ensures
            final(node).wf(),
            final(node).games == old(node).games + 1,
            final(node).cumulative_reward >= old(node).cumulative_reward,
            final(node).player_id == old(node).player_id,
            final(node).choice == old(node).choice,
            final(node).children == old(node).children,
            final(node).choice_availability_count == old(node).choice_availability_count,
            exists|reward: u64|
                #[trigger] call_ensures(
                    <Self::Game as Game>::get_reward_for_outcome,
                    (game, old(node).player_id, outcome),
                    reward,
                ) && final(node).cumulative_reward == old(node).cumulative_reward + reward,
    {
        let reward = game.get_reward_for_outcome(node.player_id, outcome);
        node.record(reward);
    }
}

/// Whether `reward` is what `outcome` pays `player` in `state`, as the
/// state's `get_reward_for_outcome` tells it.
pub open spec fn pays<G: Game>(state: &G, player: G::PlayerId, outcome: &G::Outcome, reward: u64) -> bool {
    call_ensures(<G as Game>::get_reward_for_outcome, (state, player, outcome), reward)
}

/// Whether `outcome` is how a simulation that has come to `state` ends:
/// the state's `status` reports it, or its heuristic breaks the game off
/// with it.
pub open spec fn ends_in<G: Game>(state: &G, outcome: G::Outcome) -> bool {
    call_ensures(<G as Game>::status, (state,), Status::Terminated(outcome)) || call_ensures(
        <G as Game>::heuristic_early_terminate,
        (state,),
        Some(outcome),
    )
}

/// Whether `after` is `before` with one more visit and with what
/// `outcome` pays the player of the node in `state`, and else alike in its
/// own fields.
pub open spec fn recorded<G: Game>(
    before: &MonteCarloTreeNode<G>,
    after: &MonteCarloTreeNode<G>,
    state: &G,
    outcome: G::Outcome,
) -> bool {
    &&& after.games == before.games + 1
    &&& after.player_id == before.player_id
    &&& after.choice == before.choice
    &&& exists|reward: u64|
        #[trigger] pays(state, before.player_id, &outcome, reward) && after.cumulative_reward
            == before.cumulative_reward + reward
}

/// Whether `after` is the tree `before` when one simulation has gone
/// through its root, has ended in `state` with `outcome`, and has been
/// recorded. The root has been recorded. Either the simulation ended at
/// the root, which then has the children and counts it had, or it went on
/// through one child (see `descends`).
pub open spec fn simulated<G: Game>(
    before: &MonteCarloTreeNode<G>,
    after: &MonteCarloTreeNode<G>,
    state: &G,
    outcome: G::Outcome,
) -> bool
    decreases before, 1int,
{
    &&& recorded(before, after, state, outcome)
    &&& {
        ||| after.children == before.children && after.choice_availability_count
            == before.choice_availability_count
        ||| exists|p: int|
            #[trigger] before.visits_child(after, p) && descends(before, after, state, outcome, p)
    }
}

/// Whether the simulation went on from the root of `before` through child
/// `p`. Every other child is as it was, or new and bare. Each count is as
/// it was or one step further. A child that had been visited has itself
/// been gone through by the simulation; a child that had not has been
/// recorded and is still bare.
pub open spec fn descends<G: Game>(
    before: &MonteCarloTreeNode<G>,
    after: &MonteCarloTreeNode<G>,
    state: &G,
    outcome: G::Outcome,
    p: int,
) -> bool
    decreases before, 0int,
{
    &&& before.visits_child(after, p)
    &&& forall|c: G::Choice|
        #![trigger after.availability(c)]
        after.availability(c) == before.availability(c) || after.availability(c) == seen_again(
            before.availability(c),
        )
    &&& if 0 <= p < before.children.len() && before.children[p].games > 0 {
        simulated(&before.children[p], &after.children[p], state, outcome)
    } else {
        &&& after.children[p].is_bare()
        &&& after.children[p].games == 1
        &&& after.children[p].choice is Some
        &&& 0 <= p < before.children.len() ==> after.children[p].player_id
            == before.children[p].player_id && after.children[p].choice
            == before.children[p].choice
        &&& exists|reward: u64|
            #[trigger] pays(state, after.children[p].player_id, &outcome, reward)
                && after.children[p].cumulative_reward == reward
    }
}

/// One simulation through `node`, whose state is `game`.
///
/// If the game has ended there, its outcome is recorded at the node.
/// Otherwise the node is expanded, a child is selected and its action
/// played. A child never visited is played out to the end and the outcome
/// recorded there; any other child is visited in the same way as `node`.
/// At last the outcome is recorded at the node as well, and returned.
///
/// So the node is visited exactly once more, and so is exactly one of its
/// children unless the game had ended. Every node on the way gains what
/// the outcome pays its own player, and everything off the way stays as it
/// was (see `simulated`).
///
/// A root that has children is not expanded again, so one of them must be
/// playable in `game` if a player is to act there.
pub fn iteration<S: MonteCarloTreeSearch>(
    search: &mut S,
    node: &mut MonteCarloTreeNode<S::Game>,
    game: &mut S::Game,
) -> (outcome: <S::Game as Game>::Outcome)
    requires
        old(node).wf(),
        old(node).consistent(),
        old(node).games < usize::MAX,
        old(game).valid(),
        old(node).spec_is_root() && old(node).children.len() > 0 && old(game).active_player() is Some
            ==> exists|i: int|
            0 <= i < old(node).children.len() && old(game).legal(
                (#[trigger] old(node).children[i]).choice->0,
            ),
    ensures
        final(node).wf(),
        final(node).consistent(),
        final(game).valid(),
        final(node).games == old(node).games + 1,
        old(node).grows_to(final(node)),
        visits(final(node).children@) == visits(old(node).children@) + if old(
            game,
        ).active_player() is Some {
            1nat
        } else {
            0nat
        },
        ends_in(final(game), outcome),
        recorded(old(node), final(node), final(game), outcome),
        simulated(old(node), final(node), final(game), outcome),
        old(game).active_player() is None ==> *final(game) == *old(game) && call_ensures(
            <S::Game as Game>::status,
            (old(game),),
            Status::Terminated(outcome),
        ),
        old(game).active_player() is Some ==> final(game).horizon() < old(game).horizon(),
        old(game).active_player() is None ==> final(node).children == old(node).children,
        old(game).active_player() is None ==> final(node).choice_availability_count == old(
            node,
        ).choice_availability_count,
        old(game).active_player() is Some ==> forall|c: <S::Game as Game>::Choice|
            #![trigger final(node).availability(c)]
            final(node).availability(c) == if old(game).legal(c) && !(old(node).spec_is_root()
                && old(node).children.len() > 0) {
                seen_again(old(node).availability(c))
            } else {
                old(node).availability(c)
            },
        old(game).active_player() is Some ==> exists|p: int|
            {
                &&& #[trigger] old(node).visits_child(final(node), p)
                &&& descends(old(node), final(node), final(game), outcome, p)
                &&& old(game).legal(final(node).children[p].choice->0)
                &&& S::first_play_is_urgent() ==> final(node).children[p].games == 1 || forall|
                    i: int,
                |
                    0 <= i < final(node).children.len() && old(game).legal(
                        (#[trigger] final(node).children[i]).choice->0,
                    ) ==> final(node).children[i].games > 0
            },
        !old(node).spec_is_root() ==> final(node).children.len() <= old(node).children.len() + 1,
        old(node).spec_is_root() && old(node).children.len() > 0 ==> final(node).children.len()
            == old(node).children.len(),
        old(game).active_player() is Some && old(node).spec_is_root() ==> forall|
            c: <S::Game as Game>::Choice,
        |
            #![trigger final(node).has_child(c)]
            final(node).has_child(c) <==> if old(node).children.len() == 0 {
                old(game).legal(c)
            } else {
                old(node).has_child(c)
            },
    decreases *old(node),
{
    match game.status() {
        Status::Terminated(outcome) => {
            search.record_outcome(node, game, &outcome);
            proof {
                old(node).lemma_grows_by_statistics(node);
                lemma_consistent_after_record(old(node), node);
                lemma_recorded(old(node), node, game, outcome);
            }
            return outcome;
        },
        Status::AwaitingAction(_) => {},
    }
    let ghost game_at_node = *game;
    let choices_available = node.expand(game);
    let ghost expanded = *node;
    proof {
        lemma_expanded(old(node), &expanded, game, choices_available);
    }
    let position = search.select(node, game, choices_available);
    search.after_selection(game, &node.children[position]);
    let best_child = &mut node.children[position];
    let ghost child_before = *best_child;
    match &best_child.choice {
        Some(choice) => {
            game.apply_choice(choice);
        },
        None => {},
    }
    let outcome = if best_child.games == 0 {
        let outcome = search.rollout(best_child, game);
        search.record_outcome(best_child, game, &outcome);
        proof {
            child_before.lemma_grows_by_statistics(best_child);
            lemma_consistent_after_record(&child_before, best_child);
            lemma_recorded(&child_before, best_child, game, outcome);
        }
        outcome
    } else {
        iteration(search, best_child, game)
    };
    let ghost child_after = *best_child;
    assert(if child_before.games > 0 {
        simulated(&child_before, &child_after, game, outcome)
    } else {
        recorded(&child_before, &child_after, game, outcome) && child_after.children
            == child_before.children && child_after.choice_availability_count
            == child_before.choice_availability_count
    });
    let ghost visited = *node;
    proof {
        lemma_child_visited(old(node), &expanded, &visited, position as int);
    }
    search.record_outcome(node, game, &outcome);
    proof {
        lemma_visited(old(node), &expanded, &visited, node, &game_at_node, position as int);
        assert(old(node).visits_child(node, position as int) && game_at_node.legal(
            node.children[position as int].choice->0,
        ));
        lemma_recorded(&visited, node, game, outcome);
        assert(recorded(old(node), node, game, outcome));
        assert(node.children[position as int] == child_after);
        assert(expanded.children[position as int] == child_before);
        assert(descends(old(node), node, game, outcome, position as int)) by {
            if position < old(node).children.len() {
                assert(old(node).children[position as int] == child_before);
                assert(child_before.consistent());
                assert(child_before.wf());
            }
            let p = position as int;
            assert forall|c: <S::Game as Game>::Choice|
                #![trigger node.availability(c)]
                node.availability(c) == old(node).availability(c) || node.availability(c)
                    == seen_again(old(node).availability(c)) by {
                assert(node.availability(c) == expanded.availability(c));
            }
            if child_before.games == 0 {
                assert(child_before.is_bare());
                assert(child_before.cumulative_reward == 0);
                let reward = choose|reward: u64|
                    #[trigger] pays(game, child_before.player_id, &outcome, reward)
                        && child_after.cumulative_reward == child_before.cumulative_reward
                        + reward;
                assert(pays(game, child_after.player_id, &outcome, reward));
                assert(node.children[p].is_bare());
                assert(node.children[p].games == 1);
                assert(node.children[p].choice is Some);
                assert(!(0 <= p < old(node).children.len() && old(node).children[p].games > 0));
            } else {
                assert(0 <= p < old(node).children.len() && old(node).children[p].games > 0);
                assert(simulated(&old(node).children[p], &node.children[p], game, outcome));
            }
            assert(old(node).visits_child(node, p));
        }
        assert(simulated(old(node), node, game, outcome)) by {
            assert(recorded(old(node), node, game, outcome));
            assert(old(node).visits_child(node, position as int));
            assert(descends(old(node), node, game, outcome, position as int));
        }
        assert(S::first_play_is_urgent() ==> node.children[position as int].games == 1 || forall|
            i: int,
        |
            0 <= i < node.children.len() && game_at_node.legal(
                (#[trigger] node.children[i]).choice->0,
            ) ==> node.children[i].games > 0) by {
            if S::first_play_is_urgent() && child_before.games > 0 {
                assert forall|i: int|
                    0 <= i < node.children.len() && game_at_node.legal(
                        (#[trigger] node.children[i]).choice->0,
                    ) implies node.children[i].games > 0 by {
                    assert(expanded.children[i].choice == node.children[i].choice);
                    if expanded.children[i].games == 0 {
                        assert(game_at_node.legal(expanded.children[i].choice->0));
                    }
                }
            }
        }
        assert forall|c: <S::Game as Game>::Choice|
            #![trigger node.availability(c)]
            node.availability(c) == if game_at_node.legal(c) && !(old(node).spec_is_root()
                && old(node).children.len() > 0) {
                seen_again(old(node).availability(c))
            } else {
                old(node).availability(c)
            } by {
            assert(node.availability(c) == expanded.availability(c));
        }
        if old(node).spec_is_root() {
            assert forall|c: <S::Game as Game>::Choice|
                #![trigger node.has_child(c)]
                node.has_child(c) <==> expanded.has_child(c) by {
                if node.has_child(c) {
                    let i = choose|i: int|
                        0 <= i < node.children.len() && (#[trigger] node.children[i]).choice
                            == Some(c);
                    assert(expanded.children[i].choice == Some(c));
                }
                if expanded.has_child(c) {
                    let i = choose|i: int|
                        0 <= i < expanded.children.len() && (
                        #[trigger] expanded.children[i]).choice == Some(c);
                    assert(node.children[i].choice == Some(c));
                }
            }
        }
    }
    outcome
}

/// One simulation as the root of a search has seen it: the state in which
/// it ended, its outcome, and what the outcome paid the player of the
/// root.
pub struct Play<G: Game> {
    pub state: G,
    pub outcome: G::Outcome,
    pub reward: u64,
}

/// What the simulations have paid, added up.
pub open spec fn paid<G: Game>(plays: Seq<Play<G>>) -> nat
    decreases plays.len(),
{
    if plays.len() == 0 {
        0
    } else {
        paid(plays.drop_last()) + plays.last().reward as nat
    }
}

/// Simulations that each paid no more than `bound` have together paid no
/// more than `bound` for each of them.
pub proof fn lemma_paid_bounded<G: Game>(plays: Seq<Play<G>>, bound: nat)
    requires
        forall|i: int| 0 <= i < plays.len() ==> (#[trigger] plays[i]).reward <= bound,
    ensures
        paid(plays) <= plays.len() * bound,
    decreases plays.len(),
{
    if plays.len() > 0 {
        lemma_paid_bounded(plays.drop_last(), bound);
        assert(plays.len() * bound == (plays.len() - 1) * bound + bound) by (nonlinear_arith);
    }
}

/// Whether `tree` can be what a search of `iterations` simulations from
/// `game` has built, where `plays` are the simulations in their order and
/// `urgent` says that the strategy puts first play first.
///
/// The tree is a root for the player to act, visited once by every
/// simulation, as was one of its children. Once there has been a
/// simulation, its children stand for the legal actions of `game`, one
/// each, and each of these actions has been counted from nought and no
/// further. Every simulation ended in a valid state with its outcome, and
/// the reward of the root is what these outcomes paid its player, added
/// up. Where first play goes first, no child is visited a second time
/// while another has not been visited.
pub open spec fn searched<G: Game>(
    tree: &MonteCarloTreeNode<G>,
    game: &G,
    iterations: int,
    urgent: bool,
    plays: Seq<Play<G>>,
) -> bool {
    &&& plays.len() == iterations
    &&& forall|i: int|
        0 <= i < plays.len() ==> {
            &&& (#[trigger] plays[i]).state.valid()
            &&& ends_in(&plays[i].state, plays[i].outcome)
            &&& pays(&plays[i].state, tree.player_id, &plays[i].outcome, plays[i].reward)
        }
    &&& tree.cumulative_reward == paid(plays)
    &&& urgent && (exists|i: int|
        0 <= i < tree.children.len() && (#[trigger] tree.children[i]).games == 0) ==> forall|
        i: int,
    | 0 <= i < tree.children.len() ==> (#[trigger] tree.children[i]).games <= 1
    &&& tree.wf()
    &&& tree.consistent()
    &&& tree.spec_is_root()
    &&& tree.player_id == game.active_player()->0
    &&& tree.games == iterations
    &&& visits(tree.children@) == iterations
    &&& iterations == 0 ==> tree.children.len() == 0
    &&& iterations > 0 ==> tree.children.len() > 0
    &&& iterations > 0 ==> forall|c: G::Choice|
        #![trigger tree.has_child(c)]
        tree.has_child(c) <==> game.legal(c)
    &&& forall|c: G::Choice|
        #![trigger tree.availability(c)]
        tree.availability(c) == if iterations > 0 && game.legal(c) {
            Some(0usize)
        } else {
            None
        }
}

/// Builds the tree of one search: a fresh root for the player to act in
/// `game`, grown by `iterations` simulations, each through a sample of its
/// own of the state.
pub fn search_tree<S: MonteCarloTreeSearch>(
    search: &mut S,
    game: &S::Game,
    iterations: usize,
) -> (tree: MonteCarloTreeNode<S::Game>)
    requires
        game.valid(),
        game.active_player() is Some,
    ensures
        exists|plays: Seq<Play<S::Game>>| #[trigger]
            searched(&tree, game, iterations as int, S::first_play_is_urgent(), plays),
{
    let player_id = match game.status() {
        Status::AwaitingAction(player_id) => player_id,
        Status::Terminated(_) => vstd::pervasive::unreached(),
    };
    let mut tree: MonteCarloTreeNode<S::Game> = MonteCarloTreeNode::new(player_id, None);
    proof {
        lemma_bare_is_consistent(&tree);
        assert(tree.children@ =~= Seq::empty());
    }
    let ghost mut plays: Seq<Play<S::Game>> = Seq::empty();
    let mut i: usize = 0;
    while i < iterations
        invariant
            i <= iterations,
            plays.len() == i,
            forall|k: int|
                0 <= k < plays.len() ==> {
                    &&& (#[trigger] plays[k]).state.valid()
                    &&& ends_in(&plays[k].state, plays[k].outcome)
                    &&& pays(&plays[k].state, tree.player_id, &plays[k].outcome, plays[k].reward)
                },
            tree.cumulative_reward == paid(plays),
            S::first_play_is_urgent() && (exists|k: int|
                0 <= k < tree.children.len() && (#[trigger] tree.children[k]).games == 0)
                ==> forall|k: int|
                0 <= k < tree.children.len() ==> (#[trigger] tree.children[k]).games <= 1,
            game.valid(),
            game.active_player() is Some,
            tree.wf(),
            tree.consistent(),
            tree.spec_is_root(),
            tree.player_id == game.active_player()->0,
            tree.games == i,
            visits(tree.children@) == i,
            i == 0 ==> tree.children.len() == 0,
            i > 0 ==> forall|c: <S::Game as Game>::Choice|
                #![trigger tree.has_child(c)]
                tree.has_child(c) <==> game.legal(c),
            forall|c: <S::Game as Game>::Choice|
                #![trigger tree.availability(c)]
                tree.availability(c) == if i > 0 && game.legal(c) {
                    Some(0usize)
                } else {
                    None
                },
        decreases iterations - i,
    {
        let mut determinization = game.get_determinization(game.status().get_active_player_id());
        proof {
            assert forall|k: int| 0 <= k < tree.children.len() implies determinization.legal(
                (#[trigger] tree.children[k]).choice->0,
            ) by {
                assert(tree.children[k].choice is Some);
                assert(tree.has_child(tree.children[k].choice->0));
            }
        }
        let ghost before = tree;
        let ghost sample = determinization;
        let outcome = iteration(search, &mut tree, &mut determinization);
        proof {
            assert(recorded(&before, &tree, &determinization, outcome));
            let reward = choose|reward: u64|
                #[trigger] pays(&determinization, before.player_id, &outcome, reward)
                    && tree.cumulative_reward == before.cumulative_reward + reward;
            let play = Play { state: determinization, outcome, reward };
            assert(plays.push(play).drop_last() =~= plays);
            plays = plays.push(play);
            if sample.active_player() is Some {
                let p = choose|p: int|
                    {
                        &&& #[trigger] before.visits_child(&tree, p)
                        &&& descends(&before, &tree, &determinization, outcome, p)
                        &&& sample.legal(tree.children[p].choice->0)
                        &&& S::first_play_is_urgent() ==> tree.children[p].games == 1 || forall|
                            k: int,
                        |
                            0 <= k < tree.children.len() && sample.legal(
                                (#[trigger] tree.children[k]).choice->0,
                            ) ==> tree.children[k].games > 0
                    };
                assert forall|k: int| 0 <= k < tree.children.len() implies sample.legal(
                    (#[trigger] tree.children[k]).choice->0,
                ) by {
                    assert(tree.children[k].choice is Some);
                    assert(tree.has_child(tree.children[k].choice->0));
                    assert(sample.legal(tree.children[k].choice->0) == game.legal(
                        tree.children[k].choice->0,
                    ));
                }
                lemma_first_play_first(&before, &tree, p, S::first_play_is_urgent());
            }
            assert forall|c: <S::Game as Game>::Choice|
                #![trigger tree.availability(c)]
                tree.availability(c) == if game.legal(c) {
                    Some(0usize)
                } else {
                    None
                } by {
                assert(sample.legal(c) == game.legal(c));
                assert(before.availability(c) == if i > 0 && game.legal(c) {
                    Some(0usize)
                } else {
                    None
                });
            }
        }
        search.after_iteration(&determinization, outcome);
        i += 1;
    }
    proof {
        if iterations > 0 && tree.children.len() == 0 {
            assert(tree.children@ =~= Seq::empty());
        }
        assert(searched(&tree, game, iterations as int, S::first_play_is_urgent(), plays));
    }
    tree
}

/// Searches from `game` with `iterations` simulations and returns the
/// action of the child of the root that was visited most, with the totals
/// of the root.
pub fn monte_carlo_tree_search<S: MonteCarloTreeSearch>(
    search: &mut S,
    game: S::Game,
    iterations: usize,
) -> (found: (<S::Game as Game>::Choice, MctsStats))
    requires
        game.valid(),
        game.active_player() is Some,
        iterations >= 1,
    ensures
        game.legal(found.0),
        found.1.tree_games == iterations,
        found.1.tree_cumulative_reward <= iterations * u64::MAX,
        exists|tree: MonteCarloTreeNode<S::Game>, plays: Seq<Play<S::Game>>, position: int|
            {
                &&& #[trigger] searched(
                    &tree,
                    &game,
                    iterations as int,
                    S::first_play_is_urgent(),
                    plays,
                )
                &&& #[trigger] tree.is_most_visited(position)
                &&& tree.children[position].choice == Some(found.0)
                &&& found.1.tree_games == tree.games
                &&& found.1.tree_cumulative_reward == tree.cumulative_reward
            },
{
    let tree = search_tree(search, &game, iterations);
    let stats = MctsStats {
        tree_cumulative_reward: tree.cumulative_reward,
        tree_games: tree.games,
    };
    match tree.most_visited() {
        Some(position) => {
            match &tree.children[position].choice {
                Some(choice) => {
                    let selected = choice.clone();
                    proof {
                        <S::Game as Game>::laws();
                        assert(cloned(*choice, selected));
                        assert(tree.has_child(selected));
                        let plays = choose|plays: Seq<Play<S::Game>>| #[trigger]
                            searched(
                                &tree,
                                &game,
                                iterations as int,
                                S::first_play_is_urgent(),
                                plays,
                            );
                        assert(searched(
                            &tree,
                            &game,
                            iterations as int,
                            S::first_play_is_urgent(),
                            plays,
                        ) && tree.is_most_visited(position as int));
                    }
                    (selected, stats)
                },
                None => vstd::pervasive::unreached(),
            }
        },
        None => vstd::pervasive::unreached(),
    }
}

/// Plays `game` to its end, each action found by a search of `iterations`
/// simulations.
pub fn run<S: MonteCarloTreeSearch>(search: &mut S, game: &mut S::Game, iterations: usize)
    requires
        old(game).valid(),
        iterations >= 1,
    ensures
        final(game).valid(),
        final(game).active_player() is None,
{
    loop
        invariant
            game.valid(),
            iterations >= 1,
        decreases game.horizon(),
    {
        match game.status() {
            Status::AwaitingAction(_) => {
                let state = game.clone();
                proof {
                    <S::Game as Game>::laws();
                    assert(cloned(*game, state));
                }
                let (choice, _) = monte_carlo_tree_search(search, state, iterations);
                game.apply_choice(&choice);
            },
            Status::Terminated(_) => {
                return ;
            },
        }
    }
}

/// What a visit leaves of the invariant when only the statistics of the
/// node change.
proof fn lemma_consistent_after_record<G: Game>(
    before: &MonteCarloTreeNode<G>,
    after: &MonteCarloTreeNode<G>,
)
    requires
        before.consistent(),
        after.games == before.games + 1,
        after.choice == before.choice,
        after.children == before.children,
        after.choice_availability_count == before.choice_availability_count,
    ensures
        after.consistent(),
        visits(after.children@) == visits(before.children@),
{
    assert forall|c: G::Choice| (#[trigger] after.availability(c)) is Some implies after.availability(
        c,
    )->0 < after.games + 1 by {
        assert(after.availability(c) == before.availability(c));
    }
    assert forall|i: int| 0 <= i < after.children.len() implies {
        &&& (#[trigger] after.children[i]).games <= after.games
        &&& after.children[i].consistent()
        &&& !after.spec_is_root() ==> after.children[i].games <= after.availability(
            after.children[i].choice->0,
        )->0 + 1
    } by {
        assert(before.children[i].games <= before.games);
    }
}

/// Whether `expanded` can be `before` after its expansion for the state
/// `game`: the statistics are the same, the children of before are in
/// place, any new child is unvisited, bare, and stands for a legal action,
/// and each count is as it was or one step further. Below the root the
/// count of every legal action is one step further.
pub open spec fn expands_to<G: Game>(
    before: &MonteCarloTreeNode<G>,
    expanded: &MonteCarloTreeNode<G>,
    game: &G,
) -> bool {
    &&& expanded.games == before.games
    &&& expanded.cumulative_reward == before.cumulative_reward
    &&& expanded.player_id == before.player_id
    &&& expanded.choice == before.choice
    &&& expanded.children.len() >= before.children.len()
    &&& forall|i: int|
        0 <= i < before.children.len() ==> #[trigger] expanded.children[i] == before.children[i]
    &&& forall|i: int|
        before.children.len() <= i < expanded.children.len() ==> {
            &&& (#[trigger] expanded.children[i]).games == 0
            &&& expanded.children[i].cumulative_reward == 0
            &&& expanded.children[i].children.len() == 0
            &&& expanded.children[i].choice_availability_count.len() == 0
            &&& expanded.children[i].choice is Some
            &&& game.legal(expanded.children[i].choice->0)
        }
    &&& forall|c: G::Choice|
        #![trigger expanded.availability(c)]
        expanded.availability(c) == before.availability(c) || expanded.availability(c)
            == seen_again(before.availability(c))
    &&& !before.spec_is_root() ==> forall|c: G::Choice|
        #![trigger expanded.availability(c)]
        game.legal(c) ==> expanded.availability(c) == seen_again(before.availability(c))
}

/// What is known of a node once it has been expanded for a state in which
/// a player is to act: a child with a legal action is there, and the
/// children that were there before are all that have been visited.
proof fn lemma_expanded<G: Game>(
    before: &MonteCarloTreeNode<G>,
    expanded: &MonteCarloTreeNode<G>,
    game: &G,
    choices: Option<Vec<G::Choice>>,
)
    requires
        before.wf(),
        expanded.wf(),
        game.active_player() is Some,
        before.spec_is_root() && before.children.len() > 0 ==> exists|i: int|
            0 <= i < before.children.len() && game.legal(
                (#[trigger] before.children[i]).choice->0,
            ),
        before.spec_is_root() && before.children.len() > 0 ==> choices is None && *expanded
            == *before,
        !(before.spec_is_root() && before.children.len() > 0) ==> {
            &&& choices matches Some(list)
            &&& list.len() > 0
            &&& list@.no_duplicates()
            &&& forall|c: G::Choice| list@.contains(c) <==> game.legal(c)
            &&& before.widens_to(expanded, list@, game.active_player()->0)
        },
    ensures
        expands_to(before, expanded, game),
        !before.spec_is_root() ==> expanded.children.len() <= before.children.len() + 1,
        forall|c: G::Choice|
            #![trigger expanded.availability(c)]
            expanded.availability(c) == if game.legal(c) && !(before.spec_is_root()
                && before.children.len() > 0) {
                seen_again(before.availability(c))
            } else {
                before.availability(c)
            },
        exists|i: int|
            0 <= i < expanded.children.len() && game.legal(
                (#[trigger] expanded.children[i]).choice->0,
            ),
        before.spec_is_root() ==> forall|c: G::Choice|
            #![trigger expanded.has_child(c)]
            expanded.has_child(c) <==> if before.children.len() == 0 {
                game.legal(c)
            } else {
                before.has_child(c)
            },
{
    if before.spec_is_root() && before.children.len() > 0 {
        let i = choose|i: int|
            0 <= i < before.children.len() && game.legal(
                (#[trigger] before.children[i]).choice->0,
            );
        assert(game.legal(expanded.children[i].choice->0));
    } else {
        let list = choices->0@;
        let owner = game.active_player()->0;
        if before.spec_is_root() {
            assert(expanded.children[0].is_fresh(owner, Some(list[0])));
            assert(list.contains(list[0]));
            assert forall|i: int| 0 <= i < expanded.children.len() implies {
                &&& (#[trigger] expanded.children[i]).games == 0
                &&& expanded.children[i].children.len() == 0
                &&& expanded.children[i].choice_availability_count.len() == 0
                &&& expanded.children[i].choice is Some
                &&& game.legal(expanded.children[i].choice->0)
            } by {
                assert(expanded.children[i].is_fresh(owner, Some(list[i])));
                assert(list.contains(list[i]));
            }
            assert forall|c: G::Choice|
                #![trigger expanded.has_child(c)]
                expanded.has_child(c) <==> game.legal(c) by {
                if expanded.has_child(c) {
                    let i = choose|i: int|
                        0 <= i < expanded.children.len() && (
                        #[trigger] expanded.children[i]).choice == Some(c);
                    assert(expanded.children[i].is_fresh(owner, Some(list[i])));
                    assert(list.contains(list[i]));
                }
                if game.legal(c) {
                    let i = choose|i: int| 0 <= i < list.len() && list[i] == c;
                    assert(expanded.children[i].is_fresh(owner, Some(list[i])));
                }
            }
        } else {
            before.lemma_first_unexplored(list, list.len() as int);
            if forall|j: int| 0 <= j < list.len() ==> before.has_child(#[trigger] list[j]) {
                assert(before.has_child(list[0]));
                let i = choose|i: int|
                    0 <= i < before.children.len() && (#[trigger] before.children[i]).choice
                        == Some(list[0]);
                assert(expanded.children[i] == before.children[i]);
                assert(list.contains(list[0]));
                assert(game.legal(expanded.children[i].choice->0));
            } else {
                let m = choose|m: int|
                    m < list.len() && #[trigger] before.first_unexplored(list, m);
                let i = before.children.len() as int;
                assert(expanded.children[i].is_fresh(owner, Some(list[m])));
                assert(list.contains(list[m]));
                assert(game.legal(expanded.children[i].choice->0));
            }
        }
    }
}

/// The node as it stands when the selected child has been visited: valid,
/// and ready for its own visit to be recorded.
proof fn lemma_child_visited<G: Game>(
    before: &MonteCarloTreeNode<G>,
    expanded: &MonteCarloTreeNode<G>,
    visited: &MonteCarloTreeNode<G>,
    position: int,
)
    requires
        before.consistent(),
        before.games < usize::MAX,
        expanded.wf(),
        expanded.games == before.games,
        0 <= position < expanded.children.len(),
        visited.games == expanded.games,
        visited.cumulative_reward == expanded.cumulative_reward,
        visited.player_id == expanded.player_id,
        visited.choice == expanded.choice,
        visited.choice_availability_count == expanded.choice_availability_count,
        visited.children@ == expanded.children@.update(position, visited.children[position]),
        visited.children[position].wf(),
        visited.children[position].choice == expanded.children[position].choice,
    ensures
        visited.wf(),
        visited.games < u64::MAX,
{
    assert forall|i: int| 0 <= i < visited.children.len() implies {
        &&& (#[trigger] visited.children[i]).choice is Some
        &&& visited.availability(visited.children[i].choice->0) is Some
        &&& visited.children[i].wf()
    } by {
        assert(expanded.children[i].choice is Some);
        if i != position {
            assert(visited.children[i] == expanded.children[i]);
        }
    }
    assert forall|i: int, j: int| 0 <= i < j < visited.children.len() implies (
    #[trigger] visited.children[i]).choice != (#[trigger] visited.children[j]).choice by {
        assert(visited.children[i].choice == expanded.children[i].choice);
        assert(visited.children[j].choice == expanded.children[j].choice);
    }
}

/// The node as it stands when the visit has been recorded at the selected
/// child and at the node itself.
proof fn lemma_visited<G: Game>(
    before: &MonteCarloTreeNode<G>,
    expanded: &MonteCarloTreeNode<G>,
    visited: &MonteCarloTreeNode<G>,
    after: &MonteCarloTreeNode<G>,
    game: &G,
    position: int,
)
    requires
        before.wf(),
        before.consistent(),
        before.games < usize::MAX,
        expanded.wf(),
        expands_to(before, expanded, game),
        0 <= position < expanded.children.len(),
        game.legal(expanded.children[position].choice->0),
        visited.games == expanded.games,
        visited.cumulative_reward == expanded.cumulative_reward,
        visited.player_id == expanded.player_id,
        visited.choice == expanded.choice,
        visited.choice_availability_count == expanded.choice_availability_count,
        visited.children@ == expanded.children@.update(position, visited.children[position]),
        expanded.children[position].grows_to(&visited.children[position]),
        visited.children[position].games == expanded.children[position].games + 1,
        visited.children[position].consistent(),
        after.games == visited.games + 1,
        after.cumulative_reward >= visited.cumulative_reward,
        after.player_id == visited.player_id,
        after.choice == visited.choice,
        after.children == visited.children,
        after.choice_availability_count == visited.choice_availability_count,
    ensures
        after.consistent(),
        before.grows_to(after),
        visits(after.children@) == visits(before.children@) + 1,
        before.visits_child(after, position),
        after.children[position].choice == expanded.children[position].choice,
{
    let chosen = expanded.children[position];
    assert(expanded.children[position].grows_to(&visited.children[position]));
    assert forall|i: int| 0 <= i < after.children.len() implies (
    #[trigger] after.children[i]).games == if i < before.children.len() {
        before.children[i].games as int
    } else {
        0
    } + if i == position {
        1int
    } else {
        0int
    } by {
        if i != position {
            assert(after.children[i] == expanded.children[i]);
        }
        if i < before.children.len() {
            assert(expanded.children[i] == before.children[i]);
        }
    }
    assert forall|c: G::Choice| (#[trigger] after.availability(c)) is Some implies after.availability(
        c,
    )->0 < after.games + 1 by {
        assert(after.availability(c) == expanded.availability(c));
    }
    assert forall|c: G::Choice| (#[trigger] before.availability(c)) is Some implies after.availability(
        c,
    ) is Some && after.availability(c)->0 >= before.availability(c)->0 by {
        assert(after.availability(c) == expanded.availability(c));
    }
    assert forall|i: int| 0 <= i < after.children.len() implies {
        &&& (#[trigger] after.children[i]).games <= after.games
        &&& after.children[i].consistent()
        &&& !after.spec_is_root() ==> after.children[i].games <= after.availability(
            after.children[i].choice->0,
        )->0 + 1
    } by {
        let action = expanded.children[i].choice->0;
        assert(after.availability(action) == expanded.availability(action));
        assert(expanded.children[i].choice is Some);
        assert(expanded.availability(action) is Some);
        if i < before.children.len() {
            assert(expanded.children[i] == before.children[i]);
            assert(before.children[i].games <= before.games);
            assert(before.availability(action) is Some);
        } else {
            assert(expanded.children[i].games == 0);
        }
        if i != position {
            assert(after.children[i] == expanded.children[i]);
            if i >= before.children.len() {
                lemma_bare_is_consistent(&expanded.children[i]);
            }
        } else {
            assert(after.children[i].choice == chosen.choice);
        }
    }
    assert forall|i: int| 0 <= i < before.children.len() implies (
    #[trigger] before.children[i]).grows_to(&after.children[i]) by {
        assert(expanded.children[i] == before.children[i]);
        if i != position {
            assert(after.children[i] == expanded.children[i]);
            before.children[i].lemma_grows_to_itself();
        }
    }
    lemma_visits_extend(before.children@, expanded.children@);
    lemma_visits_update(expanded.children@, position, visited.children[position]);
}

/// A node without visits, children or counts satisfies the invariant.
proof fn lemma_bare_is_consistent<G: Game>(node: &MonteCarloTreeNode<G>)
    requires
        node.children.len() == 0,
        node.choice_availability_count.len() == 0,
    ensures
        node.consistent(),
{
}

/// A node at which `record_outcome` has recorded `outcome` for `state` is
/// recorded.
proof fn lemma_recorded<G: Game>(
    before: &MonteCarloTreeNode<G>,
    after: &MonteCarloTreeNode<G>,
    state: &G,
    outcome: G::Outcome,
)
    requires
        after.games == before.games + 1,
        after.player_id == before.player_id,
        after.choice == before.choice,
        exists|reward: u64|
            #[trigger] call_ensures(
                <G as Game>::get_reward_for_outcome,
                (state, before.player_id, &outcome),
                reward,
            ) && after.cumulative_reward == before.cumulative_reward + reward,
    ensures
        recorded(before, after, state, outcome),
{
    let reward = choose|reward: u64|
        #[trigger] call_ensures(
            <G as Game>::get_reward_for_outcome,
            (state, before.player_id, &outcome),
            reward,
        ) && after.cumulative_reward == before.cumulative_reward + reward;
    assert(pays(state, before.player_id, &outcome, reward));
}

/// Where first play goes first and a visit to child `p` leaves a child
/// without a visit, no child has been visited twice.
proof fn lemma_first_play_first<G: Game>(
    before: &MonteCarloTreeNode<G>,
    after: &MonteCarloTreeNode<G>,
    p: int,
    urgent: bool,
)
    requires
        before.visits_child(after, p),
        before.children.len() > 0 ==> after.children.len() == before.children.len(),
        urgent ==> after.children[p].games == 1 || forall|k: int|
            0 <= k < after.children.len() ==> (#[trigger] after.children[k]).games > 0,
        urgent && (exists|k: int|
            0 <= k < before.children.len() && (#[trigger] before.children[k]).games == 0)
            ==> forall|k: int|
            0 <= k < before.children.len() ==> (#[trigger] before.children[k]).games <= 1,
    ensures
        urgent && (exists|k: int|
            0 <= k < after.children.len() && (#[trigger] after.children[k]).games == 0)
            ==> forall|k: int|
            0 <= k < after.children.len() ==> (#[trigger] after.children[k]).games <= 1,
{
    if urgent && (exists|k: int|
        0 <= k < after.children.len() && (#[trigger] after.children[k]).games == 0) {
        let i = choose|k: int|
            0 <= k < after.children.len() && (#[trigger] after.children[k]).games == 0;
        assert(after.children[p].games == 1);
        if before.children.len() > 0 {
            assert(after.children[i] == before.children[i]);
            assert(before.children[i].games == 0);
        }
        assert forall|k: int| 0 <= k < after.children.len() implies (
        #[trigger] after.children[k]).games <= 1 by {
            if k != p && k < before.children.len() {
                assert(after.children[k] == before.children[k]);
                assert(before.children[k].games <= 1);
            }
        }
    }
}

} // verus!
