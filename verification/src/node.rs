//! The search tree: one node for each sequence of actions explored so far.

use crate::game::{clone_is_identity, Game, Status};
use crate::random::shuffle;
use vstd::prelude::*;

verus! {

/// The count kept under `key` in a list of counted keys, if there is one.
pub open spec fn lookup<C>(entries: Seq<(C, usize)>, key: C) -> Option<usize> {
    if exists|k: int| 0 <= k < entries.len() && (#[trigger] entries[k]).0 == key {
        let k = choose|k: int| 0 <= k < entries.len() && (#[trigger] entries[k]).0 == key;
        Some(entries[k].1)
    } else {
        None
    }
}

/// Whether no key is counted twice.
pub open spec fn keys_unique<C>(entries: Seq<(C, usize)>) -> bool {
    forall|i: int, j: int|
        0 <= i < j < entries.len() ==> (#[trigger] entries[i]).0 != (#[trigger] entries[j]).0
}

/// In a list without repeated keys, the entry at any position is the one
/// that `lookup` finds for its key.
pub proof fn lemma_lookup_at<C>(entries: Seq<(C, usize)>, k: int)
    requires
        keys_unique(entries),
        0 <= k < entries.len(),
    ensures
        lookup(entries, entries[k].0) == Some(entries[k].1),
{
    let key = entries[k].0;
    let found = choose|j: int| 0 <= j < entries.len() && (#[trigger] entries[j]).0 == key;
    assert(found == k);
}

/// Statistics of the simulations that passed through one sequence of
/// actions, and the nodes reached from it by one more action.
///
/// `children` holds one node for each action explored from here, and
/// `choice_availability_count` one entry for each action ever seen legal
/// here; in either list no action occurs twice.
pub struct MonteCarloTreeNode<G: Game> {
    pub games: u64,
    pub cumulative_reward: u128,
    pub player_id: G::PlayerId,
    pub choice: Option<G::Choice>,
    pub children: Vec<MonteCarloTreeNode<G>>,
    pub choice_availability_count: Vec<(G::Choice, usize)>,
}

impl<G: Game> MonteCarloTreeNode<G> {
    /// Whether the node is the root of its tree: no action led to it.
    pub open spec fn spec_is_root(&self) -> bool {
        self.choice is None
    }

    /// Whether a child stands for `choice`.
    pub open spec fn has_child(&self, choice: G::Choice) -> bool {
        exists|i: int|
            0 <= i < self.children.len() && (#[trigger] self.children[i]).choice == Some(choice)
    }

    /// How often `choice` was seen legal here after the first time, if it
    /// was seen at all.
    pub open spec fn availability(&self, choice: G::Choice) -> Option<usize> {
        lookup(self.choice_availability_count@, choice)
    }

    /// Whether the node has just been made for `choice` by `owner`: no
    /// statistics, no children.
    pub open spec fn is_fresh(&self, owner: G::PlayerId, choice: Option<G::Choice>) -> bool {
        &&& self.games == 0
        &&& self.cumulative_reward == 0
        &&& self.player_id == owner
        &&& self.choice == choice
        &&& self.children.len() == 0
        &&& self.choice_availability_count.len() == 0
    }

    /// The shape every tree has: rewards within what the visits can have
    /// paid, each child standing for an action of its own that has been
    /// counted, no action counted twice, and the same of every child.
    pub open spec fn wf(&self) -> bool
        decreases self,
    {
        &&& self.cumulative_reward <= self.games * u64::MAX
        &&& keys_unique(self.choice_availability_count@)
        &&& forall|i: int|
            0 <= i < self.children.len() ==> {
                &&& (#[trigger] self.children[i]).choice is Some
                &&& self.availability(self.children[i].choice->0) is Some
                &&& self.children[i].wf()
            }
        &&& forall|i: int, j: int|
            0 <= i < j < self.children.len() ==> (#[trigger] self.children[i]).choice != (
            #[trigger] self.children[j]).choice
    }

    /// A node without statistics or children for the state that `choice`
    /// leads to, in which `owner` is to act; the root if no action leads
    /// to it.
    pub fn new(owner: G::PlayerId, choice: Option<G::Choice>) -> (node: Self)
        ensures
            node.is_fresh(owner, choice),
            node.wf(),
    {
        Self {
            games: 0,
            cumulative_reward: 0,
            player_id: owner,
            choice,
            children: Vec::new(),
            choice_availability_count: Vec::new(),
        }
    }

    /// Whether the node is the root of its tree.
    pub fn is_root(&self) -> (root: bool)
        ensures
            root == self.spec_is_root(),
    {
        self.choice.is_none()
    }

    /// The position of the child that stands for `choice`.
    pub fn child_position(&self, choice: &G::Choice) -> (position: Option<usize>)
        ensures
            position is None <==> !self.has_child(*choice),
            position matches Some(i) ==> i < self.children.len() && self.children[i as int].choice
                == Some(*choice),
    {
        let mut i: usize = 0;
        while i < self.children.len()
            invariant
                i <= self.children.len(),
                forall|k: int| 0 <= k < i ==> (#[trigger] self.children[k]).choice != Some(*choice),
            decreases self.children.len() - i,
        {
            match &self.children[i].choice {
                Some(c) => {
                    if G::same_choice(c, choice) {
                        return Some(i);
                    }
                },
                None => {},
            }
            i += 1;
        }
        None
    }

    /// The position of the count kept for `choice`.
    pub fn count_position(&self, choice: &G::Choice) -> (position: Option<usize>)
        requires
            keys_unique(self.choice_availability_count@),
        ensures
            position is None <==> self.availability(*choice) is None,
            position matches Some(k) ==> k < self.choice_availability_count.len()
                && self.choice_availability_count[k as int].0 == *choice && self.availability(
                *choice,
            ) == Some(self.choice_availability_count[k as int].1),
    {
        let mut k: usize = 0;
        while k < self.choice_availability_count.len()
            invariant
                k <= self.choice_availability_count.len(),
                keys_unique(self.choice_availability_count@),
                forall|j: int| 0 <= j < k ==> (#[trigger] self.choice_availability_count[j]).0 != *choice,
            decreases self.choice_availability_count.len() - k,
        {
            if G::same_choice(&self.choice_availability_count[k].0, choice) {
                proof {
                    lemma_lookup_at(self.choice_availability_count@, k as int);
                }
                return Some(k);
            }
            k += 1;
        }
        None
    }

    /// Whether `other` is one of the children.
    pub open spec fn has_child_node(&self, other: &Self) -> bool {
        exists|i: int| 0 <= i < self.children.len() && #[trigger] self.children[i] == *other
    }

    /// The number of samples that bounds how promising a child can still
    /// look: at the root every sample offered every action, so it is the
    /// number of visits to the root; elsewhere it is the count kept for the
    /// child's action.
    pub open spec fn spec_total_game_count(&self, child: &Self) -> int {
        if self.spec_is_root() {
            self.games as int
        } else {
            self.availability(child.choice->0)->0 as int
        }
    }

    /// The number of samples against which the visits of `child` are held
    /// when its promise is estimated.
    pub fn total_game_count(&self, child: &Self) -> (total: u64)
        requires
            self.wf(),
            self.has_child_node(child),
        ensures
            total == self.spec_total_game_count(child),
    {
        if self.is_root() {
            self.games
        } else {
            match &child.choice {
                Some(choice) => {
                    match self.count_position(choice) {
                        Some(k) => self.choice_availability_count[k].1 as u64,
                        None => 0,
                    }
                },
                None => 0,
            }
        }
    }

    /// Counts one more visit, which paid `reward` to the player of this
    /// node.
    pub fn record(&mut self, reward: u64)
        requires
            old(self).wf(),
            old(self).games < u64::MAX,
        ensures
            final(self).wf(),
            final(self).games == old(self).games + 1,
            final(self).cumulative_reward == old(self).cumulative_reward + reward,
            final(self).player_id == old(self).player_id,
            final(self).choice == old(self).choice,
            final(self).children == old(self).children,
            final(self).choice_availability_count == old(self).choice_availability_count,
    {
        self.cumulative_reward = self.cumulative_reward + reward as u128;
        self.games = self.games + 1;
    }

    /// Grows the node by what one sample of its state offers.
    ///
    /// A root that has children stays as it is, and nothing is returned.
    /// Otherwise the legal actions of `game` are put in a random order, the
    /// node takes note of them (see `widens_to`), and they are returned in
    /// that order.
    ///
    /// A new child belongs to the player who is to act in `game`, the state
    /// of this node: the player who chooses its action, made before the
    /// action is played. The rewards recorded at the child are this
    /// player's, which is what selection among the children needs.
    pub fn expand(&mut self, game: &G) -> (choices: Option<Vec<G::Choice>>)
        requires
            old(self).wf(),
            old(self).counts_below(usize::MAX as int),
            game.valid(),
            game.active_player() is Some,
        ensures
            final(self).wf(),
            old(self).spec_is_root() && old(self).children.len() > 0 ==> choices is None
                && *final(self) == *old(self),
            !(old(self).spec_is_root() && old(self).children.len() > 0) ==> {
                &&& choices matches Some(list)
                &&& list.len() > 0
                &&& list@.no_duplicates()
                &&& forall|c: G::Choice| list@.contains(c) <==> game.legal(c)
                &&& old(self).widens_to(final(self), list@, game.active_player()->0)
            },
    {
        if self.is_root() && self.children.len() > 0 {
            return None;
        }
        let mut rng = rand::thread_rng();
        let active_player = match game.status() {
            Status::AwaitingAction(player_id) => player_id,
            Status::Terminated(_) => vstd::pervasive::unreached(),
        };
        let mut choices = game.get_all_choices();
        let ghost enumerated = choices@;
        shuffle(&mut choices, &mut rng);
        proof {
            enumerated.lemma_multiset_has_no_duplicates();
            choices@.lemma_multiset_has_no_duplicates_conv();
            enumerated.to_multiset_ensures();
            choices@.to_multiset_ensures();
            assert forall|c: G::Choice| choices@.contains(c) <==> game.legal(c) by {
                assert(enumerated.contains(c) <==> enumerated.to_multiset().count(c) > 0);
                assert(choices@.contains(c) <==> choices@.to_multiset().count(c) > 0);
            }
            assert(choices@.no_duplicates());
        }
        self.widen(&choices, active_player);
        Some(choices)
    }

    /// Whether `i` is the position of the child with the most visits: of
    /// several such children, the last.
    pub open spec fn is_most_visited(&self, i: int) -> bool {
        &&& 0 <= i < self.children.len()
        &&& forall|j: int|
            0 <= j < self.children.len() ==> (#[trigger] self.children[j]).games
                <= self.children[i].games
        &&& forall|j: int|
            i < j < self.children.len() ==> (#[trigger] self.children[j]).games
                < self.children[i].games
    }

    /// The position of the child with the most visits; of several such
    /// children, the last.
    pub fn most_visited(&self) -> (position: Option<usize>)
        ensures
            position is None <==> self.children.len() == 0,
            position matches Some(i) ==> self.is_most_visited(i as int),
    {
        if self.children.len() == 0 {
            return None;
        }
        let mut best: usize = 0;
        let mut i: usize = 1;
        while i < self.children.len()
            invariant
                0 <= best < i <= self.children.len(),
                forall|j: int|
                    0 <= j < i ==> (#[trigger] self.children[j]).games
                        <= self.children[best as int].games,
                forall|j: int|
                    best < j < i ==> (#[trigger] self.children[j]).games
                        < self.children[best as int].games,
            decreases self.children.len() - i,
        {
            if self.children[i].games >= self.children[best].games {
                best = i;
            }
            i += 1;
        }
        Some(best)
    }

    /// Whether no simulation has gone through `choice` from here: there is
    /// no child for it, or the child has never been visited.
    pub open spec fn untried(&self, choice: G::Choice) -> bool {
        forall|i: int|
            0 <= i < self.children.len() && (#[trigger] self.children[i]).choice == Some(choice)
                ==> self.children[i].games == 0
    }

    /// How many of `choices` are untried here.
    pub open spec fn count_untried(&self, choices: Seq<G::Choice>) -> nat
        decreases choices.len(),
    {
        if choices.len() == 0 {
            0
        } else {
            self.count_untried(choices.drop_last()) + if self.untried(choices.last()) {
                1nat
            } else {
                0nat
            }
        }
    }

    /// How many of the actions on offer are untried, and how many are on
    /// offer: among `choices` if a sample has offered them, else among the
    /// actions that have children.
    pub fn unexplored(&self, choices: &Option<Vec<G::Choice>>) -> (share: (usize, usize))
        requires
            self.wf(),
        ensures
            share.0 <= share.1,
            match choices {
                Some(list) => share.0 == self.count_untried(list@) && share.1 == list.len(),
                None => share.0 == unvisited(self.children@) && share.1 == self.children.len(),
            },
    {
        match choices {
            Some(list) => {
                let mut untried: usize = 0;
                let mut i: usize = 0;
                while i < list.len()
                    invariant
                        i <= list.len(),
                        self.wf(),
                        untried <= i,
                        untried == self.count_untried(list@.take(i as int)),
                    decreases list.len() - i,
                {
                    assert(list@.take(i + 1).drop_last() =~= list@.take(i as int));
                    let fresh = match self.child_position(&list[i]) {
                        Some(position) => self.children[position].games == 0,
                        None => true,
                    };
                    if fresh {
                        untried += 1;
                    }
                    i += 1;
                }
                assert(list@.take(list.len() as int) =~= list@);
                (untried, list.len())
            },
            None => {
                let mut untried: usize = 0;
                let mut i: usize = 0;
                while i < self.children.len()
                    invariant
                        i <= self.children.len(),
                        untried <= i,
                        untried == unvisited(self.children@.take(i as int)),
                    decreases self.children.len() - i,
                {
                    assert(self.children@.take(i + 1).drop_last() =~= self.children@.take(i as int));
                    if self.children[i].games == 0 {
                        untried += 1;
                    }
                    i += 1;
                }
                assert(self.children@.take(self.children.len() as int) =~= self.children@);
                (untried, self.children.len())
            },
        }
    }

    /// Whether every count kept here is less than `limit`.
    pub open spec fn counts_below(&self, limit: int) -> bool {
        forall|c: G::Choice|
            (#[trigger] self.availability(c)) matches Some(n) ==> n < limit
    }

    /// Whether the node has no children and keeps no counts.
    pub open spec fn is_bare(&self) -> bool {
        self.children.len() == 0 && self.choice_availability_count.len() == 0
    }

    /// What holds of a tree between two visits. A node never visited is
    /// bare. No count kept at a node exceeds the visits to the node, and no
    /// child was visited more often than its parent. Below the root, no
    /// child was visited more than once more than the count kept for its
    /// action.
    pub open spec fn consistent(&self) -> bool
        decreases self,
    {
        &&& self.games == 0 ==> self.is_bare()
        &&& self.counts_below(self.games + 1)
        &&& forall|i: int|
            0 <= i < self.children.len() ==> {
                &&& (#[trigger] self.children[i]).games <= self.games
                &&& self.children[i].consistent()
                &&& !self.spec_is_root() ==> self.children[i].games <= self.availability(
                    self.children[i].choice->0,
                )->0 + 1
            }
    }

    /// Whether `after` can be this tree at a later time of the same search:
    /// every node is still there, in place and for the same action and
    /// player, with no fewer visits and no less reward, and no count kept
    /// at a node has gone down or away.
    pub open spec fn grows_to(&self, after: &Self) -> bool
        decreases self,
    {
        &&& after.games >= self.games
        &&& after.cumulative_reward >= self.cumulative_reward
        &&& after.player_id == self.player_id
        &&& after.choice == self.choice
        &&& forall|c: G::Choice|
            (#[trigger] self.availability(c)) matches Some(n) ==> after.availability(c) is Some
                && after.availability(c)->0 >= n
        &&& after.children.len() >= self.children.len()
        &&& forall|i: int|
            0 <= i < self.children.len() ==> (#[trigger] self.children[i]).grows_to(
                &after.children[i],
            )
    }

    /// Whether the children of `after` are the children of this node, with
    /// new ones behind them, after one more visit to child `p`: every other
    /// child of this node is as it was, every other new child is bare and
    /// without visits or reward, and child `p` has one visit more than it
    /// had, a new child counting from nought.
    pub open spec fn visits_child(&self, after: &Self, p: int) -> bool {
        &&& 0 <= p < after.children.len()
        &&& self.children.len() <= after.children.len()
        &&& forall|i: int|
            0 <= i < self.children.len() && i != p ==> #[trigger] after.children[i]
                == self.children[i]
        &&& forall|i: int|
            self.children.len() <= i < after.children.len() && i != p ==> {
                &&& (#[trigger] after.children[i]).cumulative_reward == 0
                &&& after.children[i].is_bare()
                &&& after.children[i].choice is Some
            }
        &&& forall|i: int|
            0 <= i < after.children.len() ==> (#[trigger] after.children[i]).games == if i
                < self.children.len() {
                self.children[i].games as int
            } else {
                0
            } + if i == p {
                1int
            } else {
                0int
            }
    }

    /// A tree can be itself at a later time.
    pub proof fn lemma_grows_to_itself(&self)
        ensures
            self.grows_to(self),
        decreases self,
    {
        assert forall|i: int| 0 <= i < self.children.len() implies (
        #[trigger] self.children[i]).grows_to(&self.children[i]) by {
            self.children[i].lemma_grows_to_itself();
        }
    }

    /// A node that differs from this one in its own statistics alone, and
    /// has no less of them, is this tree at a later time.
    pub proof fn lemma_grows_by_statistics(&self, after: &Self)
        requires
            after.games >= self.games,
            after.cumulative_reward >= self.cumulative_reward,
            after.player_id == self.player_id,
            after.choice == self.choice,
            after.children == self.children,
            after.choice_availability_count == self.choice_availability_count,
        ensures
            self.grows_to(after),
    {
        assert forall|i: int| 0 <= i < self.children.len() implies (
        #[trigger] self.children[i]).grows_to(&after.children[i]) by {
            self.children[i].lemma_grows_to_itself();
        }
    }

    /// Among the first `n` of `choices`, either every action has a child or
    /// one of them is the first that has none.
    pub proof fn lemma_first_unexplored(&self, choices: Seq<G::Choice>, n: int)
        requires
            0 <= n <= choices.len(),
        ensures
            (forall|j: int| 0 <= j < n ==> self.has_child(#[trigger] choices[j])) || exists|m: int|
                m < n && #[trigger] self.first_unexplored(choices, m),
        decreases n,
    {
        if n > 0 {
            self.lemma_first_unexplored(choices, n - 1);
            if forall|j: int| 0 <= j < n - 1 ==> self.has_child(#[trigger] choices[j]) {
                if !self.has_child(choices[n - 1]) {
                    assert(self.first_unexplored(choices, n - 1));
                }
            }
        }
    }

    /// Whether `m` is the first position in `choices` whose action has no
    /// child here.
    pub open spec fn first_unexplored(&self, choices: Seq<G::Choice>, m: int) -> bool {
        &&& 0 <= m < choices.len()
        &&& !self.has_child(choices[m])
        &&& forall|j: int| 0 <= j < m ==> self.has_child(#[trigger] choices[j])
    }

    /// Whether `after` is this node once it has taken note of `choices`,
    /// the actions that one sample of its state offers, on behalf of the
    /// player `owner` who is to act there.
    ///
    /// Every action offered is counted: one that was counted before is
    /// counted once more, a new one starts at nought. The children stay as
    /// they are and in place. A root without children gets a fresh child
    /// for every action, in the order given; any other node gets one for
    /// the first action that has none, if there is such an action.
    pub open spec fn widens_to(
        &self,
        after: &Self,
        choices: Seq<G::Choice>,
        owner: G::PlayerId,
    ) -> bool {
        &&& after.games == self.games
        &&& after.cumulative_reward == self.cumulative_reward
        &&& after.player_id == self.player_id
        &&& after.choice == self.choice
        &&& forall|c: G::Choice|
            #![trigger after.availability(c)]
            after.availability(c) == if choices.contains(c) {
                seen_again(self.availability(c))
            } else {
                self.availability(c)
            }
        &&& after.children.len() >= self.children.len()
        &&& forall|i: int|
            0 <= i < self.children.len() ==> #[trigger] after.children[i] == self.children[i]
        &&& self.spec_is_root() ==> {
            &&& after.children.len() == choices.len()
            &&& forall|i: int|
                0 <= i < choices.len() ==> (#[trigger] after.children[i]).is_fresh(
                    owner,
                    Some(choices[i]),
                )
        }
        &&& !self.spec_is_root() ==> {
            &&& (forall|j: int| 0 <= j < choices.len() ==> self.has_child(#[trigger] choices[j]))
                ==> after.children.len() == self.children.len()
            &&& forall|m: int|
                #![trigger self.first_unexplored(choices, m)]
                self.first_unexplored(choices, m) ==> {
                    &&& after.children.len() == self.children.len() + 1
                    &&& after.children[self.children.len() as int].is_fresh(
                        owner,
                        Some(choices[m]),
                    )
                }
        }
    }

    /// Takes note of the actions that one sample of the state offers, in
    /// the order given, on behalf of the player who is to act there. A root
    /// must not have children yet.
    pub fn widen(&mut self, choices: &Vec<G::Choice>, active_player: G::PlayerId)
        requires
            old(self).wf(),
            choices@.no_duplicates(),
            old(self).spec_is_root() ==> old(self).children.len() == 0,
            old(self).counts_below(usize::MAX as int),
        ensures
            final(self).wf(),
            old(self).widens_to(final(self), choices@, active_player),
    {
        proof {
            G::laws();
        }
        let root = self.is_root();
        let mut added_new_node = false;
        let ghost counts0 = self.choice_availability_count@;
        let ghost children0 = self.children@;
        proof {
            assert forall|k: int| 0 <= k < counts0.len() implies (#[trigger] counts0[k]).1
                < usize::MAX by {
                lemma_lookup_at(counts0, k);
                assert(self.availability(counts0[k].0) == Some(counts0[k].1));
            }
        }
        let ghost first: int = 0;
        let mut i: usize = 0;
        while i < choices.len()
            invariant
                i <= choices.len(),
                choices@.no_duplicates(),
                clone_is_identity::<G::Choice>(),
                root == old(self).spec_is_root(),
                old(self).wf(),
                counts0 == old(self).choice_availability_count@,
                children0 == old(self).children@,
                root ==> children0.len() == 0,
                forall|k: int| 0 <= k < counts0.len() ==> (#[trigger] counts0[k]).1 < usize::MAX,
                self.wf(),
                self.games == old(self).games,
                self.cumulative_reward == old(self).cumulative_reward,
                self.player_id == old(self).player_id,
                self.choice == old(self).choice,
                self.choice_availability_count.len() >= counts0.len(),
                forall|k: int|
                    0 <= k < counts0.len() ==> {
                        &&& (#[trigger] self.choice_availability_count[k]).0 == counts0[k].0
                        &&& self.choice_availability_count[k].1 == counts0[k].1 + if among(
                            choices@,
                            i as int,
                            counts0[k].0,
                        ) {
                            1int
                        } else {
                            0int
                        }
                    },
                forall|k: int|
                    counts0.len() <= k < self.choice_availability_count.len() ==> {
                        &&& (#[trigger] self.choice_availability_count[k]).1 == 0
                        &&& among(choices@, i as int, self.choice_availability_count[k].0)
                    },
                forall|j: int|
                    0 <= j < i ==> self.availability(#[trigger] choices[j]) is Some,
                self.children.len() >= children0.len(),
                forall|p: int|
                    0 <= p < children0.len() ==> #[trigger] self.children[p] == children0[p],
                root ==> self.children.len() == i,
                root ==> forall|p: int|
                    0 <= p < i ==> (#[trigger] self.children[p]).is_fresh(
                        active_player,
                        Some(choices[p]),
                    ),
                !root && !added_new_node ==> self.children.len() == children0.len(),
                !root && !added_new_node ==> forall|j: int|
                    0 <= j < i ==> old(self).has_child(#[trigger] choices[j]),
                !root && added_new_node ==> {
                    &&& self.children.len() == children0.len() + 1
                    &&& 0 <= first < i
                    &&& old(self).first_unexplored(choices@, first)
                    &&& self.children[children0.len() as int].is_fresh(
                        active_player,
                        Some(choices[first]),
                    )
                },
            decreases choices.len() - i,
        {
            let choice = &choices[i];
            let ghost counts_before = self.choice_availability_count@;
            let ghost before = *self;
            let ghost slot: int = 0;
            match self.count_position(choice) {
                Some(k) => {
                    let seen = self.choice_availability_count[k].1;
                    proof {
                        if k >= counts0.len() {
                            let j = choose|j: int| 0 <= j < i && choices@[j] == *choice;
                            assert(false);
                        } else {
                            if among(choices@, i as int, counts0[k as int].0) {
                                let j = choose|j: int| 0 <= j < i && choices@[j] == *choice;
                                assert(false);
                            }
                        }
                    }
                    let copy = choice.clone();
                    assert(cloned(*choice, copy));
                    self.choice_availability_count.set(k, (copy, seen + 1));
                    proof {
                        let counts = self.choice_availability_count@;
                        assert(keys_unique(counts)) by {
                            assert forall|a: int, b: int|
                                0 <= a < b < counts.len() implies (#[trigger] counts[a]).0 != (
                            #[trigger] counts[b]).0 by {
                                assert(counts[a].0 == counts_before[a].0);
                                assert(counts[b].0 == counts_before[b].0);
                            }
                        }
                        lemma_same_keys(counts_before, counts);
                        slot = k as int;
                        assert(counts[slot].0 == *choice);
                    }
                },
                None => {
                    let copy = choice.clone();
                    assert(cloned(*choice, copy));
                    self.choice_availability_count.push((copy, 0));
                    proof {
                        let counts = self.choice_availability_count@;
                        assert(keys_unique(counts)) by {
                            assert forall|a: int, b: int|
                                0 <= a < b < counts.len() implies (#[trigger] counts[a]).0 != (
                            #[trigger] counts[b]).0 by {
                                if b < counts_before.len() {
                                    assert(counts[a] == counts_before[a]);
                                    assert(counts[b] == counts_before[b]);
                                } else {
                                    assert(counts[a] == counts_before[a]);
                                }
                            }
                        }
                        lemma_more_keys(counts_before, counts);
                        slot = counts_before.len() as int;
                        assert(counts[slot].0 == *choice);
                    }
                },
            }
            proof {
                let counts = self.choice_availability_count@;
                lemma_among_step(choices@, i as int);
                assert(0 <= slot < counts.len() && counts[slot].0 == *choice);
                assert(self.availability(*choice) is Some) by {
                    lemma_lookup_at(counts, slot);
                }
                assert forall|p: int| 0 <= p < self.children.len() implies (
                #[trigger] self.availability(self.children[p].choice->0)) is Some by {
                    assert(before.children[p].choice is Some);
                    assert(before.availability(before.children[p].choice->0) is Some);
                }
                assert(self.wf());
            }
            let insert = if root {
                true
            } else if added_new_node {
                false
            } else {
                self.child_position(choice).is_none()
            };
            if insert {
                let copy = choice.clone();
                assert(cloned(*choice, copy));
                let ghost children_before = self.children@;
                let child = MonteCarloTreeNode::new(active_player, Some(copy));
                self.children.push(child);
                proof {
                    assert(forall|p: int|
                        0 <= p < children_before.len() ==> self.children[p]
                            == children_before[p]);
                    if !root {
                        first = i as int;
                        assert(!old(self).has_child(*choice)) by {
                            if old(self).has_child(*choice) {
                                let p = choose|p: int|
                                    0 <= p < children0.len() && (#[trigger] children0[p]).choice
                                        == Some(*choice);
                                assert(children_before[p] == children0[p]);
                            }
                        }
                    }
                    assert forall|a: int, b: int|
                        0 <= a < b < self.children.len() implies (#[trigger] self.children[a]).choice
                        != (#[trigger] self.children[b]).choice by {
                        if b == children_before.len() {
                            if root {
                                assert(self.children[a].is_fresh(active_player, Some(choices[a])));
                            } else {
                                assert(children_before[a].choice != Some(*choice));
                            }
                        }
                    }
                    assert(self.wf());
                }
                added_new_node = true;
            }
            i += 1;
        }
        proof {
            let counts = self.choice_availability_count@;
            assert forall|c: G::Choice|
                #![trigger self.availability(c)]
                self.availability(c) == if choices@.contains(c) {
                    seen_again(old(self).availability(c))
                } else {
                    old(self).availability(c)
                } by {
                lemma_among_all(choices@, c);
                lemma_lookup_cases(counts, c);
                lemma_lookup_cases(counts0, c);
                if self.availability(c) is Some {
                    let k = choose|k: int|
                        0 <= k < counts.len() && (#[trigger] counts[k]).0 == c;
                    lemma_lookup_at(counts, k);
                    if k < counts0.len() {
                        lemma_lookup_at(counts0, k);
                    } else {
                        if old(self).availability(c) is Some {
                            let k0 = choose|k0: int|
                                0 <= k0 < counts0.len() && (#[trigger] counts0[k0]).0 == c;
                            assert(counts[k0].0 == c);
                        }
                    }
                } else {
                    if choices@.contains(c) {
                        let j = choose|j: int| 0 <= j < choices@.len() && choices@[j] == c;
                        assert(self.availability(choices[j]) is Some);
                    }
                    if old(self).availability(c) is Some {
                        let k0 = choose|k0: int|
                            0 <= k0 < counts0.len() && (#[trigger] counts0[k0]).0 == c;
                        assert(counts[k0].0 == c);
                    }
                }
            }
            if !root {
                assert forall|m: int|
                    #![trigger old(self).first_unexplored(choices@, m)]
                    old(self).first_unexplored(choices@, m) implies added_new_node && m
                    == first by {
                    if added_new_node {
                        if m < first {
                            assert(old(self).has_child(choices@[m]));
                        }
                        if first < m {
                            assert(old(self).has_child(choices@[first]));
                        }
                    } else {
                        assert(old(self).has_child(choices@[m]));
                    }
                }
                if added_new_node {
                    assert(!old(self).has_child(choices@[first]));
                }
            }
        }
    }
}

/// How many nodes of a list have never been visited.
pub open spec fn unvisited<G: Game>(nodes: Seq<MonteCarloTreeNode<G>>) -> nat
    decreases nodes.len(),
{
    if nodes.len() == 0 {
        0
    } else {
        unvisited(nodes.drop_last()) + if nodes.last().games == 0 {
            1nat
        } else {
            0nat
        }
    }
}

/// The visits to a list of nodes, added up.
pub open spec fn visits<G: Game>(nodes: Seq<MonteCarloTreeNode<G>>) -> nat
    decreases nodes.len(),
{
    if nodes.len() == 0 {
        0
    } else {
        visits(nodes.drop_last()) + nodes.last().games as nat
    }
}

/// Nodes that were never visited add nothing to the visits of a list.
pub proof fn lemma_visits_extend<G: Game>(
    before: Seq<MonteCarloTreeNode<G>>,
    after: Seq<MonteCarloTreeNode<G>>,
)
    requires
        before.len() <= after.len(),
        forall|i: int| 0 <= i < before.len() ==> #[trigger] after[i] == before[i],
        forall|i: int| before.len() <= i < after.len() ==> (#[trigger] after[i]).games == 0,
    ensures
        visits(after) == visits(before),
    decreases after.len(),
{
    if after.len() == before.len() {
        assert(after =~= before);
    } else {
        lemma_visits_extend(before, after.drop_last());
    }
}

/// Putting another node in the place of one changes the visits of a list
/// by the difference between the two.
pub proof fn lemma_visits_update<G: Game>(
    nodes: Seq<MonteCarloTreeNode<G>>,
    i: int,
    node: MonteCarloTreeNode<G>,
)
    requires
        0 <= i < nodes.len(),
    ensures
        visits(nodes.update(i, node)) == visits(nodes) - nodes[i].games + node.games,
    decreases nodes.len(),
{
    let updated = nodes.update(i, node);
    if i == nodes.len() - 1 {
        assert(updated.drop_last() =~= nodes.drop_last());
    } else {
        lemma_visits_update(nodes.drop_last(), i, node);
        assert(updated.drop_last() =~= nodes.drop_last().update(i, node));
    }
}

/// The actions among `actions` for which `node` has no child.
pub open spec fn unexplored<G: Game>(
    node: &MonteCarloTreeNode<G>,
    actions: Set<G::Choice>,
) -> Set<G::Choice> {
    actions.filter(|c: G::Choice| !node.has_child(c))
}

/// A tree at a later time has a child for every action it had one for.
pub proof fn lemma_children_stay<G: Game>(
    before: &MonteCarloTreeNode<G>,
    after: &MonteCarloTreeNode<G>,
    action: G::Choice,
)
    requires
        before.grows_to(after),
        before.has_child(action),
    ensures
        after.has_child(action),
{
    let i = choose|i: int|
        0 <= i < before.children.len() && (#[trigger] before.children[i]).choice == Some(action);
    assert(before.children[i].grows_to(&after.children[i]));
    assert(after.children[i].choice == Some(action));
}

/// One expansion below the root, for a sample that offers exactly the
/// actions of a finite set, loses no child, and while the set has an
/// action without a child it leaves fewer such actions than it found.
pub proof fn lemma_widening_step<G: Game>(
    before: &MonteCarloTreeNode<G>,
    after: &MonteCarloTreeNode<G>,
    offered: Seq<G::Choice>,
    owner: G::PlayerId,
    actions: Set<G::Choice>,
)
    requires
        actions.finite(),
        !before.spec_is_root(),
        forall|c: G::Choice| offered.contains(c) <==> actions.contains(c),
        before.widens_to(after, offered, owner),
    ensures
        unexplored(after, actions).finite(),
        unexplored(before, actions).finite(),
        unexplored(after, actions).subset_of(unexplored(before, actions)),
        unexplored(before, actions).len() > 0 ==> unexplored(after, actions).len() < unexplored(
            before,
            actions,
        ).len(),
{
    let missing = unexplored(before, actions);
    let left = unexplored(after, actions);
    actions.lemma_len_filter(|c: G::Choice| !before.has_child(c));
    actions.lemma_len_filter(|c: G::Choice| !after.has_child(c));
    assert forall|c: G::Choice| before.has_child(c) implies after.has_child(c) by {
        let i = choose|i: int|
            0 <= i < before.children.len() && (#[trigger] before.children[i]).choice == Some(c);
        assert(after.children[i] == before.children[i]);
    }
    assert(left.subset_of(missing));
    if missing.len() > 0 {
        if forall|j: int| 0 <= j < offered.len() ==> before.has_child(#[trigger] offered[j]) {
            assert forall|c: G::Choice| !missing.contains(c) by {
                if actions.contains(c) {
                    let j = choose|j: int| 0 <= j < offered.len() && offered[j] == c;
                    assert(before.has_child(offered[j]));
                }
            }
            assert(missing =~= Set::empty());
        } else {
            before.lemma_first_unexplored(offered, offered.len() as int);
            let m = choose|m: int|
                m < offered.len() && #[trigger] before.first_unexplored(offered, m);
            let action = offered[m];
            assert(offered.contains(action));
            assert(after.children[before.children.len() as int].is_fresh(owner, Some(action)));
            assert(after.has_child(action));
            assert(missing.contains(action));
            left.lemma_subset_not_in_lt(missing, action);
        }
    }
}

/// Progressive widening comes to an end. Take a node below the root that
/// is expanded time and again, each time for a sample that offers exactly
/// the actions of one finite set, and that between two expansions changes
/// only as a tree does in a search. Once it has been expanded as often as
/// the set has actions, it has a child for every one of them.
///
/// `before[k]` and `after[k]` are the node before and after its expansion
/// number `k`, `offered[k]` the actions in the order in which that sample
/// offered them, and `owners[k]` the player to act in it.
pub proof fn lemma_widening_completes<G: Game>(
    before: Seq<MonteCarloTreeNode<G>>,
    after: Seq<MonteCarloTreeNode<G>>,
    offered: Seq<Seq<G::Choice>>,
    owners: Seq<G::PlayerId>,
    actions: Set<G::Choice>,
)
    requires
        actions.finite(),
        before.len() == after.len(),
        before.len() == offered.len(),
        before.len() == owners.len(),
        before.len() >= actions.len(),
        before.len() > 0,
        forall|k: int| 0 <= k < before.len() ==> !(#[trigger] before[k]).spec_is_root(),
        forall|k: int, c: G::Choice|
            0 <= k < before.len() ==> ((#[trigger] offered[k]).contains(c)
                <==> #[trigger] actions.contains(c)),
        forall|k: int|
            0 <= k < before.len() ==> (#[trigger] before[k]).widens_to(
                &after[k],
                offered[k],
                owners[k],
            ),
        forall|k: int| 0 <= k < before.len() - 1 ==> (#[trigger] after[k]).grows_to(&before[k + 1]),
    ensures
        forall|c: G::Choice| actions.contains(c) ==> after.last().has_child(c),
{
    let last = before.len() - 1;
    lemma_widening_progress(before, after, offered, owners, actions, last);
    let left = unexplored(&after[last], actions);
    left.lemma_len0_is_empty();
    assert forall|c: G::Choice| actions.contains(c) implies after.last().has_child(c) by {
        if !after[last].has_child(c) {
            assert(left.contains(c));
        }
    }
}

/// After expansion number `k`, no action is without a child, or at least
/// `k + 1` of them have one.
proof fn lemma_widening_progress<G: Game>(
    before: Seq<MonteCarloTreeNode<G>>,
    after: Seq<MonteCarloTreeNode<G>>,
    offered: Seq<Seq<G::Choice>>,
    owners: Seq<G::PlayerId>,
    actions: Set<G::Choice>,
    k: int,
)
    requires
        actions.finite(),
        before.len() == after.len(),
        before.len() == offered.len(),
        before.len() == owners.len(),
        0 <= k < before.len(),
        forall|k: int| 0 <= k < before.len() ==> !(#[trigger] before[k]).spec_is_root(),
        forall|k: int, c: G::Choice|
            0 <= k < before.len() ==> ((#[trigger] offered[k]).contains(c)
                <==> #[trigger] actions.contains(c)),
        forall|k: int|
            0 <= k < before.len() ==> (#[trigger] before[k]).widens_to(
                &after[k],
                offered[k],
                owners[k],
            ),
        forall|k: int| 0 <= k < before.len() - 1 ==> (#[trigger] after[k]).grows_to(&before[k + 1]),
    ensures
        unexplored(&after[k], actions).finite(),
        unexplored(&after[k], actions).len() == 0 || unexplored(&after[k], actions).len() + k + 1
            <= actions.len(),
    decreases k,
{
    let missing = unexplored(&before[k], actions);
    assert forall|c: G::Choice| offered[k].contains(c) <==> actions.contains(c) by {}
    lemma_widening_step(&before[k], &after[k], offered[k], owners[k], actions);
    vstd::set_lib::lemma_len_subset(unexplored(&after[k], actions), missing);
    if k == 0 {
        vstd::set_lib::lemma_len_subset(missing, actions);
    } else {
        lemma_widening_progress(before, after, offered, owners, actions, k - 1);
        let earlier = unexplored(&after[k - 1], actions);
        assert(after[k - 1].grows_to(&before[k - 1 + 1]));
        assert forall|c: G::Choice| missing.contains(c) implies earlier.contains(c) by {
            if after[k - 1].has_child(c) {
                lemma_children_stay(&after[k - 1], &before[k], c);
            }
        }
        vstd::set_lib::lemma_len_subset(missing, earlier);
    }
}

/// Whether a node rests between `earlier` and `later`: it has as many
/// children, for the same actions, and keeps the same counts. The part of
/// a visit that follows the expansion leaves a node so.
pub open spec fn rests<G: Game>(
    earlier: &MonteCarloTreeNode<G>,
    later: &MonteCarloTreeNode<G>,
) -> bool {
    &&& later.children.len() == earlier.children.len()
    &&& forall|c: G::Choice| #[trigger] later.has_child(c) <==> earlier.has_child(c)
    &&& forall|c: G::Choice| #[trigger] later.availability(c) == earlier.availability(c)
}

/// The smaller of two numbers.
pub open spec fn least(a: int, b: int) -> int {
    if a <= b {
        a
    } else {
        b
    }
}

/// Widening step by step. Take a node below the root that is bare, is
/// then expanded time and again, each time for a sample that offers
/// exactly the actions of one finite set, and rests between two
/// expansions. After expansion number `k`, counting from nought, it has a
/// child more for every expansion so far until it has one for every
/// action, and it has counted every action `k` times after the first.
pub proof fn lemma_widening_counts<G: Game>(
    before: Seq<MonteCarloTreeNode<G>>,
    after: Seq<MonteCarloTreeNode<G>>,
    offered: Seq<Seq<G::Choice>>,
    owners: Seq<G::PlayerId>,
    actions: Set<G::Choice>,
    k: int,
)
    requires
        actions.finite(),
        before.len() == after.len(),
        before.len() == offered.len(),
        before.len() == owners.len(),
        before.len() <= usize::MAX,
        0 <= k < before.len(),
        before[0].is_bare(),
        forall|j: int| 0 <= j < before.len() ==> !(#[trigger] before[j]).spec_is_root(),
        forall|j: int, c: G::Choice|
            0 <= j < before.len() ==> ((#[trigger] offered[j]).contains(c)
                <==> #[trigger] actions.contains(c)),
        forall|j: int|
            0 <= j < before.len() ==> (#[trigger] before[j]).widens_to(
                &after[j],
                offered[j],
                owners[j],
            ),
        forall|j: int| 0 <= j < before.len() - 1 ==> rests(&(#[trigger] after[j]), &before[j + 1]),
    ensures
        after[k].children.len() == least(k + 1, actions.len() as int),
        unexplored(&after[k], actions).len() == actions.len() - least(k + 1, actions.len() as int),
        forall|c: G::Choice|
            #![trigger after[k].availability(c)]
            after[k].availability(c) == if actions.contains(c) {
                Some(k as usize)
            } else {
                None
            },
    decreases k,
{
    let node = before[k];
    let grown = after[k];
    let missing = unexplored(&node, actions);
    let left = unexplored(&grown, actions);
    let n = actions.len() as int;
    assert forall|c: G::Choice| offered[k].contains(c) <==> actions.contains(c) by {}
    lemma_widening_step(&node, &grown, offered[k], owners[k], actions);
    // What is known of the node before this expansion.
    if k == 0 {
        assert forall|c: G::Choice| !node.has_child(c) by {}
        assert(missing =~= actions);
        assert forall|c: G::Choice| node.availability(c) is None by {}
    } else {
        lemma_widening_counts(before, after, offered, owners, actions, k - 1);
        assert(rests(&after[k - 1], &before[k - 1 + 1]));
        assert(missing =~= unexplored(&after[k - 1], actions)) by {
            assert forall|c: G::Choice| missing.contains(c) <==> unexplored(
                &after[k - 1],
                actions,
            ).contains(c) by {
                assert(node.has_child(c) <==> after[k - 1].has_child(c));
            }
        }
        assert forall|c: G::Choice| node.availability(c) == if actions.contains(c) {
            Some((k - 1) as usize)
        } else {
            None
        } by {
            assert(node.availability(c) == after[k - 1].availability(c));
        }
    }
    assert(node.children.len() == least(k, n));
    assert(missing.len() == n - least(k, n));
    // The counts.
    assert forall|c: G::Choice|
        #![trigger grown.availability(c)]
        grown.availability(c) == if actions.contains(c) {
            Some(k as usize)
        } else {
            None
        } by {
        assert(node.availability(c) == if actions.contains(c) && k > 0 {
            Some((k - 1) as usize)
        } else {
            None
        });
    }
    // The children.
    if forall|j: int| 0 <= j < offered[k].len() ==> node.has_child(#[trigger] offered[k][j]) {
        assert forall|c: G::Choice| !missing.contains(c) by {
            if actions.contains(c) {
                let j = choose|j: int| 0 <= j < offered[k].len() && offered[k][j] == c;
                assert(node.has_child(offered[k][j]));
            }
        }
        assert(missing =~= Set::empty());
        assert(left =~= Set::empty());
    } else {
        node.lemma_first_unexplored(offered[k], offered[k].len() as int);
        let m = choose|m: int|
            m < offered[k].len() && #[trigger] node.first_unexplored(offered[k], m);
        let action = offered[k][m];
        assert(offered[k].contains(action));
        assert(grown.children[node.children.len() as int].is_fresh(owners[k], Some(action)));
        assert(missing.contains(action));
        assert forall|c: G::Choice| left.contains(c) <==> missing.remove(action).contains(c) by {
            if grown.has_child(c) {
                let i = choose|i: int|
                    0 <= i < grown.children.len() && (#[trigger] grown.children[i]).choice
                        == Some(c);
                if i < node.children.len() {
                    assert(grown.children[i] == node.children[i]);
                    assert(node.has_child(c));
                }
            }
            if node.has_child(c) {
                let i = choose|i: int|
                    0 <= i < node.children.len() && (#[trigger] node.children[i]).choice
                        == Some(c);
                assert(grown.children[i] == node.children[i]);
            }
            if c == action {
                assert(grown.has_child(c));
            }
        }
        assert(left =~= missing.remove(action));
    }
}

/// Availability dominance. Between two visits, a child of a node below the
/// root has been visited at most once more than the count that its parent
/// keeps for its action, and that count is there.
pub proof fn lemma_availability_dominance<G: Game>(node: &MonteCarloTreeNode<G>, i: int)
    requires
        node.wf(),
        node.consistent(),
        !node.spec_is_root(),
        0 <= i < node.children.len(),
    ensures
        node.children[i].choice is Some,
        node.availability(node.children[i].choice->0) matches Some(count) && node.children[i].games
            <= count + 1,
{
}

/// The count of an action after it was seen legal once more.
pub open spec fn seen_again(count: Option<usize>) -> Option<usize> {
    match count {
        Some(n) => Some((n + 1) as usize),
        None => Some(0),
    }
}

/// Whether `c` is one of the first `n` items of `items`.
pub open spec fn among<C>(items: Seq<C>, n: int, c: C) -> bool {
    exists|j: int| 0 <= j < n && j < items.len() && #[trigger] items[j] == c
}

/// The first `n + 1` items are the first `n` and item `n`.
proof fn lemma_among_step<C>(items: Seq<C>, n: int)
    requires
        0 <= n < items.len(),
    ensures
        forall|c: C| #[trigger] among(items, n + 1, c) <==> among(items, n, c) || c == items[n],
{
    assert forall|c: C| #[trigger] among(items, n + 1, c) implies among(items, n, c) || c
        == items[n] by {
        let j = choose|j: int| 0 <= j < n + 1 && j < items.len() && #[trigger] items[j] == c;
        if j < n {
            assert(among(items, n, c));
        }
    }
    assert forall|c: C| among(items, n, c) || c == items[n] implies #[trigger] among(
        items,
        n + 1,
        c,
    ) by {
        if among(items, n, c) {
            let j = choose|j: int| 0 <= j < n && j < items.len() && #[trigger] items[j] == c;
            assert(items[j] == c);
        } else {
            assert(items[n] == c);
        }
    }
}

/// To be among all items of a list is to be in the list.
proof fn lemma_among_all<C>(items: Seq<C>, c: C)
    ensures
        among(items, items.len() as int, c) <==> items.contains(c),
{
    if items.contains(c) {
        let j = choose|j: int| 0 <= j < items.len() && items[j] == c;
        assert(items[j] == c);
    }
}

/// A count is found for a key exactly if an entry has the key.
proof fn lemma_lookup_cases<C>(entries: Seq<(C, usize)>, key: C)
    ensures
        lookup(entries, key) is Some <==> exists|k: int|
            0 <= k < entries.len() && (#[trigger] entries[k]).0 == key,
{
}

/// Lists with the same keys in the same places count the same keys.
proof fn lemma_same_keys<C>(before: Seq<(C, usize)>, after: Seq<(C, usize)>)
    requires
        before.len() == after.len(),
        forall|k: int| 0 <= k < before.len() ==> (#[trigger] before[k]).0 == after[k].0,
    ensures
        forall|c: C| lookup(before, c) is Some <==> lookup(after, c) is Some,
{
    assert forall|c: C| lookup(before, c) is Some <==> lookup(after, c) is Some by {
        if lookup(before, c) is Some {
            let k = choose|k: int| 0 <= k < before.len() && (#[trigger] before[k]).0 == c;
            assert(after[k].0 == c);
        }
        if lookup(after, c) is Some {
            let k = choose|k: int| 0 <= k < after.len() && (#[trigger] after[k]).0 == c;
            assert(before[k].0 == c);
        }
    }
}

/// A list that begins with the keys of another counts every key that the
/// other counts.
proof fn lemma_more_keys<C>(before: Seq<(C, usize)>, after: Seq<(C, usize)>)
    requires
        before.len() <= after.len(),
        forall|k: int| 0 <= k < before.len() ==> (#[trigger] before[k]).0 == after[k].0,
    ensures
        forall|c: C| lookup(before, c) is Some ==> lookup(after, c) is Some,
{
    assert forall|c: C| lookup(before, c) is Some implies lookup(after, c) is Some by {
        let k = choose|k: int| 0 <= k < before.len() && (#[trigger] before[k]).0 == c;
        assert(after[k].0 == c);
    }
}

} // verus!
