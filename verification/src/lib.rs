//! Monte Carlo tree search over caller-supplied decision processes, with a
//! hexagonal board game to search on.
//!
//! The search is in `game` (the contract that a decision process meets),
//! `node` (the tree), `search` (selection, simulation and the search loop)
//! and `random`. The board game is in `hex`, `board`, `choice`, `rules`,
//! `moves` and `play`, with its model in `position` and `listing` and the
//! proofs about the model in `sound`.

pub mod board;
pub mod choice;
pub mod game;
pub mod hex;
pub mod listing;
pub mod moves;
pub mod node;
pub mod play;
pub mod position;
pub mod random;
pub mod rules;
pub mod search;
pub mod sound;

pub use game::{Game, Outcome, Status};
pub use node::MonteCarloTreeNode;
pub use search::{monte_carlo_tree_search, MctsStats, MonteCarloTreeSearch};
