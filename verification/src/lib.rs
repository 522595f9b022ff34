//! A personalized trust-ranking engine over a signed, weighted, directed
//! graph.
//!
//! Given a set of nodes and directed weighted trust relations between them,
//! the engine answers: from the perspective of one node (the *ego*), how much
//! should it trust every other reachable node?  Scores are approximated by
//! Monte-Carlo random walks that follow positive-weight edges with
//! probability proportional to their weight.  Sampled walks are cached per
//! ego with a reverse index from node to the walks that visit it, so that a
//! graph mutation invalidates exactly the walks that traversed the mutated
//! edge and nothing else.

mod aggregate;
mod errors;
mod graph;
mod node;
mod random;
mod rank;
mod storage;
mod walk;

pub use aggregate::lemma_ranks_deterministic;
pub use aggregate::Score;
pub use errors::MeritRankError;
pub use graph::MyGraph;
pub use node::NodeId;
pub use node::Weight;
pub use random::pick_index;
pub use random::weighted_choice;
pub use rank::lemma_no_viable_edge_no_walks;
pub use rank::lemma_update_is_local;
pub use rank::MeritRank;
pub use storage::StoredWalk;
pub use storage::WalkStorage;
pub use walk::sample_walk;
pub use walk::RandomWalk;
pub use walk::WalkEnd;
