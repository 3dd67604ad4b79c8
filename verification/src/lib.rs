//! Cost-guided shortest-path search over implicit graphs.
//!
//! The graph is never materialized: a caller-supplied successor function
//! yields, for each node, its neighbours together with non-negative edge
//! costs.  Four search algorithms share this convention: Dijkstra's
//! algorithm, A*, Fringe search and IDA*.  They also share two pieces of
//! machinery: an inverted-ordering wrapper that turns a max-first priority
//! structure into a min-first one, and parent-chain path reconstruction.
//!
//! Every present result is proved to be a genuine walk of the successor
//! relation from the start node to a goal node whose edge costs sum exactly
//! to the reported total.  For all four algorithms an absent result is
//! proved decisive whenever the caller's functions are pure and walk costs
//! stay representable: no walk from the start reaches a goal.
//! Results are additionally proved minimal -- no walk from the start to a
//! goal costs less -- for Dijkstra's algorithm under those hypotheses alone,
//! for A* when the heuristic is also admissible, consistent and free of
//! estimate overflow, and for IDA* when the heuristic is also admissible.
//! Nodes are `usize` identifiers and costs are `u64`, so edge costs are
//! non-negative by construction.

mod astar;
mod dijkstra;
mod fringe;
mod frontier;
mod graph;
mod holder;
mod idastar;
mod record;

pub use astar::astar;
pub use astar::astar_optimal_hyps;
pub use dijkstra::dijkstra;
pub use fringe::fringe;
pub use frontier::Frontier;
pub use graph::accepts;
pub use graph::admissible_heuristic;
pub use graph::consistent_heuristic;
pub use graph::deterministic_heuristic;
pub use graph::estimates_fit;
pub use graph::estimates_within;
pub use graph::hval;
pub use graph::all_rejected;
pub use graph::deterministic_goal;
pub use graph::deterministic_succ;
pub use graph::edge;
pub use graph::is_path;
pub use graph::lemma_optimal_costs_agree;
pub use graph::lemma_unreachable_absent;
pub use graph::min_cost_post;
pub use graph::paths_bounded;
pub use graph::search_post;
pub use holder::InvCmpHolder;
pub use idastar::idastar;
pub use idastar::idastar_optimal_hyps;
pub use record::lemma_walk_valid;
pub use record::parent_walk;
pub use record::record_inv;
pub use record::reverse_path;
