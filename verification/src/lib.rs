//! A weighted best-first graph-search engine: priority-ordered expansion
//! that finds a minimum-cost path between a start and a goal node, guided
//! by an optional heuristic, with deterministic or randomly perturbed edge
//! costs.
//!
//! Costs are non-negative fixed-point integers: a caller picks a unit (for
//! example milli-units) and every weight, heuristic estimate and path cost
//! is expressed in that unit times [`cost::SCALE`].

pub mod astar;
pub mod cost;
pub mod engine;
pub mod events;
pub mod frontier;
pub mod graph;
pub mod heuristic;
pub mod scheduler;
pub mod topology;

pub use astar::a_star;
pub use engine::SearchError;
pub use engine::SearchOutcome;
pub use engine::search;
pub use graph::Graph;
pub use heuristic::heuristic;
pub use topology::NodeId;
pub use topology::Topology;
