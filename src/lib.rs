//! Dependency-aware task planning and caching: task definitions, the
//! dependency graph builder, the level planner, shell invocation assembly,
//! the decisions of the level-synchronous dispatcher, cache keys, and the
//! cache's metadata records and eviction choices.

pub mod error;
pub mod task;
pub mod graph;
pub mod levels;
pub mod executor;
pub mod order;
pub mod runner;
pub mod dispatch;
pub mod fingerprint;
pub mod cache;
