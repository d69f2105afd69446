//! Fork-topology reconstruction with stake-weighted vote aggregation.
//!
//! The library takes a snapshot of chain states linked by parent indices,
//! resolves the fork tips, aggregates each validator's latest vote, walks the
//! forks back to their roots and assembles a directed-graph description.
pub mod mode;
pub mod chain;
pub mod tips;
pub mod votes;
pub mod walk;
pub mod absent;
pub mod text;
pub mod render;
pub mod all_votes;
pub mod graph;
pub mod reorder;
