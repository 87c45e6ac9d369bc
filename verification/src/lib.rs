//! State-based conflict-free replicated data types.
//!
//! Each replica of a value mutates its own copy without coordination and
//! periodically exchanges either full states or compact deltas; the merge
//! operation is a lattice join, so replicas converge under any exchange
//! pattern.  The crate provides a vector clock, grow-only and
//! positive-negative counters, an observe-remove set, an add-wins
//! observed-remove set built on a dot kernel, and an add-wins map over any
//! convergent value type.

pub mod awormap;
pub mod aworset;
pub mod common;
pub mod gcounter;
pub mod orset;
pub mod pncounter;
pub mod vclock;
