//! The core of an engine that proves safety properties of finite-state
//! transition systems by property-directed reachability: the
//! frames of lemmas, the books of the SAT instances that hold them, the
//! blocking queries, the shrinking of predecessors and the generalization of
//! blocked cubes.
//!
//! The engine does no I/O and holds no SAT solver. Whoever drives it hands
//! it two functions: one that takes a [`sat::SatQuery`] to an incremental SAT
//! instance and brings back a [`sat::SatAnswer`], and one that scores
//! literals. Everything stated of the engine holds whatever these two
//! answer.

pub mod activity;
pub mod cube;
pub mod da;
pub mod frames;
pub mod ic3;
pub mod lemma;
pub mod lift;
pub mod lit;
pub mod model;
pub mod sat;
pub mod solver;
pub mod statistic;
