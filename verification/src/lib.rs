//! Steady-state attention-flow computation for a small social network.
//!
//! Each agent splits a unit attention budget between watching other agents
//! directly (`own`) and deferring to what other agents watch (`deferred`).
//! The crate builds, for every content source, the linear fixed-point system
//! that this delegation induces, reduces it by Gauss-Jordan elimination, and
//! assembles the resulting flow matrix together with the attention left
//! unaccounted for and a validity flag.
//!
//! All arithmetic is exact, over rationals with bounded integer components;
//! operations that would leave the machine range are detected and reported.

pub mod engine;
pub mod laws;
pub mod rat;
pub mod solver;
