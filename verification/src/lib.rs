//! Simulation core of a quantum cellular automaton: a discrete-time,
//! branching evolution of a superposition of classical grid configurations
//! under a fixed 16x16 local rule, with interference resolution and
//! stochastic measurement.
//!
//! - [`amplitude`]: complex amplitudes, modeled by the bit patterns of
//!   their components.
//! - [`coords`]: cells and the parity-dependent 2x2 block tiling.
//! - [`config`]: configurations, live-cell sets and their fingerprints.
//! - [`rules`]: the 16x16 rule table and its textual sources.
//! - [`universe`]: the superposition store and the combined-state index.
//! - [`step`]: the per-tick expansion of every configuration.
//! - [`interference`]: merging of equal patterns and pruning.
//! - [`measure`]: stochastic collapse.
//! - [`engine`]: the tick loop.
//! - [`laws`]: proved properties of the evolution.

pub mod amplitude;
pub mod config;
pub mod coords;
pub mod engine;
pub mod interference;
pub mod laws;
pub mod measure;
pub mod rules;
pub mod step;
pub mod universe;
