//! Deterministic, stake-weighted Mysticeti-style research digital twin.
//!
//! This crate is an educational engineering reference, not production Sui consensus.
//! Its committee arithmetic, DAG validation, direct-decision rule, audit, invariant
//! report and seeded simulator carry machine-checked contracts.

pub mod dag;
pub mod draws;
pub mod decision;
pub mod equality;
pub mod identity;
pub mod lexical;
pub mod model;
pub mod parsing;
pub mod render;
pub mod runs;
pub mod safety;
pub mod simulator;
pub mod trace;
pub mod sorting;
pub mod wave;

pub use simulator::{SimulationConfig, SimulationError, simulate};
pub use trace::{Trace, verify_trace};
