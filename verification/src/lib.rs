//! Fusion trees of anyons: the charge and anyon model, the ledger of fusion
//! operations with its planarity rule, the level view of a fusion tree, the
//! fusion-rule algebra of the Ising and Fibonacci categories, basis validation
//! and the extraction of qubit encodings.

pub mod model;
pub mod fusion;
pub mod util;
