//! Fusion operations: the pair of anyons that fuse, the rules that make an
//! operation legal, the ledger that records the operations, and what follows
//! from a finished ledger.

pub mod algebra;
pub mod bounds;
pub mod counting;
pub mod encoding;
pub mod fusion;
pub mod legality;
pub mod render;
pub mod state;
pub mod tree;
