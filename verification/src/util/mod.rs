//! Checks on fusion trees that were built elsewhere.

pub mod basis;
