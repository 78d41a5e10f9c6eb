//! Topological charges, anyons and the anyon models.

pub mod anyon;
pub mod model;
