use vstd::prelude::*;

verus! {

/// The fusion categories a system of anyons can be simulated in.
///
/// `Ising` and `Fibonacci` have fusion rules built in. `Custom` stands for a
/// category without built-in rules: queries that need a fusion table report
/// it as unsupported.
#[derive(PartialEq, Eq, Structural, Clone, Copy, Debug)]
pub enum AnyonModel {
    Ising,
    Fibonacci,
    Custom,
}

impl AnyonModel {
    /// The model a fresh system starts in.
    pub fn new() -> (model: Self)
        ensures
            model == AnyonModel::Ising,
    {
        AnyonModel::Ising
    }
}

} // verus!
