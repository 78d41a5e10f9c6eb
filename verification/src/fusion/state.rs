use crate::fusion::fusion::FusionPair;
use crate::fusion::legality::{is_legal, legal, valid_log};
use crate::model::anyon::Anyon;
use crate::model::model::AnyonModel;
use vstd::prelude::*;

verus! {

/// What a ledger holds, as plain values.
pub struct StateView {
    pub anyons: Seq<Anyon>,
    pub operations: Seq<(u32, FusionPair)>,
    pub anyon_model: AnyonModel,
}

/// The ledger of a system: its anyons, in the order in which they were
/// added, the log of its fusion operations, each with the time step it
/// happens at, and the model the anyons are taken from.
///
/// Anyons and operations are only ever added. An operation enters the log
/// only if it is legal after the operations already there, so the log always
/// describes a planar forest of fusion trees.
#[derive(Debug, PartialEq, Eq)]
pub struct State {
    anyons: Vec<Anyon>,
    operations: Vec<(u32, FusionPair)>,
    anyon_model: AnyonModel,
}

impl View for State {
    type V = StateView;

    closed spec fn view(&self) -> StateView {
        StateView {
            anyons: self.anyons@,
            operations: self.operations@,
            anyon_model: self.anyon_model,
        }
    }
}

impl Clone for State {
    fn clone(&self) -> (copy: Self)
        ensures
            copy@ == self@,
    {
        proof {
            use_type_invariant(self);
        }
        State {
            anyons: self.anyons(),
            operations: self.operations(),
            anyon_model: self.anyon_model,
        }
    }
}

impl State {
    /// Every operation of the log was legal after those before it.
    #[verifier::type_invariant]
    spec fn well_formed(&self) -> bool {
        valid_log(self.anyons@.len() as int, self.operations@)
    }

    /// A ledger without anyons and operations, in the Ising model.
    pub fn new() -> (state: Self)
        ensures
            state@.anyons.len() == 0,
            state@.operations.len() == 0,
            state@.anyon_model == AnyonModel::Ising,
    {
        State { anyons: Vec::new(), operations: Vec::new(), anyon_model: AnyonModel::Ising }
    }

    /// Adds `anyon` behind the anyons that are there. Its index is its place
    /// in that order.
    pub fn add_anyon(&mut self, anyon: Anyon) -> (added: bool)
        ensures
            added,
            final(self)@ == (StateView { anyons: old(self)@.anyons.push(anyon), ..old(self)@ }),
    {
        proof {
            use_type_invariant(&*self);
        }
        let mut operations: Vec<(u32, FusionPair)> = Vec::new();
        let mut anyons: Vec<Anyon> = Vec::new();
        std::mem::swap(&mut operations, &mut self.operations);
        std::mem::swap(&mut anyons, &mut self.anyons);
        anyons.push(anyon);
        std::mem::swap(&mut anyons, &mut self.anyons);
        std::mem::swap(&mut operations, &mut self.operations);
        true
    }

    /// Whether `operation` at `time` may be added to the log.
    pub fn verify_operation(&self, time: u32, operation: &FusionPair) -> (ok: bool)
        requires
            operation.anyon_1 < operation.anyon_2 < self@.anyons.len(),
        ensures
            ok == legal(self@.anyons.len() as int, self@.operations, time, *operation),
    {
        is_legal(self.anyons.len(), &self.operations, time, operation)
    }

    /// Adds `operation` at `time` to the log if it is legal there, and says
    /// whether it did. A refused operation leaves the ledger as it was.
    pub fn add_operation(&mut self, time: u32, operation: FusionPair) -> (accepted: bool)
        ensures
            accepted == legal(old(self)@.anyons.len() as int, old(self)@.operations, time, operation),
            accepted ==> final(self)@ == (StateView {
                operations: old(self)@.operations.push((time, operation)),
                ..old(self)@
            }),
            !accepted ==> final(self)@ == old(self)@,
    {
        proof {
            use_type_invariant(&*self);
        }
        if !is_legal(self.anyons.len(), &self.operations, time, &operation) {
            return false;
        }
        let mut operations: Vec<(u32, FusionPair)> = Vec::new();
        std::mem::swap(&mut operations, &mut self.operations);
        let ghost before = operations@;
        operations.push((time, operation));
        proof {
            let count = self.anyons@.len() as int;
            assert forall|k: int| 0 <= k < operations@.len() implies legal(
                count,
                operations@.take(k),
                (#[trigger] operations@[k]).0,
                operations@[k].1,
            ) by {
                if k < before.len() {
                    assert(operations@.take(k) == before.take(k));
                    assert(operations@[k] == before[k]);
                } else {
                    assert(operations@.take(k) == before);
                }
            }
        }
        std::mem::swap(&mut operations, &mut self.operations);
        true
    }

    /// Sets the model that the anyons are taken from.
    pub fn set_anyon_model(&mut self, model: AnyonModel)
        ensures
            final(self)@ == (StateView { anyon_model: model, ..old(self)@ }),
    {
        proof {
            use_type_invariant(&*self);
        }
        self.anyon_model = model;
    }

    /// The anyons, in the order in which they were added.
    pub fn anyons(&self) -> (anyons: Vec<Anyon>)
        ensures
            anyons@ == self@.anyons,
    {
        let anyons = self.anyons.clone();
        assert(anyons@ =~= self.anyons@);
        anyons
    }

    /// The log, in the order in which the operations were accepted. Each
    /// operation in it was legal after those before it.
    pub fn operations(&self) -> (operations: Vec<(u32, FusionPair)>)
        ensures
            operations@ == self@.operations,
            valid_log(self@.anyons.len() as int, operations@),
    {
        proof {
            use_type_invariant(self);
        }
        let mut operations: Vec<(u32, FusionPair)> = Vec::new();
        let mut k: usize = 0;
        while k < self.operations.len()
            invariant
                k <= self.operations.len(),
                operations@ == self.operations@.take(k as int),
            decreases self.operations.len() - k,
        {
            operations.push(self.operations[k]);
            assert(self.operations@.take(k as int + 1) == self.operations@.take(k as int).push(
                self.operations@[k as int],
            ));
            k += 1;
        }
        assert(self.operations@.take(k as int) == self.operations@);
        operations
    }

    /// The model that the anyons are taken from.
    pub fn anyon_model(&self) -> (model: AnyonModel)
        ensures
            model == self@.anyon_model,
    {
        self.anyon_model
    }
}

} // verus!
