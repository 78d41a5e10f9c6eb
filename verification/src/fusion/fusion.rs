use crate::fusion::algebra::{
    charge_table, checked_fold_fibonacci, checked_fold_ising, checked_fuse_fibonacci,
    checked_fuse_ising, counts, fibonacci_fusion, fibonacci_rules, fits, fold_fits, fold_fusion,
    fuse_fibonacci, fuse_ising, is_single, ising_fusion, ising_rules, lemma_fibonacci_fold_fits,
    lemma_ising_fold_fits, one_hot, reaches,
};
use crate::fusion::bounds::lemma_tree_of_valid_log_fits;
use crate::fusion::encoding::{
    checked_ising_encoding, evaluation_fits, is_ising_encoding, lemma_encoding_unique,
};
use crate::fusion::legality::{is_basis, valid_log};
use crate::fusion::render::{names_of, render, tree_text};
use crate::fusion::state::{State, StateView};
use crate::fusion::tree::{
    assemble_levels, flatten, is_level_view, lemma_levels_of_valid_log, lemma_order_in_range,
    level_views, levels_in_range, pairs_in_order, stamped,
};
use crate::model::anyon::{Anyon, FibonacciTopoCharge, IsingTopoCharge, TopoCharge};
use crate::model::model::AnyonModel;
use crate::util::basis::Basis;
use vstd::prelude::*;

verus! {

/// Two anyons that fuse, by their indices in the sequence of anyons.
///
/// The fused anyon carries the lower index: after the fusion `(1, 2)` it is
/// anyon 1, and the slot of anyon 2 is vacant for good. A pair that can fuse
/// has `anyon_1 < anyon_2`; the ledger and the basis validator turn away a
/// pair that is not so ordered.
#[derive(Copy, Clone, Debug, PartialEq, Eq, Structural, Hash, PartialOrd, Ord)]
pub struct FusionPair {
    pub anyon_1: usize,
    pub anyon_2: usize,
}

impl FusionPair {
    /// The pair of the anyons at `anyon_1` and `anyon_2`.
    pub fn new(anyon_1: usize, anyon_2: usize) -> (pair: Self)
        ensures
            pair == (FusionPair { anyon_1, anyon_2 }),
    {
        FusionPair { anyon_1, anyon_2 }
    }

    /// The index of the first anyon, which the fused anyon keeps.
    pub fn anyon_1(&self) -> (index: usize)
        ensures
            index == self.anyon_1,
    {
        self.anyon_1
    }

    /// The index of the second anyon, which the fusion consumes.
    pub fn anyon_2(&self) -> (index: usize)
        ensures
            index == self.anyon_2,
    {
        self.anyon_2
    }

    /// The order in which pairs are listed: by the first index, then by the
    /// second.
    pub open spec fn precedes(self, other: FusionPair) -> bool {
        self.anyon_1 < other.anyon_1 || (self.anyon_1 == other.anyon_1 && self.anyon_2
            < other.anyon_2)
    }
}

/// Why a query on a fusion tree has no answer.
#[derive(Copy, Clone, Debug, PartialEq, Eq, Structural, Hash)]
pub enum FusionError {
    /// The model of the system has no fusion rules for what was asked.
    UnsupportedModel,
}

impl FusionError {
    /// What is told of the error.
    pub open spec fn text(self) -> Seq<char> {
        "This model is not supported yet"@
    }

    /// What to tell a caller.
    pub fn message(&self) -> (message: &'static str)
        ensures
            message@ == self.text(),
    {
        "This model is not supported yet"
    }
}

/// What a fusion tree holds, as plain values.
pub struct FusionView {
    pub state: StateView,
    pub levels: Seq<(u32, Seq<FusionPair>)>,
}

/// The fusion tree of a finished ledger: the ledger, and its operations
/// grouped into levels, one for each time step, in the order of the times.
/// Nothing changes it once it is made.
pub struct Fusion {
    state: State,
    ops: Vec<(u32, Vec<FusionPair>)>,
}

impl View for Fusion {
    type V = FusionView;

    closed spec fn view(&self) -> FusionView {
        FusionView { state: self.state@, levels: level_views(self.ops@) }
    }
}

/// The vector of each anyon's own charge, for anyons of the Ising category.
pub open spec fn ising_seeds(anyons: Seq<Anyon>) -> Seq<Seq<int>> {
    Seq::new(anyons.len(), |i: int| one_hot(3, anyons[i]@.charge->Ising_0.index()))
}

/// The vector of each anyon's own charge, for anyons of the Fibonacci
/// category.
pub open spec fn fibonacci_seeds(anyons: Seq<Anyon>) -> Seq<Seq<int>> {
    Seq::new(anyons.len(), |i: int| one_hot(2, anyons[i]@.charge->Fibonacci_0.index()))
}

/// All the anyons have a charge of the Ising category.
pub open spec fn all_ising(anyons: Seq<Anyon>) -> bool {
    forall|i: int| 0 <= i < anyons.len() ==> (#[trigger] anyons[i])@.charge is Ising
}

/// All the anyons have a charge of the Fibonacci category.
pub open spec fn all_fibonacci(anyons: Seq<Anyon>) -> bool {
    forall|i: int| 0 <= i < anyons.len() ==> (#[trigger] anyons[i])@.charge is Fibonacci
}

/// The charge `charge` is among the outcomes of fusing all the anyons of the
/// ledger `state`, by the rules of its model. A model without fusion rules
/// reaches nothing.
pub open spec fn reachable(state: StateView, charge: TopoCharge) -> bool {
    match state.anyon_model {
        AnyonModel::Ising => reaches(
            fold_fusion(ising_rules(), ising_seeds(state.anyons)),
            one_hot(3, charge->Ising_0.index()),
        ),
        AnyonModel::Fibonacci => reaches(
            fold_fusion(fibonacci_rules(), fibonacci_seeds(state.anyons)),
            one_hot(2, charge->Fibonacci_0.index()),
        ),
        AnyonModel::Custom => false,
    }
}

/// A tree gives the same answers whenever it is asked: two answers to
/// whether a charge is reached are the same, and so are two qubit encodings.
pub proof fn lemma_same_tree_same_answers(
    tree: FusionView,
    charge: TopoCharge,
    first_reached: bool,
    second_reached: bool,
    first_encoding: Seq<FusionPair>,
    second_encoding: Seq<FusionPair>,
)
    requires
        first_reached == reachable(tree.state, charge),
        second_reached == reachable(tree.state, charge),
        is_ising_encoding(
            ising_seeds(tree.state.anyons),
            pairs_in_order(tree.levels),
            first_encoding,
        ),
        is_ising_encoding(
            ising_seeds(tree.state.anyons),
            pairs_in_order(tree.levels),
            second_encoding,
        ),
    ensures
        first_reached == second_reached,
        first_encoding == second_encoding,
{
    lemma_encoding_unique(
        ising_seeds(tree.state.anyons),
        pairs_in_order(tree.levels),
        first_encoding,
        second_encoding,
    );
}

/// Up to 64 anyons of the Ising category fuse to their total without a
/// count that is more than a `u64` can hold.
pub proof fn lemma_ising_total_fits(anyons: Seq<Anyon>)
    requires
        anyons.len() <= 64,
    ensures
        fold_fits(ising_rules(), ising_seeds(anyons)),
{
    let seeds = ising_seeds(anyons);
    assert forall|i: int| 0 <= i < seeds.len() implies is_single(
        #[trigger] seeds[i],
        3,
    ) by {
        let c = anyons[i]@.charge->Ising_0.index();
        assert(seeds[i] == one_hot(3, c));
    }
    lemma_ising_fold_fits(seeds);
}

/// Up to 64 anyons of the Fibonacci category fuse to their total without a
/// count that is more than a `u64` can hold.
pub proof fn lemma_fibonacci_total_fits(anyons: Seq<Anyon>)
    requires
        anyons.len() <= 64,
    ensures
        fold_fits(fibonacci_rules(), fibonacci_seeds(anyons)),
{
    let seeds = fibonacci_seeds(anyons);
    assert forall|i: int| 0 <= i < seeds.len() implies is_single(
        #[trigger] seeds[i],
        2,
    ) by {
        let c = anyons[i]@.charge->Fibonacci_0.index();
        assert(seeds[i] == one_hot(2, c));
    }
    lemma_fibonacci_fold_fits(seeds);
}

/// The tree of a valid log of at most 63 operations, on anyons of the Ising
/// category, has no outcome with a count that is more than a `u64` can
/// hold.
pub proof fn lemma_ising_tree_fits(
    anyons: Seq<Anyon>,
    log: Seq<(u32, FusionPair)>,
    levels: Seq<(u32, Seq<FusionPair>)>,
)
    requires
        valid_log(anyons.len() as int, log),
        is_level_view(log, levels),
        log.len() <= 63,
    ensures
        evaluation_fits(ising_seeds(anyons), pairs_in_order(levels)),
{
    let seeds = ising_seeds(anyons);
    assert forall|i: int| 0 <= i < seeds.len() implies is_single(
        #[trigger] seeds[i],
        3,
    ) by {
        let c = anyons[i]@.charge->Ising_0.index();
        assert(seeds[i] == one_hot(3, c));
    }
    lemma_tree_of_valid_log_fits(seeds, log, levels);
}

/// The vector of an Ising charge: a one at its index.
fn ising_vector(charge: IsingTopoCharge) -> (vector: Vec<u64>)
    ensures
        vector.len() == 3,
        counts(vector@) == one_hot(3, charge.index()),
{
    let vector: Vec<u64> = match charge {
        IsingTopoCharge::Psi => vec![1, 0, 0],
        IsingTopoCharge::Vacuum => vec![0, 1, 0],
        IsingTopoCharge::Sigma => vec![0, 0, 1],
    };
    assert(counts(vector@) =~= one_hot(3, charge.index()));
    vector
}

/// The vector of a Fibonacci charge: a one at its index.
fn fibonacci_vector(charge: FibonacciTopoCharge) -> (vector: Vec<u64>)
    ensures
        vector.len() == 2,
        counts(vector@) == one_hot(2, charge.index()),
{
    let vector: Vec<u64> = match charge {
        FibonacciTopoCharge::Tau => vec![1, 0],
        FibonacciTopoCharge::Vacuum => vec![0, 1],
    };
    assert(counts(vector@) =~= one_hot(2, charge.index()));
    vector
}

impl Fusion {
    /// The levels are the level view of the log of the ledger, and their
    /// pairs are pairs of anyons of the ledger.
    #[verifier::type_invariant]
    spec fn well_formed(&self) -> bool {
        &&& is_level_view(self.state@.operations, level_views(self.ops@))
        &&& levels_in_range(self.state@.anyons.len() as int, level_views(self.ops@))
    }

    /// The tree of the ledger `state`.
    pub fn new(state: State) -> (fusion: Self)
        ensures
            fusion@.state == state@,
            valid_log(state@.anyons.len() as int, state@.operations),
            is_level_view(state@.operations, fusion@.levels),
            levels_in_range(state@.anyons.len() as int, fusion@.levels),
    {
        let operations = state.operations();
        let ops = assemble_levels(&operations);
        proof {
            lemma_levels_of_valid_log(
                state@.anyons.len() as int,
                state@.operations,
                level_views(ops@),
            );
        }
        Fusion { state, ops }
    }

    /// The ledger that the tree was made from. The levels of the tree are
    /// the level view of its log.
    pub fn state(&self) -> (state: &State)
        ensures
            state@ == self@.state,
            is_level_view(self@.state.operations, self@.levels),
            levels_in_range(self@.state.anyons.len() as int, self@.levels),
    {
        proof {
            use_type_invariant(self);
        }
        &self.state
    }

    /// The picture of the tree as text.
    pub fn to_string(&self) -> (text: String)
        ensures
            text@ == tree_text(names_of(self@.state.anyons), self@.levels),
    {
        proof {
            use_type_invariant(self);
        }
        let anyons = self.state.anyons();
        render(&anyons, &self.ops)
    }

    /// Whether `basis` is a basis of the system of this tree.
    pub fn verify_basis(&self, basis: &Basis) -> (valid: bool)
        ensures
            valid == is_basis(self@.state.anyons.len() as int, basis@),
    {
        let anyons = self.state.anyons();
        basis.verify_basis(anyons.len())
    }

    /// The charge-count vector of `charge`: a one at the index of the charge,
    /// in the order (Psi, Vacuum, Sigma).
    pub fn ising_canonical_topo_charge(&self, charge: IsingTopoCharge) -> (vector: Vec<u64>)
        ensures
            vector.len() == 3,
            counts(vector@) == one_hot(3, charge.index()),
    {
        ising_vector(charge)
    }

    /// The charge-count vector of `charge`: a one at the index of the charge,
    /// in the order (Tau, Vacuum).
    pub fn fibonacci_canonical_topo_charge(&self, charge: FibonacciTopoCharge) -> (vector: Vec<u64>)
        ensures
            vector.len() == 2,
            counts(vector@) == one_hot(2, charge.index()),
    {
        fibonacci_vector(charge)
    }

    /// Fuses two charge-count vectors by the rules of the Ising category.
    pub fn ising_apply_fusion(&self, anyon_1: Vec<u64>, anyon_2: Vec<u64>) -> (fused: Vec<u64>)
        requires
            anyon_1.len() == 3,
            anyon_2.len() == 3,
            fits(ising_fusion(counts(anyon_1@), counts(anyon_2@))),
        ensures
            counts(fused@) == ising_fusion(counts(anyon_1@), counts(anyon_2@)),
    {
        fuse_ising(&anyon_1, &anyon_2)
    }

    /// Fuses two charge-count vectors by the rules of the Fibonacci category.
    pub fn fibonacci_apply_fusion(&self, anyon_1: Vec<u64>, anyon_2: Vec<u64>) -> (fused: Vec<u64>)
        requires
            anyon_1.len() == 2,
            anyon_2.len() == 2,
            fits(fibonacci_fusion(counts(anyon_1@), counts(anyon_2@))),
        ensures
            counts(fused@) == fibonacci_fusion(counts(anyon_1@), counts(anyon_2@)),
    {
        fuse_fibonacci(&anyon_1, &anyon_2)
    }

    /// Fuses two charge-count vectors by the rules of the Ising category,
    /// unless a count of the result is more than a `u64` can hold.
    pub fn checked_ising_apply_fusion(&self, anyon_1: Vec<u64>, anyon_2: Vec<u64>) -> (fused: Option<
        Vec<u64>,
    >)
        requires
            anyon_1.len() == 3,
            anyon_2.len() == 3,
        ensures
            fused is Some <==> fits(ising_fusion(counts(anyon_1@), counts(anyon_2@))),
            fused is Some ==> counts(fused->0@) == ising_fusion(
                counts(anyon_1@),
                counts(anyon_2@),
            ),
    {
        checked_fuse_ising(&anyon_1, &anyon_2)
    }

    /// Fuses two charge-count vectors by the rules of the Fibonacci
    /// category, unless a count of the result is more than a `u64` can hold.
    pub fn checked_fibonacci_apply_fusion(&self, anyon_1: Vec<u64>, anyon_2: Vec<u64>) -> (fused:
        Option<Vec<u64>>)
        requires
            anyon_1.len() == 2,
            anyon_2.len() == 2,
        ensures
            fused is Some <==> fits(fibonacci_fusion(counts(anyon_1@), counts(anyon_2@))),
            fused is Some ==> counts(fused->0@) == fibonacci_fusion(
                counts(anyon_1@),
                counts(anyon_2@),
            ),
    {
        checked_fuse_fibonacci(&anyon_1, &anyon_2)
    }

    /// Fuses two charge-count vectors by the rules of the model of the
    /// system.
    pub fn apply_fusion(&self, anyon_1: Vec<u64>, anyon_2: Vec<u64>) -> (fused: Result<
        Vec<u64>,
        FusionError,
    >)
        requires
            self@.state.anyon_model == AnyonModel::Ising ==> anyon_1.len() == 3 && anyon_2.len()
                == 3 && fits(ising_fusion(counts(anyon_1@), counts(anyon_2@))),
            self@.state.anyon_model == AnyonModel::Fibonacci ==> anyon_1.len() == 2
                && anyon_2.len() == 2 && fits(
                fibonacci_fusion(counts(anyon_1@), counts(anyon_2@)),
            ),
        ensures
            match self@.state.anyon_model {
                AnyonModel::Ising => fused is Ok && counts(fused->Ok_0@) == ising_fusion(
                    counts(anyon_1@),
                    counts(anyon_2@),
                ),
                AnyonModel::Fibonacci => fused is Ok && counts(fused->Ok_0@) == fibonacci_fusion(
                    counts(anyon_1@),
                    counts(anyon_2@),
                ),
                AnyonModel::Custom => fused == Err::<Vec<u64>, FusionError>(
                    FusionError::UnsupportedModel,
                ),
            },
    {
        match self.state.anyon_model() {
            AnyonModel::Ising => Ok(fuse_ising(&anyon_1, &anyon_2)),
            AnyonModel::Fibonacci => Ok(fuse_fibonacci(&anyon_1, &anyon_2)),
            AnyonModel::Custom => Err(FusionError::UnsupportedModel),
        }
    }

    /// The vectors that the anyons start with, in the Ising category.
    fn ising_start(&self) -> (seeds: Vec<Vec<u64>>)
        requires
            all_ising(self@.state.anyons),
        ensures
            seeds.len() == self@.state.anyons.len(),
            forall|i: int| 0 <= i < seeds.len() ==> (#[trigger] seeds[i]).len() == 3,
            charge_table(seeds@) == ising_seeds(self@.state.anyons),
    {
        let anyons = self.state.anyons();
        let mut seeds: Vec<Vec<u64>> = Vec::new();
        let mut i: usize = 0;
        while i < anyons.len()
            invariant
                i <= anyons.len(),
                all_ising(anyons@),
                seeds.len() == i,
                forall|j: int| 0 <= j < i ==> (#[trigger] seeds[j]).len() == 3,
                forall|j: int|
                    0 <= j < i ==> counts((#[trigger] seeds[j])@) == one_hot(
                        3,
                        anyons[j]@.charge->Ising_0.index(),
                    ),
            decreases anyons.len() - i,
        {
            let charge = anyons[i].charge();
            seeds.push(ising_vector(charge.get_ising()));
            i += 1;
        }
        assert(charge_table(seeds@) =~= ising_seeds(self@.state.anyons));
        seeds
    }

    /// The vectors that the anyons start with, in the Fibonacci category.
    fn fibonacci_start(&self) -> (seeds: Vec<Vec<u64>>)
        requires
            all_fibonacci(self@.state.anyons),
        ensures
            seeds.len() == self@.state.anyons.len(),
            forall|i: int| 0 <= i < seeds.len() ==> (#[trigger] seeds[i]).len() == 2,
            charge_table(seeds@) == fibonacci_seeds(self@.state.anyons),
    {
        let anyons = self.state.anyons();
        let mut seeds: Vec<Vec<u64>> = Vec::new();
        let mut i: usize = 0;
        while i < anyons.len()
            invariant
                i <= anyons.len(),
                all_fibonacci(anyons@),
                seeds.len() == i,
                forall|j: int| 0 <= j < i ==> (#[trigger] seeds[j]).len() == 2,
                forall|j: int|
                    0 <= j < i ==> counts((#[trigger] seeds[j])@) == one_hot(
                        2,
                        anyons[j]@.charge->Fibonacci_0.index(),
                    ),
            decreases anyons.len() - i,
        {
            let charge = anyons[i].charge();
            seeds.push(fibonacci_vector(charge.get_fibonacci()));
            i += 1;
        }
        assert(charge_table(seeds@) =~= fibonacci_seeds(self@.state.anyons));
        seeds
    }

    /// The operations of the tree, level after level, each with the time of
    /// its level.
    pub fn operations(&self) -> (operations: Vec<(u32, FusionPair)>)
        ensures
            operations@ == flatten(self@.levels),
    {
        let ghost levels = level_views(self.ops@);
        let mut operations: Vec<(u32, FusionPair)> = Vec::new();
        let mut j: usize = 0;
        while j < self.ops.len()
            invariant
                j <= self.ops.len(),
                levels == level_views(self.ops@),
                operations@ == flatten(levels.take(j as int)),
            decreases self.ops.len() - j,
        {
            let time: u32 = self.ops[j].0;
            let ghost head = operations@;
            let ghost pairs = self.ops@[j as int].1@;
            let mut i: usize = 0;
            while i < self.ops[j].1.len()
                invariant
                    j < self.ops.len(),
                    i <= self.ops[j as int].1.len(),
                    pairs == self.ops@[j as int].1@,
                    time == self.ops@[j as int].0,
                    operations@ == head + stamped(time, pairs.take(i as int)),
                decreases self.ops[j as int].1.len() - i,
            {
                operations.push((time, self.ops[j].1[i]));
                assert(operations@ =~= head + stamped(time, pairs.take(i as int + 1)));
                i += 1;
            }
            proof {
                let longer = levels.take(j as int + 1);
                assert(longer.drop_last() == levels.take(j as int));
                assert(longer.last() == (time, pairs));
                assert(pairs.take(pairs.len() as int) == pairs);
            }
            j += 1;
        }
        assert(levels.take(self.ops.len() as int) == levels);
        operations
    }

    /// The pairs of the tree in the order in which they are evaluated.
    fn order(&self) -> (order: Vec<FusionPair>)
        ensures
            order@ == pairs_in_order(self@.levels),
    {
        let operations = self.operations();
        let mut order: Vec<FusionPair> = Vec::new();
        let mut k: usize = 0;
        while k < operations.len()
            invariant
                k <= operations.len(),
                order.len() == k,
                forall|i: int| 0 <= i < k ==> (#[trigger] order[i]) == operations[i].1,
            decreases operations.len() - k,
        {
            order.push(operations[k].1);
            k += 1;
        }
        assert(order@ =~= pairs_in_order(self@.levels));
        order
    }

    /// The qubit encoding of the tree, for anyons of the Ising category: the
    /// fusions whose outcome tells the state of the encoded qubits.
    pub fn ising_qubit_enc(&self) -> (encoding: Vec<FusionPair>)
        requires
            all_ising(self@.state.anyons),
            evaluation_fits(ising_seeds(self@.state.anyons), pairs_in_order(self@.levels)),
        ensures
            is_ising_encoding(
                ising_seeds(self@.state.anyons),
                pairs_in_order(self@.levels),
                encoding@,
            ),
    {
        match self.checked_ising_qubit_enc() {
            Some(encoding) => encoding,
            None => unreached(),
        }
    }

    /// The qubit encoding of the tree, for anyons of the Ising category,
    /// unless an outcome of the tree has a count that is more than a `u64`
    /// can hold.
    pub fn checked_ising_qubit_enc(&self) -> (encoding: Option<Vec<FusionPair>>)
        requires
            all_ising(self@.state.anyons),
        ensures
            encoding is Some <==> evaluation_fits(
                ising_seeds(self@.state.anyons),
                pairs_in_order(self@.levels),
            ),
            encoding is Some ==> is_ising_encoding(
                ising_seeds(self@.state.anyons),
                pairs_in_order(self@.levels),
                encoding->0@,
            ),
    {
        proof {
            use_type_invariant(self);
            lemma_order_in_range(self@.state.anyons.len() as int, self@.levels);
        }
        let seeds = self.ising_start();
        let order = self.order();
        checked_ising_encoding(seeds, &order)
    }

    /// The qubit encoding of the tree, for anyons of the Fibonacci category.
    /// No encoding is defined for that category yet.
    pub fn fibonacci_qubit_enc(&self) -> (encoding: Result<Vec<FusionPair>, FusionError>)
        ensures
            encoding == Err::<Vec<FusionPair>, FusionError>(FusionError::UnsupportedModel),
    {
        Err(FusionError::UnsupportedModel)
    }

    /// The qubit encoding of the tree under the model of the system.
    pub fn qubit_enc(&self) -> (encoding: Result<Vec<FusionPair>, FusionError>)
        requires
            self@.state.anyon_model == AnyonModel::Ising ==> all_ising(self@.state.anyons)
                && evaluation_fits(
                ising_seeds(self@.state.anyons),
                pairs_in_order(self@.levels),
            ),
        ensures
            match self@.state.anyon_model {
                AnyonModel::Ising => encoding is Ok && is_ising_encoding(
                    ising_seeds(self@.state.anyons),
                    pairs_in_order(self@.levels),
                    encoding->Ok_0@,
                ),
                _ => encoding == Err::<Vec<FusionPair>, FusionError>(FusionError::UnsupportedModel),
            },
    {
        match self.state.anyon_model() {
            AnyonModel::Ising => Ok(self.ising_qubit_enc()),
            AnyonModel::Fibonacci => self.fibonacci_qubit_enc(),
            AnyonModel::Custom => Err(FusionError::UnsupportedModel),
        }
    }

    /// Whether the charge `init_charge` is among the outcomes of fusing all
    /// the anyons, in the Ising category.
    pub fn ising_verify_fusion_result(&self, init_charge: IsingTopoCharge) -> (possible: bool)
        requires
            self@.state.anyons.len() > 0,
            all_ising(self@.state.anyons),
            fold_fits(ising_rules(), ising_seeds(self@.state.anyons)),
        ensures
            possible == reaches(
                fold_fusion(ising_rules(), ising_seeds(self@.state.anyons)),
                one_hot(3, init_charge.index()),
            ),
    {
        match self.checked_ising_verify_fusion_result(init_charge) {
            Some(possible) => possible,
            None => unreached(),
        }
    }

    /// Whether the charge `init_charge` is among the outcomes of fusing all
    /// the anyons, in the Ising category, unless a count on the way is more
    /// than a `u64` can hold.
    pub fn checked_ising_verify_fusion_result(&self, init_charge: IsingTopoCharge) -> (possible:
        Option<bool>)
        requires
            self@.state.anyons.len() > 0,
            all_ising(self@.state.anyons),
        ensures
            possible is Some <==> fold_fits(ising_rules(), ising_seeds(self@.state.anyons)),
            possible is Some ==> possible->0 == reaches(
                fold_fusion(ising_rules(), ising_seeds(self@.state.anyons)),
                one_hot(3, init_charge.index()),
            ),
    {
        let seeds = self.ising_start();
        match checked_fold_ising(&seeds) {
            Some(total) => {
                let target = ising_vector(init_charge);
                Some(covers(&total, &target))
            },
            None => None,
        }
    }

    /// Whether the charge `init_charge` is among the outcomes of fusing all
    /// the anyons, in the Fibonacci category.
    pub fn fibonacci_verify_fusion_result(&self, init_charge: FibonacciTopoCharge) -> (possible:
        bool)
        requires
            self@.state.anyons.len() > 0,
            all_fibonacci(self@.state.anyons),
            fold_fits(fibonacci_rules(), fibonacci_seeds(self@.state.anyons)),
        ensures
            possible == reaches(
                fold_fusion(fibonacci_rules(), fibonacci_seeds(self@.state.anyons)),
                one_hot(2, init_charge.index()),
            ),
    {
        match self.checked_fibonacci_verify_fusion_result(init_charge) {
            Some(possible) => possible,
            None => unreached(),
        }
    }

    /// Whether the charge `init_charge` is among the outcomes of fusing all
    /// the anyons, in the Fibonacci category, unless a count on the way is
    /// more than a `u64` can hold.
    pub fn checked_fibonacci_verify_fusion_result(&self, init_charge: FibonacciTopoCharge) -> (possible:
        Option<bool>)
        requires
            self@.state.anyons.len() > 0,
            all_fibonacci(self@.state.anyons),
        ensures
            possible is Some <==> fold_fits(fibonacci_rules(), fibonacci_seeds(self@.state.anyons)),
            possible is Some ==> possible->0 == reaches(
                fold_fusion(fibonacci_rules(), fibonacci_seeds(self@.state.anyons)),
                one_hot(2, init_charge.index()),
            ),
    {
        let seeds = self.fibonacci_start();
        match checked_fold_fibonacci(&seeds) {
            Some(total) => {
                let target = fibonacci_vector(init_charge);
                Some(covers(&total, &target))
            },
            None => None,
        }
    }

    /// Whether the charge `init_charge` is among the outcomes of fusing all
    /// the anyons, under the model of the system. A model without fusion
    /// rules reaches nothing.
    pub fn verify_fusion_result(&self, init_charge: TopoCharge) -> (possible: bool)
        requires
            self@.state.anyon_model == AnyonModel::Ising ==> init_charge is Ising
                && self@.state.anyons.len() > 0 && all_ising(self@.state.anyons) && fold_fits(
                ising_rules(),
                ising_seeds(self@.state.anyons),
            ),
            self@.state.anyon_model == AnyonModel::Fibonacci ==> init_charge is Fibonacci
                && self@.state.anyons.len() > 0 && all_fibonacci(self@.state.anyons) && fold_fits(
                fibonacci_rules(),
                fibonacci_seeds(self@.state.anyons),
            ),
        ensures
            possible == reachable(self@.state, init_charge),
    {
        match self.state.anyon_model() {
            AnyonModel::Ising => self.ising_verify_fusion_result(init_charge.get_ising()),
            AnyonModel::Fibonacci => self.fibonacci_verify_fusion_result(
                init_charge.get_fibonacci(),
            ),
            AnyonModel::Custom => false,
        }
    }
}

/// Whether every charge that `target` has is a charge that `total` has.
fn covers(total: &Vec<u64>, target: &Vec<u64>) -> (all: bool)
    requires
        total.len() == target.len(),
    ensures
        all == reaches(counts(total@), counts(target@)),
{
    let mut k: usize = 0;
    while k < target.len()
        invariant
            k <= target.len() == total.len(),
            forall|i: int| 0 <= i < k ==> (counts(target@)[i] > 0 ==> counts(total@)[i] > 0),
        decreases target.len() - k,
    {
        if target[k] > 0 && !(total[k] > 0) {
            assert(counts(target@)[k as int] > 0 && !(counts(total@)[k as int] > 0));
            return false;
        }
        k += 1;
    }
    true
}

} // verus!
