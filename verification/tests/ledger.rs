use anyon_braiding_simulator::fusion::fusion::FusionPair;
use anyon_braiding_simulator::fusion::state::State;
use anyon_braiding_simulator::model::anyon::{Anyon, IsingTopoCharge, TopoCharge};
use anyon_braiding_simulator::model::model::AnyonModel;

fn sigma(name: &str) -> Anyon {
    Anyon::new(name.to_string(), TopoCharge::from_ising(IsingTopoCharge::Sigma), (0, 0))
}

fn four_sigmas() -> State {
    let mut state = State::new();
    for name in ["A", "B", "C", "D"] {
        assert!(state.add_anyon(sigma(name)));
    }
    state
}

#[test]
fn a_new_ledger_is_empty_and_ising() {
    let state = State::new();
    assert_eq!(state.anyons().len(), 0);
    assert_eq!(state.operations().len(), 0);
    assert_eq!(state.anyon_model(), AnyonModel::Ising);
}

#[test]
fn anyons_are_kept_in_the_order_they_were_added() {
    let state = four_sigmas();
    let names: Vec<String> = state.anyons().iter().map(|a| a.name().to_string()).collect();
    assert_eq!(names, vec!["A", "B", "C", "D"]);
}

#[test]
fn the_model_can_be_set() {
    let mut state = four_sigmas();
    state.set_anyon_model(AnyonModel::Fibonacci);
    assert_eq!(state.anyon_model(), AnyonModel::Fibonacci);
    assert_eq!(state.anyons().len(), 4);
}

#[test]
fn pairs_then_their_fusion_are_accepted() {
    let mut state = four_sigmas();
    assert!(state.add_operation(0, FusionPair::new(0, 1)));
    assert!(state.add_operation(0, FusionPair::new(2, 3)));
    assert!(state.add_operation(1, FusionPair::new(0, 2)));
    assert_eq!(
        state.operations(),
        vec![(0, FusionPair::new(0, 1)), (0, FusionPair::new(2, 3)), (1, FusionPair::new(0, 2))]
    );
}

#[test]
fn crossing_an_active_anyon_is_rejected() {
    let mut state = four_sigmas();
    assert!(!state.verify_operation(0, &FusionPair::new(1, 3)));
    assert!(!state.add_operation(0, FusionPair::new(1, 3)));
    assert_eq!(state.operations().len(), 0);
}

#[test]
fn crossing_a_consumed_anyon_is_accepted() {
    let mut state = four_sigmas();
    assert!(state.add_operation(0, FusionPair::new(1, 2)));
    assert!(state.verify_operation(1, &FusionPair::new(1, 3)));
    assert!(state.add_operation(1, FusionPair::new(0, 3)) == false);
    assert!(state.add_operation(1, FusionPair::new(1, 3)));
}

#[test]
fn a_pair_out_of_order_is_rejected() {
    let mut state = four_sigmas();
    assert!(!state.add_operation(0, FusionPair::new(1, 1)));
    assert!(!state.add_operation(0, FusionPair::new(2, 1)));
    assert_eq!(state.operations().len(), 0);
}

#[test]
fn a_pair_out_of_range_is_rejected() {
    let mut state = four_sigmas();
    assert!(!state.add_operation(0, FusionPair::new(3, 4)));
    assert_eq!(state.operations().len(), 0);
}

#[test]
fn a_consumed_anyon_cannot_fuse_again() {
    let mut state = four_sigmas();
    assert!(state.add_operation(0, FusionPair::new(0, 1)));
    assert!(!state.add_operation(1, FusionPair::new(1, 2)));
    assert!(!state.add_operation(1, FusionPair::new(0, 1)));
    assert_eq!(state.operations().len(), 1);
}

#[test]
fn an_anyon_fuses_once_at_a_time() {
    let mut state = four_sigmas();
    assert!(state.add_operation(0, FusionPair::new(0, 1)));
    assert!(!state.add_operation(0, FusionPair::new(0, 2)));
    assert_eq!(state.operations().len(), 1);
}

#[test]
fn a_merged_anyon_fuses_again_at_a_later_time() {
    let mut state = four_sigmas();
    assert!(state.add_operation(0, FusionPair::new(0, 1)));
    assert!(state.add_operation(1, FusionPair::new(0, 2)));
    assert!(state.add_operation(2, FusionPair::new(0, 3)));
    assert_eq!(state.operations().len(), 3);
}

#[test]
fn a_refused_operation_leaves_the_ledger_as_it_was() {
    let mut state = four_sigmas();
    assert!(state.add_operation(0, FusionPair::new(0, 1)));
    let before = state.clone();
    assert!(!state.add_operation(0, FusionPair::new(1, 3)));
    assert_eq!(state, before);
}

#[test]
fn a_pair_gives_its_indices() {
    let pair = FusionPair::new(2, 5);
    assert_eq!(pair.anyon_1(), 2);
    assert_eq!(pair.anyon_2(), 5);
    assert!(FusionPair::new(0, 9) < FusionPair::new(1, 2));
    assert!(FusionPair::new(1, 2) < FusionPair::new(1, 3));
}
