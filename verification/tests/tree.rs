use anyon_braiding_simulator::fusion::fusion::{Fusion, FusionError, FusionPair};
use anyon_braiding_simulator::fusion::state::State;
use anyon_braiding_simulator::model::anyon::IsingTopoCharge::{Psi, Sigma, Vacuum};
use anyon_braiding_simulator::model::anyon::{Anyon, IsingTopoCharge, TopoCharge};
use anyon_braiding_simulator::model::model::AnyonModel;
use anyon_braiding_simulator::util::basis::Basis;

fn system(charges: &[IsingTopoCharge]) -> State {
    let names = ["A", "B", "C", "D", "E", "F"];
    let mut state = State::new();
    for (i, c) in charges.iter().enumerate() {
        state.add_anyon(Anyon::new(names[i].to_string(), TopoCharge::from_ising(*c), (0, 0)));
    }
    state
}

fn balanced(charges: &[IsingTopoCharge; 4]) -> Fusion {
    let mut state = system(charges);
    assert!(state.add_operation(0, FusionPair::new(0, 1)));
    assert!(state.add_operation(0, FusionPair::new(2, 3)));
    assert!(state.add_operation(1, FusionPair::new(0, 2)));
    Fusion::new(state)
}

#[test]
fn the_tree_lists_its_operations_level_by_level() {
    let fusion = balanced(&[Sigma, Sigma, Sigma, Sigma]);
    assert_eq!(
        fusion.operations(),
        vec![(0, FusionPair::new(0, 1)), (0, FusionPair::new(2, 3)), (1, FusionPair::new(0, 2))]
    );
}

#[test]
fn levels_follow_the_times_not_the_order_of_the_log() {
    let mut state = system(&[Sigma, Sigma, Sigma, Sigma]);
    assert!(state.add_operation(5, FusionPair::new(2, 3)));
    assert!(state.add_operation(1, FusionPair::new(0, 1)));
    assert!(state.add_operation(5, FusionPair::new(0, 2)) == false);
    assert!(state.add_operation(7, FusionPair::new(0, 2)));
    let log = state.operations();
    let fusion = Fusion::new(state);
    let flat = fusion.operations();
    assert_eq!(
        flat,
        vec![(1, FusionPair::new(0, 1)), (5, FusionPair::new(2, 3)), (7, FusionPair::new(0, 2))]
    );
    let mut sorted_log = log.clone();
    sorted_log.sort();
    let mut sorted_flat = flat.clone();
    sorted_flat.sort();
    assert_eq!(sorted_log, sorted_flat);
}

#[test]
fn a_log_in_time_order_comes_back_as_it_was() {
    let mut state = system(&[Sigma, Sigma, Sigma, Sigma, Sigma, Sigma]);
    assert!(state.add_operation(0, FusionPair::new(4, 5)));
    assert!(state.add_operation(0, FusionPair::new(0, 1)));
    assert!(state.add_operation(3, FusionPair::new(2, 3)));
    assert!(state.add_operation(3, FusionPair::new(0, 2)) == false);
    assert!(state.add_operation(4, FusionPair::new(0, 2)));
    let log = state.operations();
    let fusion = Fusion::new(state);
    assert_eq!(fusion.operations(), log);
}

#[test]
fn an_empty_ledger_has_no_levels() {
    let fusion = Fusion::new(State::new());
    assert_eq!(fusion.operations(), vec![]);
    assert_eq!(fusion.to_string(), "\n\n");
}

#[test]
fn the_tree_is_drawn_level_by_level() {
    let fusion = balanced(&[Sigma, Sigma, Sigma, Sigma]);
    let expected = "A B C D \n| | | | \n|─| |─| \n|───|   \n|       ";
    assert_eq!(fusion.to_string(), expected);
}

#[test]
fn anyons_that_do_not_fuse_keep_their_rails() {
    let mut state = system(&[Sigma, Sigma, Sigma]);
    assert!(state.add_operation(2, FusionPair::new(1, 2)));
    let fusion = Fusion::new(state);
    assert_eq!(fusion.to_string(), "A B C \n| | | \n| |─| \n| |   ");
}

#[test]
fn a_sigma_free_tree_encodes_its_first_fusion() {
    let fusion = balanced(&[Psi, Psi, Vacuum, Psi]);
    assert_eq!(fusion.ising_qubit_enc(), vec![FusionPair::new(0, 1)]);
    assert_eq!(fusion.qubit_enc(), Ok(vec![FusionPair::new(0, 1)]));
}

#[test]
fn outcomes_with_sigma_are_left_out_of_the_encoding() {
    let mut state = system(&[Sigma, Vacuum, Psi, Psi, Sigma]);
    assert!(state.add_operation(0, FusionPair::new(0, 1)));
    assert!(state.add_operation(0, FusionPair::new(2, 3)));
    assert!(state.add_operation(1, FusionPair::new(0, 2)));
    assert!(state.add_operation(1, FusionPair::new(2, 4)) == false);
    let fusion = Fusion::new(state);
    assert_eq!(fusion.ising_qubit_enc(), vec![]);
}

#[test]
fn the_greatest_definite_fusion_is_dropped() {
    let mut state = system(&[Psi, Psi, Vacuum, Psi, Psi, Vacuum]);
    assert!(state.add_operation(0, FusionPair::new(4, 5)));
    assert!(state.add_operation(0, FusionPair::new(2, 3)));
    assert!(state.add_operation(0, FusionPair::new(0, 1)));
    assert!(state.add_operation(1, FusionPair::new(0, 2)));
    assert!(state.add_operation(2, FusionPair::new(0, 4)));
    let fusion = Fusion::new(state);
    assert_eq!(
        fusion.ising_qubit_enc(),
        vec![FusionPair::new(0, 1), FusionPair::new(0, 2), FusionPair::new(2, 3)]
    );
}

#[test]
fn a_tree_whose_total_charge_is_not_definite_encodes_nothing() {
    let fusion = balanced(&[Sigma, Sigma, Sigma, Sigma]);
    assert_eq!(fusion.ising_qubit_enc(), vec![]);
}

#[test]
fn a_tree_without_operations_encodes_nothing() {
    let fusion = Fusion::new(system(&[Vacuum, Vacuum]));
    assert_eq!(fusion.ising_qubit_enc(), vec![]);
}

#[test]
fn a_tree_of_one_operation_encodes_nothing() {
    let mut state = system(&[Psi, Vacuum]);
    assert!(state.add_operation(0, FusionPair::new(0, 1)));
    let fusion = Fusion::new(state);
    assert_eq!(fusion.ising_qubit_enc(), vec![]);
}

#[test]
fn the_encoding_is_the_same_when_asked_twice() {
    let fusion = balanced(&[Psi, Psi, Vacuum, Psi]);
    let first = fusion.ising_qubit_enc();
    let second = fusion.ising_qubit_enc();
    assert_eq!(first, vec![FusionPair::new(0, 1)]);
    assert_eq!(first, second);
}

#[test]
fn the_fibonacci_encoding_is_unsupported() {
    let mut state = State::new();
    state.set_anyon_model(AnyonModel::Fibonacci);
    let fusion = Fusion::new(state);
    assert_eq!(fusion.fibonacci_qubit_enc(), Err(FusionError::UnsupportedModel));
    assert_eq!(fusion.qubit_enc(), Err(FusionError::UnsupportedModel));
}

#[test]
fn a_custom_model_has_no_encoding() {
    let mut state = State::new();
    state.set_anyon_model(AnyonModel::Custom);
    let fusion = Fusion::new(state);
    assert_eq!(fusion.qubit_enc(), Err(FusionError::UnsupportedModel));
}

#[test]
fn the_tree_checks_a_basis_against_its_own_anyons() {
    let fusion = Fusion::new(system(&[Sigma, Sigma, Sigma]));
    let good = Basis::new(vec![(0, FusionPair::new(0, 1)), (1, FusionPair::new(0, 2))]);
    let short = Basis::new(vec![(0, FusionPair::new(0, 1))]);
    assert!(fusion.verify_basis(&good));
    assert!(!fusion.verify_basis(&short));
}

#[test]
fn the_checked_encoding_agrees_with_the_encoding() {
    let fusion = balanced(&[Psi, Psi, Vacuum, Psi]);
    assert_eq!(fusion.checked_ising_qubit_enc(), Some(vec![FusionPair::new(0, 1)]));
    let sigmas = balanced(&[Sigma, Sigma, Sigma, Sigma]);
    assert_eq!(sigmas.checked_ising_qubit_enc(), Some(vec![]));
}

#[test]
fn the_tree_keeps_its_ledger() {
    let fusion = balanced(&[Sigma, Sigma, Sigma, Sigma]);
    assert_eq!(fusion.state().anyons().len(), 4);
    assert_eq!(fusion.state().operations().len(), 3);
    assert_eq!(fusion.state().anyon_model(), AnyonModel::Ising);
}
