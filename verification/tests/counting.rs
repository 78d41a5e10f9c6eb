use anyon_braiding_simulator::fusion::fusion::{Fusion, FusionError};
use anyon_braiding_simulator::fusion::state::State;
use anyon_braiding_simulator::model::model::AnyonModel;

fn tree_of(model: AnyonModel) -> Fusion {
    let mut state = State::new();
    state.set_anyon_model(model);
    Fusion::new(state)
}

#[test]
fn no_qubits_take_one_or_two_sigmas() {
    let fusion = tree_of(AnyonModel::Ising);
    assert_eq!(fusion.ising_possible_sigmas(0), vec![1, 2]);
    assert_eq!(fusion.minimum_possible_anyons(0), Ok(vec![1, 2]));
}

#[test]
fn qubits_take_twice_as_many_sigmas_and_one_or_two_more() {
    let fusion = tree_of(AnyonModel::Ising);
    assert_eq!(fusion.ising_possible_sigmas(1), vec![3, 4]);
    assert_eq!(fusion.ising_possible_sigmas(5), vec![11, 12]);
    assert_eq!(fusion.ising_possible_sigmas(2147483646), vec![4294967293, 4294967294]);
}

#[test]
fn no_qubits_take_up_to_three_taus() {
    let fusion = tree_of(AnyonModel::Fibonacci);
    assert_eq!(fusion.fibonacci_possible_taus(0), vec![0, 1, 2, 3]);
    assert_eq!(fusion.minimum_possible_anyons(0), Ok(vec![0, 1, 2, 3]));
}

#[test]
fn tau_counts_follow_the_fibonacci_numbers() {
    let fusion = tree_of(AnyonModel::Fibonacci);
    assert_eq!(fusion.fibonacci_possible_taus(1), vec![3, 4, 5]);
    assert_eq!(fusion.fibonacci_possible_taus(2), vec![5, 6]);
    assert_eq!(fusion.fibonacci_possible_taus(3), vec![6, 7, 8]);
    assert_eq!(fusion.minimum_possible_anyons(2), Ok(vec![5, 6]));
}

#[test]
fn thirty_qubits_are_within_range() {
    let fusion = tree_of(AnyonModel::Fibonacci);
    assert_eq!(fusion.fibonacci_possible_taus(30), vec![45, 46, 47]);
}

#[test]
fn a_custom_model_has_no_counts() {
    let fusion = tree_of(AnyonModel::Custom);
    assert_eq!(fusion.minimum_possible_anyons(1), Err(FusionError::UnsupportedModel));
}
