use anyon_braiding_simulator::fusion::fusion::{Fusion, FusionError, FusionPair};
use anyon_braiding_simulator::fusion::state::State;
use anyon_braiding_simulator::model::anyon::FibonacciTopoCharge::Tau;
use anyon_braiding_simulator::model::anyon::IsingTopoCharge::{Psi, Sigma, Vacuum};
use anyon_braiding_simulator::model::anyon::{
    Anyon, FibonacciTopoCharge, IsingTopoCharge, TopoCharge,
};
use anyon_braiding_simulator::model::model::AnyonModel;

fn ising(charges: &[IsingTopoCharge]) -> State {
    let mut state = State::new();
    for (i, c) in charges.iter().enumerate() {
        state.add_anyon(Anyon::new(format!("a{}", i), TopoCharge::from_ising(*c), (0, 0)));
    }
    state
}

fn fibonacci(charges: &[FibonacciTopoCharge]) -> State {
    let mut state = State::new();
    state.set_anyon_model(AnyonModel::Fibonacci);
    for (i, c) in charges.iter().enumerate() {
        state.add_anyon(Anyon::new(format!("a{}", i), TopoCharge::from_fibonacci(*c), (0, 0)));
    }
    state
}

/// The total charge of four anyons fused as (0,1) and (2,3), then (0,2).
fn total_of_four(charges: [IsingTopoCharge; 4]) -> Vec<u64> {
    let mut state = ising(&charges);
    assert!(state.add_operation(0, FusionPair::new(0, 1)));
    assert!(state.add_operation(0, FusionPair::new(2, 3)));
    assert!(state.add_operation(1, FusionPair::new(0, 2)));
    let fusion = Fusion::new(state);
    let v: Vec<Vec<u64>> =
        charges.iter().map(|c| fusion.ising_canonical_topo_charge(*c)).collect();
    let left = fusion.ising_apply_fusion(v[0].clone(), v[1].clone());
    let right = fusion.ising_apply_fusion(v[2].clone(), v[3].clone());
    fusion.ising_apply_fusion(left, right)
}

#[test]
fn canonical_vectors_are_one_hot() {
    let fusion = Fusion::new(State::new());
    assert_eq!(fusion.ising_canonical_topo_charge(IsingTopoCharge::Psi), vec![1, 0, 0]);
    assert_eq!(fusion.ising_canonical_topo_charge(Vacuum), vec![0, 1, 0]);
    assert_eq!(fusion.ising_canonical_topo_charge(IsingTopoCharge::Sigma), vec![0, 0, 1]);
    assert_eq!(fusion.fibonacci_canonical_topo_charge(FibonacciTopoCharge::Tau), vec![1, 0]);
    assert_eq!(fusion.fibonacci_canonical_topo_charge(FibonacciTopoCharge::Vacuum), vec![0, 1]);
}

#[test]
fn ising_rules_on_single_charges() {
    let fusion = Fusion::new(State::new());
    let psi = vec![1, 0, 0];
    let vacuum = vec![0, 1, 0];
    let sigma = vec![0, 0, 1];
    assert_eq!(fusion.ising_apply_fusion(sigma.clone(), sigma.clone()), vec![1, 1, 0]);
    assert_eq!(fusion.ising_apply_fusion(psi.clone(), psi.clone()), vec![0, 1, 0]);
    assert_eq!(fusion.ising_apply_fusion(psi.clone(), sigma.clone()), vec![0, 0, 1]);
    assert_eq!(fusion.ising_apply_fusion(sigma.clone(), psi.clone()), vec![0, 0, 1]);
    assert_eq!(fusion.ising_apply_fusion(vacuum.clone(), vacuum.clone()), vec![0, 1, 0]);
    assert_eq!(fusion.ising_apply_fusion(psi.clone(), vacuum.clone()), vec![1, 0, 0]);
}

#[test]
fn fibonacci_rules_on_single_charges() {
    let fusion = Fusion::new(State::new());
    let tau = vec![1, 0];
    let vacuum = vec![0, 1];
    assert_eq!(fusion.fibonacci_apply_fusion(tau.clone(), tau.clone()), vec![1, 1]);
    assert_eq!(fusion.fibonacci_apply_fusion(tau.clone(), vacuum.clone()), vec![1, 0]);
    assert_eq!(fusion.fibonacci_apply_fusion(vacuum.clone(), tau.clone()), vec![1, 0]);
    assert_eq!(fusion.fibonacci_apply_fusion(vacuum.clone(), vacuum.clone()), vec![0, 1]);
}

#[test]
fn multiplicities_accumulate() {
    let fusion = Fusion::new(State::new());
    assert_eq!(fusion.ising_apply_fusion(vec![1, 2, 3], vec![4, 5, 6]), vec![31, 32, 45]);
    assert_eq!(fusion.fibonacci_apply_fusion(vec![2, 3], vec![5, 7]), vec![39, 31]);
}

#[test]
fn fusion_is_symmetric() {
    let fusion = Fusion::new(State::new());
    let a = vec![1, 2, 3];
    let b = vec![4, 5, 6];
    assert_eq!(
        fusion.ising_apply_fusion(a.clone(), b.clone()),
        fusion.ising_apply_fusion(b.clone(), a.clone())
    );
    let c = vec![2, 3];
    let d = vec![5, 7];
    assert_eq!(
        fusion.fibonacci_apply_fusion(c.clone(), d.clone()),
        fusion.fibonacci_apply_fusion(d.clone(), c.clone())
    );
}

#[test]
fn vacuum_is_the_identity() {
    let fusion = Fusion::new(State::new());
    let vacuum = fusion.ising_canonical_topo_charge(Vacuum);
    for c in [vec![1, 0, 0], vec![0, 1, 0], vec![0, 0, 1], vec![7, 11, 13]] {
        assert_eq!(fusion.ising_apply_fusion(vacuum.clone(), c.clone()), c);
        assert_eq!(fusion.ising_apply_fusion(c.clone(), vacuum.clone()), c);
    }
}

#[test]
fn the_model_chooses_the_rules() {
    let ising_tree = Fusion::new(ising(&[]));
    assert_eq!(ising_tree.apply_fusion(vec![0, 0, 1], vec![0, 0, 1]), Ok(vec![1, 1, 0]));
    let fibonacci_tree = Fusion::new(fibonacci(&[]));
    assert_eq!(fibonacci_tree.apply_fusion(vec![1, 0], vec![1, 0]), Ok(vec![1, 1]));
    let mut custom = State::new();
    custom.set_anyon_model(AnyonModel::Custom);
    let custom_tree = Fusion::new(custom);
    assert_eq!(
        custom_tree.apply_fusion(vec![1, 0], vec![1, 0]),
        Err(FusionError::UnsupportedModel)
    );
    assert_eq!(FusionError::UnsupportedModel.message(), "This model is not supported yet");
}

#[test]
fn four_sigmas_fuse_to_psi_or_vacuum() {
    assert_eq!(total_of_four([Sigma, Sigma, Sigma, Sigma]), vec![2, 2, 0]);
}

#[test]
fn four_psis_fuse_to_vacuum() {
    assert_eq!(total_of_four([Psi, Psi, Psi, Psi]), vec![0, 1, 0]);
}

#[test]
fn four_vacuums_fuse_to_vacuum() {
    assert_eq!(total_of_four([Vacuum, Vacuum, Vacuum, Vacuum]), vec![0, 1, 0]);
}

#[test]
fn mixed_charges_fuse_as_the_rules_say() {
    assert_eq!(total_of_four([Sigma, Sigma, Psi, Vacuum]), vec![1, 1, 0]);
    assert_eq!(total_of_four([Sigma, Psi, Sigma, Vacuum]), vec![1, 1, 0]);
    assert_eq!(total_of_four([Sigma, Vacuum, Psi, Psi]), vec![0, 0, 1]);
    assert_eq!(total_of_four([Psi, Vacuum, Vacuum, Vacuum]), vec![1, 0, 0]);
}

#[test]
fn two_sigmas_reach_vacuum_and_psi_but_not_sigma() {
    let fusion = Fusion::new(ising(&[Sigma, Sigma]));
    assert!(fusion.ising_verify_fusion_result(Vacuum));
    assert!(fusion.ising_verify_fusion_result(Psi));
    assert!(!fusion.ising_verify_fusion_result(Sigma));
    assert!(fusion.verify_fusion_result(TopoCharge::from_ising(Vacuum)));
    assert!(!fusion.verify_fusion_result(TopoCharge::from_ising(Sigma)));
}

#[test]
fn three_sigmas_reach_only_sigma() {
    let fusion = Fusion::new(ising(&[Sigma, Sigma, Sigma]));
    assert!(fusion.ising_verify_fusion_result(Sigma));
    assert!(!fusion.ising_verify_fusion_result(Vacuum));
    assert!(!fusion.ising_verify_fusion_result(Psi));
}

#[test]
fn one_anyon_reaches_its_own_charge() {
    let fusion = Fusion::new(ising(&[Psi]));
    assert!(fusion.ising_verify_fusion_result(Psi));
    assert!(!fusion.ising_verify_fusion_result(Vacuum));
}

#[test]
fn taus_reach_what_the_fibonacci_rules_give() {
    let pair = Fusion::new(fibonacci(&[Tau, Tau]));
    assert!(pair.fibonacci_verify_fusion_result(Tau));
    assert!(pair.fibonacci_verify_fusion_result(FibonacciTopoCharge::Vacuum));
    let single = Fusion::new(fibonacci(&[Tau, FibonacciTopoCharge::Vacuum]));
    assert!(single.fibonacci_verify_fusion_result(Tau));
    assert!(!single.fibonacci_verify_fusion_result(FibonacciTopoCharge::Vacuum));
    assert!(single.verify_fusion_result(TopoCharge::from_fibonacci(Tau)));
    assert!(!single.verify_fusion_result(TopoCharge::from_fibonacci(FibonacciTopoCharge::Vacuum)));
}

#[test]
fn a_model_without_rules_reaches_nothing() {
    let mut state = ising(&[Vacuum]);
    state.set_anyon_model(AnyonModel::Custom);
    let fusion = Fusion::new(state);
    assert!(!fusion.verify_fusion_result(TopoCharge::from_ising(Vacuum)));
}

#[test]
fn reaching_a_charge_gives_the_same_answer_twice() {
    let fusion = Fusion::new(ising(&[Sigma, Sigma, Sigma, Sigma]));
    let first = fusion.ising_verify_fusion_result(Vacuum);
    let second = fusion.ising_verify_fusion_result(Vacuum);
    assert!(first);
    assert_eq!(first, second);
}

#[test]
fn checked_fusion_agrees_where_the_counts_fit() {
    let fusion = Fusion::new(State::new());
    assert_eq!(
        fusion.checked_ising_apply_fusion(vec![1, 2, 3], vec![4, 5, 6]),
        Some(vec![31, 32, 45])
    );
    assert_eq!(fusion.checked_fibonacci_apply_fusion(vec![2, 3], vec![5, 7]), Some(vec![39, 31]));
}

#[test]
fn checked_fusion_gives_nothing_where_a_count_does_not_fit() {
    let fusion = Fusion::new(State::new());
    assert_eq!(fusion.checked_ising_apply_fusion(vec![u64::MAX, 0, 0], vec![0, 2, 0]), None);
    assert_eq!(
        fusion.checked_ising_apply_fusion(vec![0, 0, u64::MAX], vec![0, 0, 1]),
        Some(vec![u64::MAX, u64::MAX, 0])
    );
    assert_eq!(fusion.checked_ising_apply_fusion(vec![0, 0, u64::MAX], vec![1, 1, 0]), None);
    assert_eq!(fusion.checked_fibonacci_apply_fusion(vec![u64::MAX, 1], vec![1, 0]), None);
    assert_eq!(
        fusion.checked_fibonacci_apply_fusion(vec![u64::MAX, 0], vec![0, 1]),
        Some(vec![u64::MAX, 0])
    );
}

#[test]
fn checked_reaching_agrees_with_reaching() {
    let fusion = Fusion::new(ising(&[Sigma, Sigma, Sigma]));
    assert_eq!(fusion.checked_ising_verify_fusion_result(Sigma), Some(true));
    assert_eq!(fusion.checked_ising_verify_fusion_result(Vacuum), Some(false));
    let taus = Fusion::new(fibonacci(&[Tau, Tau, Tau]));
    assert_eq!(taus.checked_fibonacci_verify_fusion_result(Tau), Some(true));
    assert_eq!(taus.checked_fibonacci_verify_fusion_result(FibonacciTopoCharge::Vacuum), Some(true));
}

#[test]
fn the_total_of_too_many_sigmas_does_not_fit() {
    let fusion = Fusion::new(ising(&[Sigma; 129]));
    assert_eq!(fusion.checked_ising_verify_fusion_result(Vacuum), None);
    let just = Fusion::new(ising(&[Sigma; 128]));
    assert_eq!(just.checked_ising_verify_fusion_result(Sigma), Some(false));
    assert_eq!(just.checked_ising_verify_fusion_result(Vacuum), Some(true));
}
