use anyon_braiding_simulator::model::anyon::{
    Anyon, ChargeError, FibonacciTopoCharge, IsingTopoCharge, TopoCharge,
};
use anyon_braiding_simulator::model::model::AnyonModel;

#[test]
fn ising_charges_are_indexed_psi_vacuum_sigma() {
    assert_eq!(IsingTopoCharge::Psi.value(), 0);
    assert_eq!(IsingTopoCharge::Vacuum.value(), 1);
    assert_eq!(IsingTopoCharge::Sigma.value(), 2);
}

#[test]
fn fibonacci_charges_are_indexed_tau_vacuum() {
    assert_eq!(FibonacciTopoCharge::Tau.value(), 0);
    assert_eq!(FibonacciTopoCharge::Vacuum.value(), 1);
}

#[test]
fn charges_are_named_after_their_variants() {
    assert_eq!(IsingTopoCharge::Psi.to_string(), "Psi");
    assert_eq!(IsingTopoCharge::Vacuum.to_string(), "Vacuum");
    assert_eq!(IsingTopoCharge::Sigma.to_string(), "Sigma");
    assert_eq!(FibonacciTopoCharge::Tau.to_string(), "Tau");
    assert_eq!(FibonacciTopoCharge::Vacuum.to_string(), "Vacuum");
    assert_eq!(TopoCharge::from_ising(IsingTopoCharge::Sigma).to_string(), "Sigma");
    assert_eq!(TopoCharge::from_fibonacci(FibonacciTopoCharge::Tau).to_string(), "Tau");
}

#[test]
fn a_charge_of_one_category_is_built() {
    let ising = TopoCharge::new(Some(IsingTopoCharge::Psi), None);
    assert_eq!(ising, Ok(TopoCharge::Ising(IsingTopoCharge::Psi)));
    let fibonacci = TopoCharge::new(None, Some(FibonacciTopoCharge::Tau));
    assert_eq!(fibonacci, Ok(TopoCharge::Fibonacci(FibonacciTopoCharge::Tau)));
}

#[test]
fn a_charge_of_two_categories_is_refused() {
    let both = TopoCharge::new(Some(IsingTopoCharge::Psi), Some(FibonacciTopoCharge::Tau));
    assert_eq!(both, Err(ChargeError::TwoCategories));
}

#[test]
fn a_charge_of_no_category_is_refused() {
    assert_eq!(TopoCharge::new(None, None), Err(ChargeError::NoCategory));
}

#[test]
fn a_charge_knows_its_category() {
    let sigma = TopoCharge::from_ising(IsingTopoCharge::Sigma);
    assert!(sigma.is_ising());
    assert!(!sigma.is_fibonacci());
    assert_eq!(sigma.get_ising(), IsingTopoCharge::Sigma);
    let tau = TopoCharge::from_fibonacci(FibonacciTopoCharge::Tau);
    assert!(tau.is_fibonacci());
    assert!(!tau.is_ising());
    assert_eq!(tau.get_fibonacci(), FibonacciTopoCharge::Tau);
}

#[test]
fn a_charge_converts_only_within_its_category() {
    let sigma = TopoCharge::from_ising(IsingTopoCharge::Sigma);
    let tau = TopoCharge::from_fibonacci(FibonacciTopoCharge::Tau);
    assert_eq!(IsingTopoCharge::try_from(&sigma), Ok(IsingTopoCharge::Sigma));
    assert_eq!(IsingTopoCharge::try_from(&tau), Err(ChargeError::NotIsing));
    assert_eq!(FibonacciTopoCharge::try_from(&tau), Ok(FibonacciTopoCharge::Tau));
    assert_eq!(FibonacciTopoCharge::try_from(&sigma), Err(ChargeError::NotFibonacci));
}

#[test]
fn an_anyon_keeps_what_it_was_made_with() {
    let charge = TopoCharge::from_ising(IsingTopoCharge::Vacuum);
    let position = (1.5f64.to_bits(), (-2.0f64).to_bits());
    let anyon = Anyon::new("left".to_string(), charge, position);
    assert_eq!(anyon.name(), "left");
    assert_eq!(anyon.charge(), charge);
    assert_eq!(f64::from_bits(anyon.position().0), 1.5);
    assert_eq!(f64::from_bits(anyon.position().1), -2.0);
    assert_eq!(anyon.clone(), anyon);
}

#[test]
fn a_new_model_is_ising() {
    assert_eq!(AnyonModel::new(), AnyonModel::Ising);
}
