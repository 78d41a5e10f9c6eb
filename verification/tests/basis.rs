use anyon_braiding_simulator::fusion::fusion::FusionPair;
use anyon_braiding_simulator::util::basis::Basis;

fn basis(ops: &[(u32, usize, usize)]) -> Basis {
    Basis::new(ops.iter().map(|(t, a, b)| (*t, FusionPair::new(*a, *b))).collect())
}

#[test]
fn a_balanced_tree_is_a_basis() {
    assert!(basis(&[(0, 0, 1), (0, 2, 3), (1, 0, 2)]).verify_basis(4));
}

#[test]
fn a_chain_is_a_basis() {
    assert!(basis(&[(0, 0, 1), (1, 0, 2), (2, 0, 3)]).verify_basis(4));
    assert!(basis(&[(1, 2, 3), (2, 1, 2), (3, 0, 1)]).verify_basis(4));
}

#[test]
fn one_anyon_has_the_empty_basis() {
    assert!(basis(&[]).verify_basis(1));
}

#[test]
fn no_anyons_have_no_basis() {
    assert!(!basis(&[]).verify_basis(0));
}

#[test]
fn too_few_operations_are_no_basis() {
    assert!(!basis(&[(0, 0, 1), (0, 2, 3)]).verify_basis(4));
}

#[test]
fn too_many_operations_are_no_basis() {
    assert!(!basis(&[(0, 0, 1), (1, 0, 2), (2, 0, 3)]).verify_basis(3));
}

#[test]
fn times_out_of_order_are_no_basis() {
    assert!(!basis(&[(1, 0, 1), (0, 2, 3), (2, 0, 2)]).verify_basis(4));
}

#[test]
fn a_crossing_is_no_basis() {
    assert!(!basis(&[(0, 1, 3), (1, 0, 1), (2, 0, 2)]).verify_basis(4));
}

#[test]
fn a_neighbour_that_is_still_there_blocks_a_fusion() {
    assert!(!basis(&[(0, 0, 2), (1, 0, 1)]).verify_basis(3));
}

#[test]
fn an_anyon_used_twice_at_one_time_is_no_basis() {
    assert!(!basis(&[(0, 0, 1), (0, 0, 2), (1, 0, 3)]).verify_basis(4));
    assert!(!basis(&[(0, 0, 1), (0, 1, 2), (1, 0, 3)]).verify_basis(4));
}

#[test]
fn a_consumed_anyon_is_no_part_of_a_basis() {
    assert!(!basis(&[(0, 0, 1), (1, 1, 2), (2, 0, 3)]).verify_basis(4));
}

#[test]
fn a_pair_out_of_order_or_range_is_no_basis() {
    assert!(!basis(&[(0, 1, 0)]).verify_basis(2));
    assert!(!basis(&[(0, 1, 1)]).verify_basis(2));
    assert!(!basis(&[(0, 1, 2)]).verify_basis(2));
}

#[test]
fn a_basis_is_equal_to_its_clone() {
    let one = basis(&[(0, 0, 1)]);
    assert_eq!(one.clone(), one);
    assert!(one.clone().verify_basis(2));
}
