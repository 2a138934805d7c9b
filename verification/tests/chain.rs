use cova::boolean::Boolean;
use cova::chain::Chain;
use cova::error::TopologyError;
use cova::modular::Gf7;
use cova::simplex::Simplex;

fn simplex(vertices: Vec<usize>) -> Simplex {
    Simplex::new(vertices.len() - 1, vertices).unwrap()
}

#[test]
fn boundary_of_a_triangle_has_signed_edges() {
    let mut chain: Chain<Gf7> = Chain::zero(2);
    chain.insert(simplex(vec![0, 1, 2]), Gf7::Two).unwrap();
    let boundary = chain.boundary();
    assert_eq!(boundary.dimension(), 1);
    assert_eq!(boundary.len(), 3);
    assert_eq!(boundary.coefficient(&simplex(vec![1, 2])), Gf7::Two);
    assert_eq!(boundary.coefficient(&simplex(vec![0, 2])), Gf7::Five);
    assert_eq!(boundary.coefficient(&simplex(vec![0, 1])), Gf7::Two);
    assert_eq!(boundary.coefficient(&simplex(vec![0, 3])), Gf7::Zero);
}

#[test]
fn boundary_of_a_boundary_is_zero() {
    let mut chain: Chain<Gf7> = Chain::zero(3);
    chain.insert(simplex(vec![0, 1, 2, 3]), Gf7::Three).unwrap();
    chain.insert(simplex(vec![1, 2, 3, 4]), Gf7::Five).unwrap();
    chain.insert(simplex(vec![0, 2, 4, 6]), Gf7::One).unwrap();
    let once = chain.boundary();
    assert!(!once.is_zero());
    let twice = once.boundary();
    assert!(twice.is_zero());
    assert_eq!(twice.len(), 0);
    assert_eq!(twice.dimension(), 1);
    assert_eq!(twice.coefficient(&simplex(vec![0, 1])), Gf7::Zero);
}

#[test]
fn boundary_of_a_boundary_is_zero_over_two_elements() {
    let mut chain: Chain<Boolean> = Chain::zero(2);
    chain.insert(simplex(vec![0, 1, 2]), Boolean(true)).unwrap();
    chain.insert(simplex(vec![1, 2, 3]), Boolean(true)).unwrap();
    let once = chain.boundary();
    // The shared edge cancels.
    assert_eq!(once.len(), 4);
    assert_eq!(once.coefficient(&simplex(vec![1, 2])), Boolean(false));
    assert_eq!(once.coefficient(&simplex(vec![0, 1])), Boolean(true));
    assert!(once.boundary().is_zero());
}

#[test]
fn shared_faces_cancel_with_opposite_signs() {
    let mut chain: Chain<Gf7> = Chain::zero(2);
    chain.insert(simplex(vec![0, 1, 2]), Gf7::One).unwrap();
    chain.insert(simplex(vec![0, 1, 3]), Gf7::Six).unwrap();
    let boundary = chain.boundary();
    // {0, 1} is the face at position 2 of both, with coefficients 1 and -1.
    assert_eq!(boundary.coefficient(&simplex(vec![0, 1])), Gf7::Zero);
    assert_eq!(boundary.len(), 4);
}

#[test]
fn boundary_of_vertices_is_zero() {
    let mut chain: Chain<Gf7> = Chain::zero(0);
    chain.insert(Simplex::vertex(3), Gf7::Four).unwrap();
    let boundary = chain.boundary();
    assert!(boundary.is_zero());
    assert_eq!(boundary.dimension(), 0);
}

#[test]
fn insertion_adds_coefficients_and_drops_zeros() {
    let mut chain: Chain<Gf7> = Chain::zero(1);
    chain.insert(simplex(vec![0, 1]), Gf7::Three).unwrap();
    chain.insert(simplex(vec![1, 0]), Gf7::Two).unwrap();
    assert_eq!(chain.len(), 1);
    assert_eq!(chain.coefficient(&simplex(vec![0, 1])), Gf7::Five);
    chain.insert(simplex(vec![0, 1]), Gf7::Two).unwrap();
    assert_eq!(chain.len(), 0);
    assert!(chain.is_zero());
    chain.insert(simplex(vec![0, 1]), Gf7::Zero).unwrap();
    assert_eq!(chain.len(), 0);
}

#[test]
fn insertion_of_another_dimension_is_a_mismatch() {
    let mut chain: Chain<Gf7> = Chain::zero(1);
    chain.insert(simplex(vec![0, 1]), Gf7::One).unwrap();
    assert_eq!(
        chain.insert(simplex(vec![0, 1, 2]), Gf7::One),
        Err(TopologyError::DimensionMismatch)
    );
    assert_eq!(chain.len(), 1);
}

#[test]
fn chains_add_coefficient_by_coefficient() {
    let mut a: Chain<Gf7> = Chain::zero(1);
    a.insert(simplex(vec![0, 1]), Gf7::Three).unwrap();
    a.insert(simplex(vec![1, 2]), Gf7::One).unwrap();
    let mut b: Chain<Gf7> = Chain::zero(1);
    b.insert(simplex(vec![0, 1]), Gf7::Four).unwrap();
    b.insert(simplex(vec![2, 3]), Gf7::Six).unwrap();
    let sum = a.add(&b).ok().unwrap();
    assert_eq!(sum.len(), 2);
    assert_eq!(sum.coefficient(&simplex(vec![0, 1])), Gf7::Zero);
    assert_eq!(sum.coefficient(&simplex(vec![1, 2])), Gf7::One);
    assert_eq!(sum.coefficient(&simplex(vec![2, 3])), Gf7::Six);
    let other: Chain<Gf7> = Chain::zero(2);
    assert_eq!(a.add(&other).err(), Some(TopologyError::DimensionMismatch));
}
