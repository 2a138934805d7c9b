use cova::boolean::Boolean;
use cova::complex::SimplicialComplex;
use cova::error::TopologyError;
use cova::matrix::Matrix;
use cova::modular::Gf7;
use cova::rings::Ring;
use cova::simplex::Simplex;

fn simplex(vertices: Vec<usize>) -> Simplex {
    Simplex::new(vertices.len() - 1, vertices).unwrap()
}

fn residues(entries: &[u64]) -> Vec<Gf7> {
    entries.iter().map(|&n| Gf7::new(n)).collect()
}

#[test]
fn filled_triangle_has_one_component_and_no_holes() {
    let mut complex = SimplicialComplex::new();
    complex.join_element(simplex(vec![0, 1, 2]));
    assert_eq!(complex.homology::<Boolean>(0), 1);
    assert_eq!(complex.homology::<Boolean>(1), 0);
    assert_eq!(complex.homology::<Boolean>(2), 0);
    assert_eq!(complex.homology::<Gf7>(0), 1);
    assert_eq!(complex.homology::<Gf7>(1), 0);
    assert_eq!(complex.homology::<Gf7>(2), 0);
}

#[test]
fn hollow_triangle_has_one_loop() {
    let mut complex = SimplicialComplex::new();
    complex.join_element(simplex(vec![0, 1]));
    complex.join_element(simplex(vec![1, 2]));
    complex.join_element(simplex(vec![0, 2]));
    assert_eq!(complex.count(0), 3);
    assert_eq!(complex.count(1), 3);
    assert_eq!(complex.homology::<Boolean>(0), 1);
    assert_eq!(complex.homology::<Boolean>(1), 1);
    assert_eq!(complex.homology::<Gf7>(0), 1);
    assert_eq!(complex.homology::<Gf7>(1), 1);
}

#[test]
fn dimensions_without_cells_have_betti_number_zero() {
    let mut complex = SimplicialComplex::new();
    assert_eq!(complex.homology::<Boolean>(0), 0);
    complex.join_element(simplex(vec![0, 1]));
    assert_eq!(complex.homology::<Boolean>(2), 0);
    assert_eq!(complex.homology::<Boolean>(usize::MAX), 0);
}

#[test]
fn hollow_tetrahedron_has_one_void() {
    let mut complex = SimplicialComplex::new();
    complex.join_element(simplex(vec![0, 1, 2]));
    complex.join_element(simplex(vec![0, 1, 3]));
    complex.join_element(simplex(vec![0, 2, 3]));
    complex.join_element(simplex(vec![1, 2, 3]));
    assert_eq!(complex.homology::<Gf7>(0), 1);
    assert_eq!(complex.homology::<Gf7>(1), 0);
    assert_eq!(complex.homology::<Gf7>(2), 1);
    assert_eq!(complex.homology::<Boolean>(2), 1);
}

#[test]
fn two_components() {
    let mut complex = SimplicialComplex::new();
    complex.join_element(simplex(vec![0, 1]));
    complex.join_element(simplex(vec![2]));
    assert_eq!(complex.homology::<Boolean>(0), 2);
    assert_eq!(complex.homology::<Gf7>(0), 2);
}

#[test]
fn boundary_matrix_holds_signed_incidence() {
    let mut complex = SimplicialComplex::new();
    complex.join_element(simplex(vec![0, 1, 2]));
    let d2 = complex.boundary_matrix::<Gf7>(2);
    assert_eq!((d2.rows(), d2.cols()), (3, 1));
    assert_eq!(d2.get(0, 0), Gf7::One);
    assert_eq!(d2.get(1, 0), Gf7::Six);
    assert_eq!(d2.get(2, 0), Gf7::One);
    let d1 = complex.boundary_matrix::<Gf7>(1);
    assert_eq!((d1.rows(), d1.cols()), (3, 3));
    // Column 0 is the edge {1, 2}: vertex 2 (handle 0) with +1, vertex 1
    // (handle 1) with -1.
    assert_eq!(d1.get(0, 0), Gf7::One);
    assert_eq!(d1.get(1, 0), Gf7::Six);
    assert_eq!(d1.get(2, 0), Gf7::Zero);
    let d0 = complex.boundary_matrix::<Gf7>(0);
    assert_eq!((d0.rows(), d0.cols()), (0, 3));
    assert_eq!(d1.rank(), 2);
    assert_eq!(d2.rank(), 1);
    assert_eq!(d0.rank(), 0);
}

#[test]
fn rank_by_elimination() {
    let m = Matrix::from_row_major(3, 3, residues(&[1, 2, 3, 2, 4, 6, 0, 1, 1])).ok().unwrap();
    assert_eq!(m.rank(), 2);
    let identity = Matrix::from_row_major(2, 2, residues(&[1, 0, 0, 1])).ok().unwrap();
    assert_eq!(identity.rank(), 2);
    let zero: Matrix<Gf7> = Matrix::zeros(4, 3);
    assert_eq!(zero.rank(), 0);
    let wide = Matrix::from_row_major(2, 4, residues(&[0, 0, 3, 1, 0, 0, 6, 2])).ok().unwrap();
    assert_eq!(wide.rank(), 1);
    let bits = Matrix::from_row_major(
        3,
        3,
        vec![
            Boolean(true),
            Boolean(true),
            Boolean(false),
            Boolean(false),
            Boolean(true),
            Boolean(true),
            Boolean(true),
            Boolean(false),
            Boolean(true),
        ],
    )
    .ok()
    .unwrap();
    assert_eq!(bits.rank(), 2);
}

#[test]
fn matrices_from_row_major_data() {
    let m = Matrix::from_row_major(2, 3, residues(&[1, 2, 3, 4, 5, 6])).ok().unwrap();
    assert_eq!((m.rows(), m.cols()), (2, 3));
    assert_eq!(m.get(0, 2), Gf7::Three);
    assert_eq!(m.get(1, 0), Gf7::Four);
    assert_eq!(
        Matrix::from_row_major(2, 3, residues(&[1, 2, 3, 4, 5])).err(),
        Some(TopologyError::DimensionMismatch)
    );
    assert_eq!(
        Matrix::from_row_major(2, 2, residues(&[1, 2, 3, 4, 5])).err(),
        Some(TopologyError::DimensionMismatch)
    );
    let empty = Matrix::<Gf7>::from_row_major(0, 5, vec![]).ok().unwrap();
    assert_eq!((empty.rows(), empty.cols()), (0, 5));
}

#[test]
fn matrix_times_vector() {
    let mut m = Matrix::from_row_major(2, 2, residues(&[1, 2, 3, 4])).ok().unwrap();
    assert_eq!(m.apply(&residues(&[1, 1])).unwrap(), residues(&[3, 0]));
    m.set(0, 1, Gf7::zero());
    assert_eq!(m.apply(&residues(&[5, 6])).unwrap(), residues(&[5, 4]));
    assert_eq!(m.apply(&residues(&[1])).unwrap_err(), TopologyError::DimensionMismatch);
}
