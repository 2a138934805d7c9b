use cova::boolean::Boolean;
use cova::complex::SimplicialComplex;
use cova::cube::Cube;
use cova::cubical::CubicalComplex;
use cova::error::TopologyError;
use cova::matrix::Matrix;
use cova::modular::Gf7;
use cova::rings::Ring;
use cova::simplex::Simplex;

fn over_seven(rows: usize, cols: usize, entries: &[u64]) -> Matrix<Gf7> {
    Matrix::from_row_major(rows, cols, entries.iter().map(|&n| Gf7::new(n)).collect())
        .ok()
        .unwrap()
}

fn entries(m: &Matrix<Gf7>) -> Vec<Vec<u8>> {
    (0..m.rows()).map(|i| (0..m.cols()).map(|j| m.get(i, j).value()).collect()).collect()
}

fn is_zero(m: &Matrix<Gf7>) -> bool {
    (0..m.rows()).all(|i| (0..m.cols()).all(|j| m.get(i, j).is_zero()))
}

#[test]
fn echelon_form_lists_pivot_rows_and_columns() {
    let m = over_seven(3, 3, &[1, 2, 3, 2, 4, 6, 0, 1, 1]);
    let (form, pivots) = m.echelon();
    assert_eq!(pivots, vec![0, 1]);
    assert_eq!(entries(&form), vec![vec![1, 2, 3], vec![0, 1, 1]]);
    assert_eq!(form.rows(), 2);
    assert_eq!(form.cols(), 3);
    assert_eq!(m.rank(), 2);
}

#[test]
fn echelon_form_skips_columns_without_a_pivot() {
    let wide = over_seven(2, 4, &[0, 0, 3, 1, 0, 0, 6, 2]);
    let (form, pivots) = wide.echelon();
    assert_eq!(pivots, vec![2]);
    assert_eq!(entries(&form), vec![vec![0, 0, 3, 1]]);
}

#[test]
fn echelon_form_takes_the_first_row_with_an_entry() {
    let m = over_seven(3, 2, &[0, 1, 2, 1, 1, 0]);
    let (form, pivots) = m.echelon();
    assert_eq!(pivots, vec![0, 1]);
    assert_eq!(entries(&form), vec![vec![2, 1], vec![0, 1]]);
}

#[test]
fn echelon_form_of_nothing_is_empty() {
    let zero = over_seven(2, 3, &[0, 0, 0, 0, 0, 0]);
    let (form, pivots) = zero.echelon();
    assert!(pivots.is_empty());
    assert_eq!(form.rows(), 0);
    assert_eq!(form.cols(), 3);
    let none = over_seven(0, 4, &[]);
    assert!(none.echelon().1.is_empty());
    assert_eq!(none.rank(), 0);
}

#[test]
fn matrix_times_matrix() {
    let a = over_seven(2, 2, &[1, 2, 3, 4]);
    let b = over_seven(2, 2, &[5, 6, 0, 1]);
    let product = a.multiply(&b).ok().unwrap();
    assert_eq!(entries(&product), vec![vec![5, 1], vec![1, 1]]);
    let other_way = b.multiply(&a).ok().unwrap();
    assert_eq!(entries(&other_way), vec![vec![2, 6], vec![3, 4]]);
}

#[test]
fn matrix_product_takes_its_shape_from_both() {
    let a = over_seven(1, 3, &[1, 2, 3]);
    let b = over_seven(3, 2, &[1, 0, 0, 1, 1, 1]);
    let product = a.multiply(&b).ok().unwrap();
    assert_eq!(product.rows(), 1);
    assert_eq!(product.cols(), 2);
    assert_eq!(entries(&product), vec![vec![4, 5]]);
}

#[test]
fn matrix_product_rejects_shapes_that_do_not_meet() {
    let a = over_seven(2, 3, &[1, 2, 3, 4, 5, 6]);
    let b = over_seven(2, 2, &[1, 0, 0, 1]);
    assert_eq!(a.multiply(&b).err(), Some(TopologyError::DimensionMismatch));
    assert!(b.multiply(&a).is_ok());
}

#[test]
fn boundary_matrices_of_a_tetrahedron_multiply_to_zero() {
    let mut complex = SimplicialComplex::new();
    complex.join_element(Simplex::new(3, vec![0, 1, 2, 3]).unwrap());
    for d in 1..3 {
        let low = complex.boundary_matrix::<Gf7>(d);
        let high = complex.boundary_matrix::<Gf7>(d + 1);
        assert!(is_zero(&low.multiply(&high).ok().unwrap()));
        assert!(low.rank() + high.rank() <= complex.count(d));
    }
    assert_eq!(complex.boundary_matrix::<Gf7>(1).rank(), 3);
    assert_eq!(complex.boundary_matrix::<Gf7>(2).rank(), 3);
    assert_eq!(complex.boundary_matrix::<Gf7>(3).rank(), 1);
}

#[test]
fn boundary_matrices_of_a_cube_multiply_to_zero() {
    let mut complex = CubicalComplex::new();
    complex.join_element(Cube::new(3, vec![0, 0, 0], vec![0, 1, 2]).unwrap());
    for d in 1..3 {
        let low = complex.boundary_matrix::<Gf7>(d);
        let high = complex.boundary_matrix::<Gf7>(d + 1);
        assert!(is_zero(&low.multiply(&high).ok().unwrap()));
        assert!(low.rank() + high.rank() <= complex.count(d));
    }
    assert_eq!(complex.boundary_matrix::<Gf7>(1).rank(), 7);
    assert_eq!(complex.boundary_matrix::<Gf7>(2).rank(), 5);
    assert_eq!(complex.boundary_matrix::<Gf7>(3).rank(), 1);
    assert_eq!(complex.boundary_matrix::<Boolean>(2).rank(), 5);
}
