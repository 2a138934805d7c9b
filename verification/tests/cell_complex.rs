use cova::cell_complex::{join_all, CellComplex};
use cova::complex::SimplicialComplex;
use cova::cube::Cube;
use cova::cubical::CubicalComplex;
use cova::error::TopologyError;
use cova::simplex::{Sign, Simplex};

fn count_after_joining<C: CellComplex>(complex: &mut C, cell: C::Cell, dimension: usize) -> usize {
    complex.join_element(cell);
    complex.cells(dimension).len()
}

#[test]
fn both_kinds_of_complex_join_through_the_shared_interface() {
    let mut triangles = SimplicialComplex::new();
    let triangle = Simplex::new(2, vec![0, 1, 2]).unwrap();
    assert_eq!(count_after_joining(&mut triangles, triangle, 1), 3);
    let mut squares = CubicalComplex::new();
    let square = Cube::new(2, vec![0, 0], vec![0, 1]).unwrap();
    assert_eq!(count_after_joining(&mut squares, square, 1), 4);
}

#[test]
fn shared_interface_answers_as_the_complex_itself() {
    let mut complex = SimplicialComplex::new();
    let edge = Simplex::new(1, vec![3, 8]).unwrap();
    let handle = CellComplex::join_element(&mut complex, edge.clone());
    assert_eq!(handle, 0);
    assert!(CellComplex::contains(&complex, &edge));
    assert!(!CellComplex::contains(&complex, &Simplex::new(1, vec![3, 9]).unwrap()));
    assert_eq!(CellComplex::cells(&complex, 0), vec![0, 1]);
    assert_eq!(
        CellComplex::boundary(&complex, 1, 0).unwrap(),
        vec![(0, Sign::Positive), (1, Sign::Negative)]
    );
    assert_eq!(CellComplex::boundary(&complex, 1, 1).unwrap_err(), TopologyError::Lookup);
    let mut grid = CubicalComplex::new();
    let step = Cube::new(1, vec![2], vec![0]).unwrap();
    assert_eq!(CellComplex::join_element(&mut grid, step.clone()), 0);
    assert!(CellComplex::contains(&grid, &step));
    assert_eq!(
        CellComplex::boundary(&grid, 1, 0).unwrap(),
        vec![(0, Sign::Negative), (1, Sign::Positive)]
    );
}

#[test]
fn cells_are_joined_in_the_order_given() {
    let mut complex = SimplicialComplex::new();
    let handles = join_all(
        &mut complex,
        vec![
            Simplex::new(1, vec![0, 1]).unwrap(),
            Simplex::new(0, vec![7]).unwrap(),
            Simplex::new(1, vec![1, 2]).unwrap(),
            Simplex::new(1, vec![0, 1]).unwrap(),
        ],
    );
    assert_eq!(handles, vec![0, 2, 1, 0]);
    assert_eq!(complex.count(0), 4);
    assert_eq!(complex.count(1), 2);
    let mut grid = CubicalComplex::new();
    assert!(join_all(&mut grid, vec![]).is_empty());
    assert_eq!(grid.levels(), 0);
}
