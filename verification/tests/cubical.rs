use cova::boolean::Boolean;
use cova::cube::Cube;
use cova::cubical::CubicalComplex;
use cova::error::TopologyError;
use cova::modular::Gf7;
use cova::rings::Ring;
use cova::simplex::Sign;

fn square(x: usize, y: usize) -> Cube {
    Cube::new(2, vec![x, y], vec![0, 1]).unwrap()
}

fn edge(x: usize, y: usize, axis: usize) -> Cube {
    Cube::new(1, vec![x, y], vec![axis]).unwrap()
}

#[test]
fn cube_is_canonical_whatever_the_order_of_its_axes() {
    let a = Cube::new(2, vec![4, 5, 6], vec![2, 0]).unwrap();
    let b = Cube::new(2, vec![4, 5, 6], vec![0, 2]).unwrap();
    assert_eq!(a.axes(), &vec![0, 2]);
    assert_eq!(a.base(), &vec![4, 5, 6]);
    assert_eq!(a.dimension(), 2);
    assert!(a.same_as(&b));
    assert!(!a.same_as(&Cube::new(2, vec![4, 5, 6], vec![0, 1]).unwrap()));
    assert!(!a.same_as(&Cube::new(2, vec![4, 5, 7], vec![0, 2]).unwrap()));
    assert!(a.clone().same_as(&a));
}

#[test]
fn cube_rejects_a_wrong_number_of_axes() {
    assert_eq!(Cube::new(2, vec![0, 0], vec![0]).unwrap_err(), TopologyError::Construction);
    assert_eq!(Cube::new(0, vec![0, 0], vec![1]).unwrap_err(), TopologyError::Construction);
    assert!(Cube::new(0, vec![0, 0], vec![]).is_ok());
}

#[test]
fn cube_rejects_repeated_and_foreign_axes() {
    assert_eq!(Cube::new(2, vec![0, 0], vec![1, 1]).unwrap_err(), TopologyError::Construction);
    assert_eq!(Cube::new(1, vec![0, 0], vec![2]).unwrap_err(), TopologyError::Construction);
    assert_eq!(Cube::new(1, vec![], vec![0]).unwrap_err(), TopologyError::Construction);
}

#[test]
fn cube_rejects_a_corner_without_room() {
    assert_eq!(
        Cube::new(1, vec![usize::MAX, 0], vec![0]).unwrap_err(),
        TopologyError::Construction
    );
    assert!(Cube::new(1, vec![usize::MAX, 0], vec![1]).is_ok());
    assert!(Cube::new(1, vec![usize::MAX - 1, 0], vec![0]).is_ok());
}

#[test]
fn point_is_a_cube_of_dimension_zero() {
    let p = Cube::point(vec![3, 9]);
    assert_eq!(p.dimension(), 0);
    assert_eq!(p.base(), &vec![3, 9]);
    assert!(p.axes().is_empty());
    assert!(p.faces().is_empty());
}

#[test]
fn faces_of_a_square_come_axis_by_axis_near_side_first() {
    let faces = square(3, 7).faces();
    assert_eq!(faces.len(), 4);
    assert!(faces[0].0.same_as(&edge(3, 7, 1)));
    assert_eq!(faces[0].1, Sign::Negative);
    assert!(faces[1].0.same_as(&edge(4, 7, 1)));
    assert_eq!(faces[1].1, Sign::Positive);
    assert!(faces[2].0.same_as(&edge(3, 7, 0)));
    assert_eq!(faces[2].1, Sign::Positive);
    assert!(faces[3].0.same_as(&edge(3, 8, 0)));
    assert_eq!(faces[3].1, Sign::Negative);
}

#[test]
fn lower_and_upper_faces_of_an_edge_are_its_ends() {
    let e = edge(2, 5, 1);
    assert!(e.lower(0).same_as(&Cube::point(vec![2, 5])));
    assert!(e.upper(0).same_as(&Cube::point(vec![2, 6])));
    let faces = e.faces();
    assert_eq!(faces[0].1, Sign::Negative);
    assert_eq!(faces[1].1, Sign::Positive);
}

#[test]
fn joining_a_square_joins_its_edges_and_corners() {
    let mut complex = CubicalComplex::new();
    assert_eq!(complex.levels(), 0);
    let handle = complex.join_element(square(0, 0));
    assert_eq!(handle, 0);
    assert_eq!(complex.levels(), 3);
    assert_eq!(complex.count(0), 4);
    assert_eq!(complex.count(1), 4);
    assert_eq!(complex.count(2), 1);
    assert_eq!(complex.count(3), 0);
    assert_eq!(complex.cells(0), vec![0, 1, 2, 3]);
    assert_eq!(complex.cells(2), vec![0]);
    assert!(complex.cells(5).is_empty());
}

#[test]
fn cubes_get_their_handles_in_the_order_of_joining() {
    let mut complex = CubicalComplex::new();
    complex.join_element(square(0, 0));
    assert!(complex.cell(0, 0).unwrap().same_as(&Cube::point(vec![0, 0])));
    assert!(complex.cell(0, 1).unwrap().same_as(&Cube::point(vec![0, 1])));
    assert!(complex.cell(0, 2).unwrap().same_as(&Cube::point(vec![1, 0])));
    assert!(complex.cell(0, 3).unwrap().same_as(&Cube::point(vec![1, 1])));
    assert!(complex.cell(1, 0).unwrap().same_as(&edge(0, 0, 1)));
    assert!(complex.cell(1, 1).unwrap().same_as(&edge(1, 0, 1)));
    assert!(complex.cell(1, 2).unwrap().same_as(&edge(0, 0, 0)));
    assert!(complex.cell(1, 3).unwrap().same_as(&edge(0, 1, 0)));
    assert_eq!(complex.handle_of(&edge(0, 1, 0)), Some(3));
    assert_eq!(complex.handle_of(&edge(5, 5, 0)), None);
    assert_eq!(complex.cell(1, 4).unwrap_err(), TopologyError::Lookup);
    assert_eq!(complex.cell(3, 0).unwrap_err(), TopologyError::Lookup);
}

#[test]
fn joining_a_cube_twice_changes_nothing() {
    let mut complex = CubicalComplex::new();
    let first = complex.join_element(square(0, 0));
    let second = complex.join_element(square(0, 0));
    assert_eq!(first, second);
    assert_eq!(complex.count(0), 4);
    assert_eq!(complex.count(1), 4);
    assert_eq!(complex.count(2), 1);
    assert_eq!(complex.join_element(edge(0, 0, 0)), 2);
    assert_eq!(complex.count(1), 4);
}

#[test]
fn neighbouring_squares_share_an_edge() {
    let mut complex = CubicalComplex::new();
    complex.join_element(square(0, 0));
    assert_eq!(complex.join_element(square(1, 0)), 1);
    assert_eq!(complex.count(0), 6);
    assert_eq!(complex.count(1), 7);
    assert_eq!(complex.count(2), 2);
    assert!(complex.contains(&edge(1, 0, 1)));
    assert!(complex.contains(&edge(2, 0, 1)));
    assert!(!complex.contains(&edge(3, 0, 1)));
    assert!(complex.contains_handle(1, 6));
    assert!(!complex.contains_handle(1, 7));
}

#[test]
fn boundary_of_a_square_names_its_edges_with_signs() {
    let mut complex = CubicalComplex::new();
    complex.join_element(square(0, 0));
    assert_eq!(
        complex.boundary(2, 0).unwrap(),
        vec![
            (0, Sign::Negative),
            (1, Sign::Positive),
            (2, Sign::Positive),
            (3, Sign::Negative)
        ]
    );
    assert_eq!(complex.boundary(1, 2).unwrap(), vec![(0, Sign::Negative), (2, Sign::Positive)]);
    assert!(complex.boundary(0, 1).unwrap().is_empty());
    assert_eq!(complex.boundary(2, 1).unwrap_err(), TopologyError::Lookup);
    assert_eq!(complex.boundary(7, 0).unwrap_err(), TopologyError::Lookup);
}

#[test]
fn boundary_matrix_of_a_square_holds_the_signs_of_its_edges() {
    let mut complex = CubicalComplex::new();
    complex.join_element(square(0, 0));
    let m = complex.boundary_matrix::<Gf7>(2);
    assert_eq!(m.rows(), 4);
    assert_eq!(m.cols(), 1);
    assert!(m.get(0, 0).equals(Gf7::new(6)));
    assert!(m.get(1, 0).equals(Gf7::new(1)));
    assert!(m.get(2, 0).equals(Gf7::new(1)));
    assert!(m.get(3, 0).equals(Gf7::new(6)));
    let edges = complex.boundary_matrix::<Gf7>(1);
    assert_eq!(edges.rows(), 4);
    assert_eq!(edges.cols(), 4);
    assert!(edges.get(0, 2).equals(Gf7::new(6)));
    assert!(edges.get(2, 2).equals(Gf7::new(1)));
    assert!(edges.get(1, 2).equals(Gf7::new(0)));
    assert!(edges.get(3, 2).equals(Gf7::new(0)));
    let points = complex.boundary_matrix::<Gf7>(0);
    assert_eq!(points.rows(), 0);
    assert_eq!(points.cols(), 4);
}

#[test]
fn filled_square_has_one_component_and_no_holes() {
    let mut complex = CubicalComplex::new();
    complex.join_element(square(0, 0));
    assert_eq!(complex.homology::<Boolean>(0), 1);
    assert_eq!(complex.homology::<Boolean>(1), 0);
    assert_eq!(complex.homology::<Boolean>(2), 0);
    assert_eq!(complex.homology::<Gf7>(0), 1);
    assert_eq!(complex.homology::<Gf7>(1), 0);
    assert_eq!(complex.homology::<Gf7>(2), 0);
    assert_eq!(complex.homology::<Gf7>(3), 0);
}

#[test]
fn hollow_square_has_one_loop() {
    let mut complex = CubicalComplex::new();
    complex.join_element(edge(0, 0, 0));
    complex.join_element(edge(0, 0, 1));
    complex.join_element(edge(1, 0, 1));
    complex.join_element(edge(0, 1, 0));
    assert_eq!(complex.count(0), 4);
    assert_eq!(complex.count(1), 4);
    assert_eq!(complex.homology::<Boolean>(0), 1);
    assert_eq!(complex.homology::<Boolean>(1), 1);
    assert_eq!(complex.homology::<Gf7>(0), 1);
    assert_eq!(complex.homology::<Gf7>(1), 1);
}

#[test]
fn two_far_points_are_two_components() {
    let mut complex = CubicalComplex::new();
    complex.join_element(Cube::point(vec![0, 0]));
    complex.join_element(Cube::point(vec![9, 9]));
    assert_eq!(complex.homology::<Boolean>(0), 2);
    assert_eq!(complex.homology::<Boolean>(1), 0);
    assert_eq!(CubicalComplex::new().homology::<Boolean>(0), 0);
}

#[test]
fn hollow_cube_encloses_one_void() {
    let mut complex = CubicalComplex::new();
    complex.join_element(Cube::new(2, vec![0, 0, 0], vec![0, 1]).unwrap());
    complex.join_element(Cube::new(2, vec![0, 0, 1], vec![0, 1]).unwrap());
    complex.join_element(Cube::new(2, vec![0, 0, 0], vec![0, 2]).unwrap());
    complex.join_element(Cube::new(2, vec![0, 1, 0], vec![0, 2]).unwrap());
    complex.join_element(Cube::new(2, vec![0, 0, 0], vec![1, 2]).unwrap());
    complex.join_element(Cube::new(2, vec![1, 0, 0], vec![1, 2]).unwrap());
    assert_eq!(complex.count(0), 8);
    assert_eq!(complex.count(1), 12);
    assert_eq!(complex.count(2), 6);
    assert_eq!(complex.homology::<Gf7>(0), 1);
    assert_eq!(complex.homology::<Gf7>(1), 0);
    assert_eq!(complex.homology::<Gf7>(2), 1);
    let mut solid = CubicalComplex::new();
    solid.join_element(Cube::new(3, vec![0, 0, 0], vec![0, 1, 2]).unwrap());
    assert_eq!(solid.count(2), 6);
    assert_eq!(solid.count(3), 1);
    assert_eq!(solid.homology::<Gf7>(2), 0);
    assert_eq!(solid.homology::<Gf7>(3), 0);
}
