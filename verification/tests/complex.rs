use cova::complex::SimplicialComplex;
use cova::error::TopologyError;
use cova::simplex::{copied, sorted_distinct, vertices_equal, without, Sign, Simplex};

fn simplex(vertices: Vec<usize>) -> Simplex {
    Simplex::new(vertices.len() - 1, vertices).unwrap()
}

#[test]
fn simplex_is_canonical_whatever_the_order() {
    let a = Simplex::new(2, vec![5, 1, 3]).unwrap();
    let b = Simplex::new(2, vec![3, 5, 1]).unwrap();
    assert_eq!(a.vertices(), &vec![1, 3, 5]);
    assert_eq!(a.dimension(), 2);
    assert!(a.same_as(&b));
    assert!(!a.same_as(&simplex(vec![1, 3, 6])));
}

#[test]
fn simplex_rejects_a_wrong_number_of_generators() {
    assert_eq!(Simplex::new(2, vec![0, 1]).unwrap_err(), TopologyError::Construction);
    assert_eq!(Simplex::new(0, vec![]).unwrap_err(), TopologyError::Construction);
    assert_eq!(Simplex::new(1, vec![0, 1, 2]).unwrap_err(), TopologyError::Construction);
    assert_eq!(Simplex::new(usize::MAX, vec![0]).unwrap_err(), TopologyError::Construction);
}

#[test]
fn simplex_rejects_repeated_generators() {
    assert_eq!(Simplex::new(2, vec![4, 2, 4]).unwrap_err(), TopologyError::Construction);
    assert_eq!(Simplex::new(1, vec![7, 7]).unwrap_err(), TopologyError::Construction);
}

#[test]
fn faces_omit_one_vertex_with_alternating_signs() {
    let triangle = simplex(vec![0, 1, 2]);
    let faces = triangle.faces();
    assert_eq!(faces.len(), 3);
    assert_eq!(faces[0].0.vertices(), &vec![1, 2]);
    assert_eq!(faces[0].1, Sign::Positive);
    assert_eq!(faces[1].0.vertices(), &vec![0, 2]);
    assert_eq!(faces[1].1, Sign::Negative);
    assert_eq!(faces[2].0.vertices(), &vec![0, 1]);
    assert_eq!(faces[2].1, Sign::Positive);
    assert_eq!(faces[0].0.dimension(), 1);
    assert!(Simplex::vertex(9).faces().is_empty());
    assert_eq!(triangle.face(1).vertices(), &vec![0, 2]);
    assert_eq!(triangle.extended(7).vertices(), &vec![0, 1, 2, 7]);
    assert_eq!(triangle.clone().vertices(), &vec![0, 1, 2]);
}

#[test]
fn joining_a_cell_joins_its_faces_first() {
    let mut complex = SimplicialComplex::new();
    let handle = complex.join_element(simplex(vec![0, 1, 2]));
    assert_eq!(handle, 0);
    assert_eq!(complex.levels(), 3);
    assert_eq!(complex.count(0), 3);
    assert_eq!(complex.count(1), 3);
    assert_eq!(complex.count(2), 1);
    assert_eq!(complex.count(3), 0);
    // Faces are joined in the order of the omitted position, each after
    // its own faces.
    assert_eq!(complex.cell(1, 0).unwrap().vertices(), &vec![1, 2]);
    assert_eq!(complex.cell(1, 1).unwrap().vertices(), &vec![0, 2]);
    assert_eq!(complex.cell(1, 2).unwrap().vertices(), &vec![0, 1]);
    assert_eq!(complex.cell(0, 0).unwrap().vertices(), &vec![2]);
    assert_eq!(complex.cell(0, 1).unwrap().vertices(), &vec![1]);
    assert_eq!(complex.cell(0, 2).unwrap().vertices(), &vec![0]);
    assert_eq!(complex.cells(1), vec![0, 1, 2]);
    assert_eq!(complex.cells(5), Vec::<usize>::new());
}

#[test]
fn joining_twice_changes_nothing() {
    let mut complex = SimplicialComplex::new();
    let first = complex.join_element(simplex(vec![3, 4]));
    complex.join_element(simplex(vec![4, 5]));
    let counts = (complex.count(0), complex.count(1), complex.count(2));
    let again = complex.join_element(simplex(vec![4, 3]));
    assert_eq!(first, again);
    assert_eq!((complex.count(0), complex.count(1), complex.count(2)), counts);
    assert_eq!(counts, (3, 2, 0));
    let vertex = complex.join_element(simplex(vec![4]));
    assert_eq!(complex.count(0), 3);
    assert_eq!(complex.cell(0, vertex).unwrap().vertices(), &vec![4]);
}

#[test]
fn membership_and_handles() {
    let mut complex = SimplicialComplex::new();
    complex.join_element(simplex(vec![0, 1]));
    assert!(complex.contains(&simplex(vec![0])));
    assert!(complex.contains(&simplex(vec![1, 0])));
    assert!(!complex.contains(&simplex(vec![0, 2])));
    assert!(!complex.contains(&simplex(vec![0, 1, 2])));
    assert_eq!(complex.handle_of(&simplex(vec![0, 1])), Some(0));
    assert_eq!(complex.handle_of(&simplex(vec![5])), None);
    assert!(complex.contains_handle(0, 1));
    assert!(!complex.contains_handle(0, 2));
    assert!(!complex.contains_handle(1, 1));
}

#[test]
fn boundary_lists_face_handles_and_signs() {
    let mut complex = SimplicialComplex::new();
    complex.join_element(simplex(vec![0, 1, 2]));
    let faces = complex.boundary(2, 0).unwrap();
    assert_eq!(faces, vec![(0, Sign::Positive), (1, Sign::Negative), (2, Sign::Positive)]);
    let ends = complex.boundary(1, 2).unwrap();
    // The edge {0, 1}: omitting 0 leaves the vertex 1, omitting 1 leaves 0.
    assert_eq!(ends, vec![(1, Sign::Positive), (2, Sign::Negative)]);
    assert_eq!(complex.boundary(0, 0).unwrap(), vec![]);
}

#[test]
fn absent_handles_are_lookup_failures() {
    let mut complex = SimplicialComplex::new();
    complex.join_element(simplex(vec![0, 1]));
    assert_eq!(complex.boundary(1, 1).unwrap_err(), TopologyError::Lookup);
    assert_eq!(complex.boundary(4, 0).unwrap_err(), TopologyError::Lookup);
    assert_eq!(complex.cell(0, 2).unwrap_err(), TopologyError::Lookup);
}

#[test]
fn complex_from_cells_keeps_the_given_order() {
    let cells = vec![
        vec![Simplex::vertex(0), Simplex::vertex(1)],
        vec![simplex(vec![0, 1])],
    ];
    let complex = SimplicialComplex::from_cells(cells);
    assert_eq!(complex.count(0), 2);
    assert_eq!(complex.cell(0, 1).unwrap().vertices(), &vec![1]);
    assert_eq!(complex.handle_of(&simplex(vec![0, 1])), Some(0));
}

#[test]
fn labels_are_sorted_unless_one_repeats() {
    assert_eq!(sorted_distinct(&vec![4, 1, 3]), Some(vec![1, 3, 4]));
    assert_eq!(sorted_distinct(&vec![]), Some(vec![]));
    assert_eq!(sorted_distinct(&vec![2, 9, 2]), None);
}

#[test]
fn labels_are_copied_and_left_out() {
    let labels = vec![5, 6, 7];
    assert_eq!(copied(&labels), vec![5, 6, 7]);
    assert_eq!(without(&labels, 0), vec![6, 7]);
    assert_eq!(without(&labels, 1), vec![5, 7]);
    assert_eq!(without(&labels, 2), vec![5, 6]);
    assert!(vertices_equal(&labels, &copied(&labels)));
    assert!(!vertices_equal(&labels, &without(&labels, 2)));
}
