use cova::complex::SimplicialComplex;
use cova::error::TopologyError;
use cova::matrix::Matrix;
use cova::modular::Gf7;
use cova::sheaf::{Assignment, Restriction, Sheaf};
use cova::simplex::Simplex;

fn residues(entries: &[u64]) -> Vec<Gf7> {
    entries.iter().map(|&n| Gf7::new(n)).collect()
}

// One edge between two vertices. Joining the edge {0, 1} lists the vertex 1
// under handle 0 and the vertex 0 under handle 1.
fn edge() -> (SimplicialComplex, usize, usize, usize) {
    let mut complex = SimplicialComplex::new();
    let e01 = complex.join_element(Simplex::new(1, vec![0, 1]).unwrap());
    let v0 = complex.handle_of(&Simplex::vertex(0)).unwrap();
    let v1 = complex.handle_of(&Simplex::vertex(1)).unwrap();
    (complex, v0, v1, e01)
}

fn restrictions(v0: usize, v1: usize, e01: usize) -> Vec<Restriction<Gf7>> {
    vec![
        Restriction {
            dimension: 0,
            parent: v0,
            child: e01,
            map: Matrix::from_row_major(2, 1, residues(&[1, 2])).ok().unwrap(),
        },
        Restriction {
            dimension: 0,
            parent: v1,
            child: e01,
            map: Matrix::from_row_major(2, 2, residues(&[2, 0, 0, 2])).ok().unwrap(),
        },
    ]
}

#[test]
fn consistent_assignment_is_a_global_section() {
    let (complex, v0, v1, e01) = edge();
    let sheaf = Sheaf::new(complex, restrictions(v0, v1, e01)).ok().unwrap();
    assert_eq!(sheaf.len(), 2);
    assert_eq!(sheaf.complex().count(1), 1);
    let section = Assignment {
        entries: vec![
            (0, v0, residues(&[2])),
            (0, v1, residues(&[1, 2])),
            (1, e01, residues(&[2, 4])),
        ],
    };
    assert_eq!(sheaf.is_global_section(&section), Ok(true));
}

#[test]
fn violated_restriction_is_no_global_section() {
    let (complex, v0, v1, e01) = edge();
    let sheaf = Sheaf::new(complex, restrictions(v0, v1, e01)).ok().unwrap();
    let section = Assignment {
        entries: vec![
            (0, v0, residues(&[2])),
            (0, v1, residues(&[1, 2])),
            (1, e01, residues(&[2, 5])),
        ],
    };
    assert_eq!(sheaf.is_global_section(&section), Ok(false));
}

#[test]
fn missing_stalk_assignment_is_a_lookup_failure() {
    let (complex, v0, v1, e01) = edge();
    let sheaf = Sheaf::new(complex, restrictions(v0, v1, e01)).ok().unwrap();
    let section =
        Assignment { entries: vec![(0, v0, residues(&[2])), (1, e01, residues(&[2, 4]))] };
    assert_eq!(sheaf.is_global_section(&section), Err(TopologyError::Lookup));
    assert_eq!(section.find(0, v0), Some(0));
    assert_eq!(section.find(0, v1), None);
}

#[test]
fn vector_of_the_wrong_length_is_a_shape_mismatch() {
    let (complex, v0, v1, e01) = edge();
    let sheaf = Sheaf::new(complex, restrictions(v0, v1, e01)).ok().unwrap();
    let section = Assignment {
        entries: vec![
            (0, v0, residues(&[2, 1])),
            (0, v1, residues(&[1, 2])),
            (1, e01, residues(&[2, 4])),
        ],
    };
    assert_eq!(sheaf.is_global_section(&section), Err(TopologyError::DimensionMismatch));
}

#[test]
fn partial_sheaf_is_allowed() {
    let (complex, v0, v1, e01) = edge();
    let mut some = restrictions(v0, v1, e01);
    some.pop();
    let sheaf = Sheaf::new(complex, some).ok().unwrap();
    let section =
        Assignment { entries: vec![(0, v0, residues(&[3])), (1, e01, residues(&[3, 6]))] };
    assert_eq!(sheaf.is_global_section(&section), Ok(true));
    let empty: Sheaf<Gf7> = Sheaf::new(SimplicialComplex::new(), vec![]).ok().unwrap();
    assert_eq!(empty.is_global_section(&Assignment { entries: vec![] }), Ok(true));
}

#[test]
fn restriction_between_absent_cells_is_a_lookup_failure() {
    let (complex, v0, _, e01) = edge();
    let far = vec![Restriction {
        dimension: 0,
        parent: v0,
        child: e01 + 1,
        map: Matrix::from_row_major(1, 1, residues(&[1])).ok().unwrap(),
    }];
    assert_eq!(Sheaf::new(complex, far).err(), Some(TopologyError::Lookup));
}

#[test]
fn malformed_restrictions_are_construction_failures() {
    let (complex, v0, v1, e01) = edge();
    let mut clash = restrictions(v0, v1, e01);
    // The two maps into the edge disagree on the size of its stalk.
    clash[1].map = Matrix::from_row_major(3, 2, residues(&[2, 0, 0, 2, 0, 0])).ok().unwrap();
    assert_eq!(Sheaf::new(complex, clash).err(), Some(TopologyError::Construction));

    let (complex, v0, v1, e01) = edge();
    let mut twice = restrictions(v0, v1, e01);
    twice[1].parent = v0;
    twice[1].map = Matrix::from_row_major(2, 1, residues(&[1, 2])).ok().unwrap();
    assert_eq!(Sheaf::new(complex, twice).err(), Some(TopologyError::Construction));

    // A vertex that is no face of the edge.
    let mut complex = SimplicialComplex::new();
    let e01 = complex.join_element(Simplex::new(1, vec![0, 1]).unwrap());
    let v2 = complex.join_element(Simplex::vertex(2));
    let stray = vec![Restriction {
        dimension: 0,
        parent: v2,
        child: e01,
        map: Matrix::from_row_major(1, 1, residues(&[1])).ok().unwrap(),
    }];
    assert_eq!(Sheaf::new(complex, stray).err(), Some(TopologyError::Construction));
}

#[test]
fn coboundary_lays_signed_restrictions_in_blocks() {
    let (complex, v0, v1, e01) = edge();
    let sheaf = Sheaf::new(complex, restrictions(v0, v1, e01)).ok().unwrap();
    // The vertex 1 has handle 0 and the vertex 0 has handle 1.
    assert_eq!((v1, v0, e01), (0, 1, 0));
    assert_eq!(sheaf.stalk_dimension(0, v0), 1);
    assert_eq!(sheaf.stalk_dimension(0, v1), 2);
    assert_eq!(sheaf.stalk_dimension(1, e01), 2);
    assert_eq!(sheaf.stalk_dimension(1, 5), 0);
    assert_eq!(sheaf.stalk_dimensions(0), vec![2, 1]);
    let delta = sheaf.coboundary(0).ok().unwrap();
    assert_eq!((delta.rows(), delta.cols()), (2, 3));
    // The edge {0, 1} has the vertex 1 as its face at position 0, with the
    // sign +, and the vertex 0 at position 1, with the sign -.
    let expected = [[2u64, 0, 6], [0, 2, 5]];
    for i in 0..2 {
        for j in 0..3 {
            assert_eq!(delta.get(i, j), Gf7::new(expected[i][j]));
        }
    }
    // A global section lies in the kernel of the coboundary.
    assert_eq!(delta.apply(&residues(&[1, 2, 2])).unwrap(), residues(&[0, 0]));
    let top = sheaf.coboundary(1).ok().unwrap();
    assert_eq!((top.rows(), top.cols()), (0, 2));
    let far = sheaf.coboundary(usize::MAX).ok().unwrap();
    assert_eq!((far.rows(), far.cols()), (0, 0));
}
