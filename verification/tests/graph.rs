use std::collections::HashSet;

use cova::graph::{PointSet, UndirectedGraph, VertexOrEdge};

fn create_graph() -> UndirectedGraph {
    let mut vertices = HashSet::new();
    vertices.insert(1);
    vertices.insert(2);
    vertices.insert(3);
    vertices.insert(4);
    vertices.insert(5);

    let mut edges = Vec::new();
    edges.push((1, 2));
    edges.push((2, 3));
    edges.push((3, 4));

    UndirectedGraph::new(vertices, edges)
}

#[test]
fn graph_builds() {
    let graph = create_graph();
    assert_eq!(graph.vertices.len(), 5);
    assert_eq!(graph.edges.len(), 3);
}

#[test]
fn graph_points() {
    let graph = create_graph();
    assert_eq!(graph.points(), graph.vertices);
}

#[test]
fn neighborhood() {
    let graph = create_graph();
    assert_eq!(graph.neighborhood(1), vec![2].into_iter().collect::<HashSet<_>>());
    assert_eq!(graph.neighborhood(2), vec![1, 3].into_iter().collect::<HashSet<_>>());
    assert_eq!(graph.neighborhood(3), vec![2, 4].into_iter().collect::<HashSet<_>>());
    assert_eq!(graph.neighborhood(4), vec![3].into_iter().collect::<HashSet<_>>());
}

#[test]
fn distance() {
    let graph = create_graph();
    assert_eq!(graph.distance(1, 1), Some(0));
    assert_eq!(graph.distance(1, 2), Some(1));
    assert_eq!(graph.distance(1, 3), Some(2));
    assert_eq!(graph.distance(1, 4), Some(3));
    assert_eq!(graph.distance(1, 5), None);
}

#[test]
fn edge_membership_ignores_direction() {
    let mut vertices = HashSet::new();
    vertices.insert(50);
    vertices.insert(51);
    let graph = UndirectedGraph::new(vertices, vec![(50, 51)]);
    assert!(graph.contains(VertexOrEdge::Edge(50, 51)));
    assert!(graph.contains(VertexOrEdge::Edge(51, 50)));
    assert!(graph.contains(VertexOrEdge::Vertex(50)));
    assert!(!graph.contains(VertexOrEdge::Vertex(52)));
    assert!(!graph.contains(VertexOrEdge::Edge(50, 52)));
}

#[test]
fn reversed_and_repeated_edges_are_stored_once() {
    let mut vertices = HashSet::new();
    vertices.insert(1);
    vertices.insert(2);
    vertices.insert(3);
    let graph = UndirectedGraph::new(vertices, vec![(2, 1), (1, 2), (3, 2), (2, 1)]);
    assert_eq!(graph.edges, vec![(1, 2), (2, 3)]);
}

#[test]
fn distance_is_the_shortest_on_a_cycle() {
    let mut vertices = HashSet::new();
    for v in 0..6 {
        vertices.insert(v);
    }
    let graph =
        UndirectedGraph::new(vertices, vec![(0, 1), (1, 2), (2, 3), (3, 4), (4, 5), (5, 0)]);
    assert_eq!(graph.distance(0, 3), Some(3));
    assert_eq!(graph.distance(0, 4), Some(2));
    assert_eq!(graph.distance(0, 5), Some(1));
    assert_eq!(graph.distance(7, 7), Some(0));
    assert_eq!(graph.distance(7, 0), None);
}

#[test]
fn every_set_is_open() {
    let graph = create_graph();
    assert!(graph.is_open(HashSet::new()));
    assert!(graph.is_open(graph.points()));
}

#[test]
fn point_sets_intersect_and_unite() {
    let a: HashSet<usize> = vec![1, 2, 3].into_iter().collect();
    let b: HashSet<usize> = vec![2, 3, 4].into_iter().collect();
    assert_eq!(a.intersect(b.clone()), vec![2, 3].into_iter().collect::<HashSet<_>>());
    assert_eq!(PointSet::union(&a, b), vec![1, 2, 3, 4].into_iter().collect::<HashSet<_>>());
    assert_eq!(a.intersect(HashSet::new()), HashSet::new());
}

#[test]
fn edges_are_stored_in_the_order_of_their_first_occurrence() {
    let vertices: HashSet<usize> = vec![1, 2, 3, 4].into_iter().collect();
    let graph = UndirectedGraph::new(vertices, vec![(4, 3), (2, 1), (3, 4), (1, 2), (3, 1)]);
    assert_eq!(graph.edges, vec![(3, 4), (1, 2), (1, 3)]);
    let empty = UndirectedGraph::new(HashSet::new(), vec![]);
    assert!(empty.edges.is_empty());
    assert!(empty.vertices.is_empty());
}

#[test]
fn equal_sets_of_pairs_give_the_same_graph() {
    let one_vertices: HashSet<usize> = vec![1, 2, 3].into_iter().collect();
    let other_vertices: HashSet<usize> = vec![3, 1, 2, 1].into_iter().collect();
    let one = UndirectedGraph::new(one_vertices, vec![(1, 2), (2, 3)]);
    let other = UndirectedGraph::new(other_vertices, vec![(2, 3), (1, 2), (2, 3)]);
    assert_eq!(one.vertices, other.vertices);
    assert_eq!(one.edges.len(), other.edges.len());
    let one_edges: HashSet<(usize, usize)> = one.edges.iter().cloned().collect();
    let other_edges: HashSet<(usize, usize)> = other.edges.iter().cloned().collect();
    assert_eq!(one_edges, other_edges);
    for a in 0..5 {
        for b in 0..5 {
            assert_eq!(
                one.contains(VertexOrEdge::Edge(a, b)),
                other.contains(VertexOrEdge::Edge(a, b))
            );
            assert_eq!(one.distance(a, b), other.distance(a, b));
        }
    }
}
