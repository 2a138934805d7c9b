use cova::lattice::Lattice;

fn diamond() -> Lattice {
    let mut order = Lattice::new();
    order.add_relation(0, 1);
    order.add_relation(0, 2);
    order.add_relation(1, 3);
    order.add_relation(2, 3);
    order
}

#[test]
fn order_follows_chains_of_relations() {
    let order = diamond();
    assert!(order.leq(0, 1));
    assert!(order.leq(0, 3));
    assert!(order.leq(1, 3));
    assert!(!order.leq(3, 0));
    assert!(!order.leq(1, 2));
    assert!(!order.leq(2, 1));
    assert!(!order.leq(0, 9));
}

#[test]
fn every_element_lies_below_itself() {
    let order = diamond();
    assert!(order.leq(2, 2));
    assert!(order.leq(9, 9));
}

#[test]
fn relations_record_their_elements() {
    let mut order = diamond();
    assert!(order.contains(0));
    assert!(order.contains(3));
    assert!(!order.contains(4));
    order.add_element(4);
    assert!(order.contains(4));
    assert!(!order.leq(3, 4));
    order.add_relation(3, 4);
    assert!(order.leq(0, 4));
}

#[test]
fn search_ends_on_cycles() {
    let mut order = Lattice::new();
    order.add_relation(0, 1);
    order.add_relation(1, 2);
    order.add_relation(2, 0);
    order.add_relation(5, 6);
    assert!(order.leq(2, 1));
    assert!(order.leq(1, 0));
    assert!(!order.leq(0, 6));
    assert!(!order.leq(6, 5));
}
