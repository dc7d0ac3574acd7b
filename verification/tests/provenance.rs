use dataflow_sharder::ids::{DomainGraph, ReplicaAddr};
use dataflow_sharder::provenance::Provenance;

fn leaf(domain: usize, label: usize) -> Provenance {
    Provenance::new((domain, 0), label)
}

fn labels(p: &Provenance) -> Vec<(ReplicaAddr, usize)> {
    p.edges().iter().map(|e| (e.0, e.1.label())).collect()
}

#[test]
fn leaf_has_root_and_label() {
    let p = Provenance::new((3, 1), 7);
    assert_eq!(p.root(), (3, 1));
    assert_eq!(p.label(), 7);
    assert!(p.edges().is_empty());
}

#[test]
fn default_is_unlabelled() {
    let p = Provenance::default();
    assert_eq!(p.root(), (0, 0));
    assert_eq!(p.label(), 0);
    assert!(p.edges().is_empty());
}

#[test]
fn new_with_names_edges_by_root() {
    let p = Provenance::new_with((3, 0), 9, &[leaf(1, 4), leaf(2, 5), leaf(1, 6)]);
    assert_eq!(p.root(), (3, 0));
    assert_eq!(p.label(), 9);
    assert_eq!(labels(&p), vec![((1, 0), 6), ((2, 0), 5)]);
}

#[test]
fn set_label_and_shard() {
    let mut p = Provenance::new_with((3, 0), 9, &[leaf(1, 4)]);
    p.set_label(2);
    p.set_shard(5);
    assert_eq!(p.root(), (3, 5));
    assert_eq!(p.label(), 2);
    assert_eq!(labels(&p), vec![((1, 0), 4)]);
}

#[test]
fn trim_cuts_below_depth() {
    let child = Provenance::new_with((2, 0), 5, &[leaf(1, 4)]);
    let tree = Provenance::new_with((3, 0), 9, &[child]);
    let mut same = tree.clone();
    same.trim(3);
    assert_eq!(format!("{:?}", same), format!("{:?}", tree));
    let mut two = tree.clone();
    two.trim(2);
    assert_eq!(labels(&two), vec![((2, 0), 5)]);
    assert!(two.edges()[0].1.edges().is_empty());
    let mut one = tree.clone();
    one.trim(1);
    assert_eq!(one.label(), 9);
    assert!(one.edges().is_empty());
    let mut none = tree.clone();
    none.trim(0);
    assert_eq!(format!("{:?}", none), format!("{:?}", one));
}

#[test]
fn zero_clears_every_label() {
    let child = Provenance::new_with((2, 0), 5, &[leaf(1, 4)]);
    let mut tree = Provenance::new_with((3, 0), 9, &[child]);
    tree.zero();
    assert_eq!(tree.label(), 0);
    assert_eq!(tree.edges()[0].1.label(), 0);
    assert_eq!(tree.edges()[0].1.edges()[0].1.label(), 0);
}

#[test]
fn newer_update_is_applied_below() {
    let mut tree = Provenance::new_with((3, 0), 9, &[leaf(1, 4), leaf(2, 5)]);
    tree.apply_update(&Provenance::new_with((3, 0), 10, &[leaf(2, 6), leaf(7, 1)]));
    assert_eq!(tree.label(), 10);
    assert_eq!(labels(&tree), vec![((1, 0), 4), ((2, 0), 6), ((7, 0), 1)]);
    // an edge with an older label stays
    tree.apply_update(&Provenance::new_with((3, 0), 11, &[leaf(2, 3)]));
    assert_eq!(tree.label(), 11);
    assert_eq!(labels(&tree), vec![((1, 0), 4), ((2, 0), 6), ((7, 0), 1)]);
}

#[test]
fn update_that_is_not_newer_changes_nothing() {
    let mut tree = Provenance::new_with((3, 0), 9, &[leaf(1, 4)]);
    tree.apply_update(&Provenance::new_with((3, 0), 9, &[leaf(1, 8)]));
    assert_eq!(tree.label(), 9);
    assert_eq!(labels(&tree), vec![((1, 0), 4)]);
}

#[test]
fn applying_twice_is_applying_once() {
    let update = Provenance::new_with((3, 0), 10, &[leaf(1, 8)]);
    let mut once = Provenance::new_with((3, 0), 9, &[leaf(1, 4)]);
    once.apply_update(&update);
    let mut twice = once.clone();
    twice.apply_update(&update);
    assert_eq!(format!("{:?}", once), format!("{:?}", twice));
}

#[test]
fn init_follows_incoming_edges() {
    // 0 -> 1 -> 3, 2 -> 3, and a second edge 2 -> 3
    let graph = DomainGraph {
        nodes: vec![(10, 0), (11, 0), (12, 0), (13, 0)],
        edges: vec![(0, 1), (1, 3), (2, 3), (2, 3)],
    };
    let mut p = Provenance::new((0, 0), 5);
    p.init(&graph, (13, 0), 3, 3);
    assert_eq!(p.root(), (13, 0));
    assert_eq!(p.label(), 5);
    assert_eq!(labels(&p), vec![((11, 0), 0), ((12, 0), 0)]);
    assert_eq!(labels(&p.edges()[0].1), vec![((10, 0), 0)]);
    let mut shallow = Provenance::default();
    shallow.init(&graph, (13, 0), 3, 1);
    assert!(shallow.edges().is_empty());
}

#[test]
fn new_incoming_tells_whether_the_tree_changes() {
    let p = Provenance::new_with((3, 0), 9, &[leaf(1, 4)]);
    assert!(p.new_incoming((1, 0), (2, 0)));
    assert!(!p.new_incoming((1, 0), (1, 0)));
    assert!(!p.new_incoming((5, 0), (2, 0)));
}
