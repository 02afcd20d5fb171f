use steiner_graph::SimpleDisjointSet;

#[test]
fn hmm() {
    let mut set = SimpleDisjointSet::new(5);
    set.union(1, 2);
    assert_eq!(set.find_mut(1).id(), set.find_mut(2).id());
    assert_ne!(set.find_mut(0).id(), set.find_mut(1).id());
    set.union(3, 4);
    assert_eq!(set.find_mut(3).id(), set.find_mut(4).id());
    assert_ne!(set.find_mut(2).id(), set.find_mut(3).id());
    set.union(2, 3);
    assert_eq!(set.find_mut(1).id(), set.find_mut(4).id());

    assert_eq!(set.find_mut(4).size(), 4);
}

#[test]
fn union_counts_classes() {
    let mut set = SimpleDisjointSet::new(4);
    assert_eq!(set.node_count(), 4);
    assert_eq!(set.set_count(), 4);
    assert!(set.union(0, 1));
    assert_eq!(set.set_count(), 3);
    assert!(!set.union(1, 0));
    assert_eq!(set.set_count(), 3);
    assert!(set.union(2, 3));
    assert!(set.union(0, 3));
    assert_eq!(set.set_count(), 1);
    assert!(!set.union(1, 2));
    assert_eq!(set.set_count(), 1);
    assert_eq!(set.find_mut(2).size(), 4);
}

#[test]
fn find_is_stable() {
    let mut set = SimpleDisjointSet::new(6);
    set.union(0, 1);
    set.union(1, 2);
    set.union(2, 3);
    let first = set.find_mut(3).id();
    let second = set.find_mut(3).id();
    assert_eq!(first, second);
    for i in 0..4 {
        assert_eq!(set.find_mut(i).id(), first);
    }
    assert_eq!(set.find_mut(4).id(), 4);
    assert_eq!(set.find_mut(5).size(), 1);
}

#[test]
fn union_hangs_smaller_class_below_larger() {
    let mut set = SimpleDisjointSet::new(4);
    set.union(0, 1);
    set.union(0, 2);
    let big = set.find_mut(0).id();
    set.union(3, 0);
    assert_eq!(set.find_mut(3).id(), big);
    assert_eq!(set.find_mut(3).size(), 4);
}

#[test]
fn reset_restores_singletons() {
    let mut set = SimpleDisjointSet::new(3);
    set.union(0, 1);
    set.union(1, 2);
    assert_eq!(set.set_count(), 1);
    set.reset();
    assert_eq!(set.set_count(), 3);
    for i in 0..3 {
        assert_eq!(set.find_mut(i).id(), i);
        assert_eq!(set.find_mut(i).size(), 1);
    }
}

#[test]
fn empty_universe() {
    let set = SimpleDisjointSet::new(0);
    assert_eq!(set.node_count(), 0);
    assert_eq!(set.set_count(), 0);
}
