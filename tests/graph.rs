use steiner_graph::UnGraph;

fn triangle() -> UnGraph<&'static str, u32> {
    let mut g = UnGraph::with_capacity(3, 3);
    g.add_node(1, "one");
    g.add_node(2, "two");
    g.add_node(3, "three");
    g.add_edge(1, 2, 12);
    g.add_edge(3, 2, 23);
    g.add_edge(1, 3, 13);
    g
}

fn sorted_neighbours(g: &UnGraph<&'static str, u32>, i: u64) -> Vec<(u64, u32)> {
    let mut v: Vec<(u64, u32)> = g.neighbours(i).into_iter().map(|(j, e)| (j, *e)).collect();
    v.sort();
    v
}

#[test]
fn add_edge_links_both_ends() {
    let mut g: UnGraph<(), u32> = UnGraph::with_capacity(0, 0);
    g.add_node(7, ());
    g.add_node(4, ());
    g.add_edge(7, 4, 5);
    assert!(g.contains_edge(7, 4));
    assert!(g.contains_edge(4, 7));
    let n7: Vec<(u64, u32)> = g.neighbours(7).into_iter().map(|(j, e)| (j, *e)).collect();
    let n4: Vec<(u64, u32)> = g.neighbours(4).into_iter().map(|(j, e)| (j, *e)).collect();
    assert_eq!(n7, vec![(4, 5)]);
    assert_eq!(n4, vec![(7, 5)]);
}

#[test]
fn edges_are_normalized() {
    let g = triangle();
    let mut es: Vec<(u64, u64, u32)> = g.edges().into_iter().map(|(a, b, e)| (a, b, *e)).collect();
    es.sort();
    assert_eq!(es, vec![(1, 2, 12), (1, 3, 13), (2, 3, 23)]);
}

#[test]
fn neighbours_carry_edge_payloads() {
    let g = triangle();
    assert_eq!(sorted_neighbours(&g, 2), vec![(1, 12), (3, 23)]);
    assert_eq!(sorted_neighbours(&g, 3), vec![(1, 13), (2, 23)]);
}

#[test]
fn isolated_node_has_no_neighbours() {
    let mut g = triangle();
    g.add_node(9, "nine");
    assert_eq!(sorted_neighbours(&g, 9), vec![]);
    assert_eq!(g.remove_node(9), "nine");
    assert!(!g.contains_node(9));
}

#[test]
fn remove_node_drops_incident_edges() {
    let mut g = triangle();
    assert_eq!(g.remove_node(2), "two");
    assert!(!g.contains_node(2));
    assert!(!g.contains_edge(1, 2));
    assert!(!g.contains_edge(2, 3));
    assert!(g.contains_edge(1, 3));
    assert_eq!(sorted_neighbours(&g, 1), vec![(3, 13)]);
    assert_eq!(sorted_neighbours(&g, 3), vec![(1, 13)]);
    assert_eq!(g.edges().len(), 1);
    assert_eq!(g.node_count(), 2);
}

#[test]
fn try_remove_missing_node() {
    let mut g = triangle();
    assert_eq!(g.try_remove_node(42), None);
    assert_eq!(g.node_count(), 3);
    assert_eq!(g.edges().len(), 3);
}

#[test]
fn duplicates_are_refused() {
    let mut g = triangle();
    assert!(g.try_add_node(1, "again").is_none());
    assert_eq!(g.try_add_node(4, "four"), Some(&mut "four"));
    assert!(g.try_add_edge(2, 1, 99).is_none());
    assert_eq!(g.try_add_edge(4, 1, 14), Some(&mut 14));
    let mut nodes: Vec<(u64, &str)> = g.nodes().into_iter().map(|(i, n)| (i, *n)).collect();
    nodes.sort();
    assert_eq!(nodes, vec![(1, "one"), (2, "two"), (3, "three"), (4, "four")]);
    assert_eq!(sorted_neighbours(&g, 1), vec![(2, 12), (3, 13), (4, 14)]);
}

#[test]
fn payloads_can_be_set_through_the_returned_reference() {
    let mut g = triangle();
    if let Some(n) = g.try_add_node(5, "five") {
        *n = "FIVE";
    }
    if let Some(e) = g.try_add_edge(5, 3, 0) {
        *e = 35;
    }
    assert_eq!(sorted_neighbours(&g, 5), vec![(3, 35)]);
    let five: Vec<&str> = g.nodes().into_iter().filter(|p| p.0 == 5).map(|p| *p.1).collect();
    assert_eq!(five, vec!["FIVE"]);
}

#[test]
fn node_ids_lists_each_node_once() {
    let g = triangle();
    let mut ids = g.node_ids();
    ids.sort();
    assert_eq!(ids, vec![1, 2, 3]);
}

#[test]
fn empty_graph() {
    let g: UnGraph<(), ()> = UnGraph::with_capacity(0, 0);
    assert_eq!(g.node_count(), 0);
    assert!(g.nodes().is_empty());
    assert!(g.edges().is_empty());
    assert!(!g.contains_node(0));
    assert!(!g.contains_edge(0, 1));
}

#[test]
fn largest_ids() {
    let mut g: UnGraph<(), u8> = UnGraph::with_capacity(2, 1);
    g.add_node(u64::MAX, ());
    g.add_node(0, ());
    g.add_edge(u64::MAX, 0, 1);
    let es: Vec<(u64, u64)> = g.edges().into_iter().map(|(a, b, _)| (a, b)).collect();
    assert_eq!(es, vec![(0, u64::MAX)]);
    assert!(g.contains_edge(0, u64::MAX));
}

#[test]
fn clone_is_independent() {
    let g = triangle();
    let mut h = g.clone();
    h.remove_node(1);
    assert!(g.contains_node(1));
    assert!(g.contains_edge(1, 2));
    assert!(!h.contains_node(1));
    assert_eq!(h.edges().len(), 1);
    assert_eq!(g.edges().len(), 3);
}

#[test]
fn neighbours_come_in_increasing_order() {
    let mut g: UnGraph<(), u8> = UnGraph::with_capacity(0, 0);
    for n in [50, 3, 900, 12, 7, 1000] {
        g.add_node(n, ());
    }
    for n in [900, 3, 1000, 12, 7] {
        g.add_edge(50, n, 1);
    }
    let ids: Vec<u64> = g.neighbours(50).into_iter().map(|p| p.0).collect();
    assert_eq!(ids, vec![3, 7, 12, 900, 1000]);
}

#[test]
fn payloads_can_be_changed_in_place() {
    let mut g = triangle();
    *g.node_mut(2).unwrap() = "TWO";
    *g.edge_mut(3, 1).unwrap() += 100;
    assert!(g.node_mut(8).is_none());
    assert!(g.edge_mut(1, 1).is_none());
    let two: Vec<&str> = g.nodes().into_iter().filter(|p| p.0 == 2).map(|p| *p.1).collect();
    assert_eq!(two, vec!["TWO"]);
    assert_eq!(sorted_neighbours(&g, 1), vec![(2, 12), (3, 113)]);
    assert_eq!(g.edges().len(), 3);
}
