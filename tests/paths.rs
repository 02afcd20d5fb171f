use steiner_graph::{dijkstra_usize, metric_closure_usize, steiner_mst, steiner_mst_usize, UnGraph};

const A: u64 = 0;
const B: u64 = 1;
const C: u64 = 2;
const D: u64 = 3;

fn weight(e: &usize) -> usize {
    *e
}

fn path_graph() -> UnGraph<(), usize> {
    let mut g = UnGraph::with_capacity(4, 3);
    for n in [A, B, C, D] {
        g.add_node(n, ());
    }
    g.add_edge(A, B, 1);
    g.add_edge(B, C, 1);
    g.add_edge(C, D, 1);
    g
}

fn sorted_nodes<N: Copy>(g: &UnGraph<N, ()>) -> Vec<(u64, N)> {
    let mut v: Vec<(u64, N)> = g.nodes().into_iter().map(|(i, n)| (i, *n)).collect();
    v.sort_by_key(|p| p.0);
    v
}

fn sorted_edges<E: Copy>(g: &UnGraph<(), E>) -> Vec<(u64, u64, E)> {
    let mut v: Vec<(u64, u64, E)> = g.edges().into_iter().map(|(a, b, e)| (a, b, *e)).collect();
    v.sort_by_key(|p| (p.0, p.1));
    v
}

#[test]
fn dijkstra_on_path() {
    let g = path_graph();
    let d = dijkstra_usize(&g, A, &weight);
    assert_eq!(sorted_nodes(&d), vec![(A, 0), (B, 1), (C, 2), (D, 3)]);
    assert!(d.edges().is_empty());
}

#[test]
fn dijkstra_takes_cheaper_detour() {
    let mut g = path_graph();
    g.add_node(9, ());
    g.add_edge(A, D, 5);
    g.add_edge(A, 9, 0);
    let d = dijkstra_usize(&g, D, &weight);
    assert_eq!(sorted_nodes(&d), vec![(A, 3), (B, 2), (C, 1), (D, 0), (9, 3)]);
}

#[test]
fn dijkstra_skips_unreachable() {
    let mut g = path_graph();
    g.add_node(7, ());
    g.add_node(8, ());
    g.add_edge(7, 8, 2);
    let d = dijkstra_usize(&g, 8, &weight);
    assert_eq!(sorted_nodes(&d), vec![(7, 2), (8, 0)]);
}

#[test]
fn dijkstra_matches_brute_force() {
    // A small graph with several routes; distances checked by hand.
    let mut g: UnGraph<(), usize> = UnGraph::with_capacity(5, 7);
    for n in 0..5 {
        g.add_node(n, ());
    }
    g.add_edge(0, 1, 4);
    g.add_edge(0, 2, 1);
    g.add_edge(2, 1, 2);
    g.add_edge(1, 3, 1);
    g.add_edge(2, 3, 5);
    g.add_edge(3, 4, 3);
    g.add_edge(2, 4, 9);
    let d = dijkstra_usize(&g, 0, &weight);
    assert_eq!(sorted_nodes(&d), vec![(0, 0), (1, 3), (2, 1), (3, 4), (4, 7)]);
}

#[test]
fn metric_closure_is_symmetric_and_exact() {
    let g = path_graph();
    let m = metric_closure_usize(&g, &weight);
    assert_eq!(m.node_count(), 4);
    assert_eq!(
        sorted_edges(&m),
        vec![(A, B, 1), (A, C, 2), (A, D, 3), (B, C, 1), (B, D, 2), (C, D, 1)]
    );
    for a in [A, B, C, D] {
        let d = dijkstra_usize(&g, a, &weight);
        for (b, dist) in d.nodes() {
            if a != b {
                let ab: Vec<usize> = m.neighbours(a).into_iter().filter(|p| p.0 == b).map(|p| *p.1).collect();
                let ba: Vec<usize> = m.neighbours(b).into_iter().filter(|p| p.0 == a).map(|p| *p.1).collect();
                assert_eq!(ab, vec![*dist]);
                assert_eq!(ba, vec![*dist]);
            }
        }
    }
}

#[test]
fn metric_closure_leaves_components_apart() {
    let mut g = path_graph();
    g.add_node(7, ());
    let m = metric_closure_usize(&g, &weight);
    assert_eq!(m.node_count(), 5);
    assert!(m.neighbours(7).is_empty());
    assert_eq!(m.edges().len(), 6);
}

#[test]
fn steiner_on_path() {
    let g = path_graph();
    let (cost, tree) = steiner_mst_usize(&g, A, &vec![C, D], &weight).unwrap();
    assert_eq!(cost, 3);
    assert_eq!(sorted_nodes(&tree), vec![(A, ()), (B, ()), (C, ()), (D, ())]);
    assert_eq!(sorted_edges(&tree), vec![(A, B, ()), (B, C, ()), (C, D, ())]);
}

#[test]
fn steiner_on_star() {
    let mut g: UnGraph<(), usize> = UnGraph::with_capacity(4, 3);
    for n in 0..4 {
        g.add_node(n, ());
    }
    g.add_edge(0, 1, 1);
    g.add_edge(0, 2, 2);
    g.add_edge(0, 3, 3);
    let (cost, tree) = steiner_mst_usize(&g, 0, &vec![1, 2, 3], &weight).unwrap();
    assert_eq!(cost, 6);
    assert_eq!(tree.node_count(), 4);
    assert_eq!(sorted_edges(&tree), vec![(0, 1, ()), (0, 2, ()), (0, 3, ())]);
}

#[test]
fn steiner_cost_is_sum_of_tree_edges() {
    let mut g: UnGraph<(), usize> = UnGraph::with_capacity(6, 7);
    for n in 0..6 {
        g.add_node(n, ());
    }
    g.add_edge(0, 1, 2);
    g.add_edge(1, 2, 1);
    g.add_edge(1, 3, 2);
    g.add_edge(0, 4, 1);
    g.add_edge(4, 3, 1);
    g.add_edge(3, 5, 2);
    g.add_edge(2, 5, 4);
    let (cost, tree) = steiner_mst_usize(&g, 0, &vec![2, 5], &weight).unwrap();
    let mut total = 0;
    for (a, b, _) in tree.edges() {
        let w: Vec<usize> = g.neighbours(a).into_iter().filter(|p| p.0 == b).map(|p| *p.1).collect();
        assert_eq!(w.len(), 1);
        total += w[0];
    }
    assert_eq!(cost, total);
    assert!(tree.contains_node(0) && tree.contains_node(2) && tree.contains_node(5));
    assert_eq!(tree.edges().len() + 1, tree.node_count());
}

#[test]
fn steiner_unreachable_terminal() {
    let mut g = path_graph();
    g.add_node(7, ());
    assert!(steiner_mst_usize(&g, A, &vec![D, 7], &weight).is_none());
    assert!(steiner_mst(&g, A, &vec![7], &weight).is_none());
}

#[test]
fn steiner_seed_only() {
    let g = path_graph();
    let (cost, tree) = steiner_mst_usize(&g, B, &vec![], &weight).unwrap();
    assert_eq!(cost, 0);
    assert_eq!(sorted_nodes(&tree), vec![(B, ())]);
    let (cost, tree) = steiner_mst_usize(&g, B, &vec![B, B], &weight).unwrap();
    assert_eq!(cost, 0);
    assert_eq!(tree.node_count(), 1);
}

#[test]
fn steiner_zero_weight_edges() {
    let mut g: UnGraph<(), usize> = UnGraph::with_capacity(3, 2);
    for n in 0..3 {
        g.add_node(n, ());
    }
    g.add_edge(0, 1, 0);
    g.add_edge(1, 2, 0);
    let (cost, tree) = steiner_mst_usize(&g, 0, &vec![2], &weight).unwrap();
    assert_eq!(cost, 0);
    assert_eq!(tree.node_count(), 3);
}

#[test]
fn both_steiner_variants_agree() {
    let g = path_graph();
    let (c1, t1) = steiner_mst_usize(&g, D, &vec![A, B], &weight).unwrap();
    let (c2, t2) = steiner_mst(&g, D, &vec![A, B], &weight).unwrap();
    assert_eq!(c1, c2);
    assert_eq!(c1, 3);
    assert_eq!(sorted_edges(&t1), sorted_edges(&t2));
}

fn brute_force(g: &UnGraph<(), usize>, from: u64, to: u64, seen: &mut Vec<u64>) -> Option<usize> {
    if from == to {
        return Some(0);
    }
    seen.push(from);
    let mut best: Option<usize> = None;
    for (m, e) in g.neighbours(from) {
        if !seen.contains(&m) {
            if let Some(rest) = brute_force(g, m, to, seen) {
                let c = *e + rest;
                best = Some(best.map_or(c, |b| b.min(c)));
            }
        }
    }
    seen.pop();
    best
}

#[test]
fn dijkstra_agrees_with_all_paths() {
    let mut g: UnGraph<(), usize> = UnGraph::with_capacity(7, 12);
    for n in 0..7 {
        g.add_node(n, ());
    }
    let edges = [(0, 1, 2), (0, 2, 1), (1, 2, 1), (1, 3, 2), (2, 4, 2), (3, 4, 1), (3, 5, 1), (4, 5, 2), (5, 6, 1), (2, 3, 2)];
    for (a, b, w) in edges {
        g.add_edge(a, b, w);
    }
    for s in 0..7 {
        let d = dijkstra_usize(&g, s, &weight);
        for t in 0..7 {
            let expected = brute_force(&g, s, t, &mut Vec::new());
            let got: Vec<usize> = d.nodes().into_iter().filter(|p| p.0 == t).map(|p| *p.1).collect();
            assert_eq!(got, expected.into_iter().collect::<Vec<usize>>());
        }
    }
}

#[test]
fn steiner_breaks_ties_the_same_way_every_time() {
    // Two equal-cost routes from the seed 0 to the terminal 3: via 1 or via 2.
    let build = || {
        let mut g: UnGraph<(), usize> = UnGraph::with_capacity(4, 4);
        for n in 0..4 {
            g.add_node(n, ());
        }
        g.add_edge(0, 1, 1);
        g.add_edge(0, 2, 1);
        g.add_edge(1, 3, 1);
        g.add_edge(2, 3, 1);
        g
    };
    let (cost, first) = steiner_mst_usize(&build(), 0, &vec![3], &weight).unwrap();
    assert_eq!(cost, 2);
    assert_eq!(sorted_edges(&first), vec![(0, 1, ()), (1, 3, ())]);
    for _ in 0..20 {
        let (c, t) = steiner_mst_usize(&build(), 0, &vec![3], &weight).unwrap();
        assert_eq!(c, cost);
        assert_eq!(sorted_edges(&t), sorted_edges(&first));
    }
}

#[test]
fn steiner_cost_within_separate_joins_and_leaves_are_terminals() {
    let mut g: UnGraph<(), usize> = UnGraph::with_capacity(7, 8);
    for n in 0..7 {
        g.add_node(n, ());
    }
    let edges = [(0, 1, 2), (1, 2, 2), (1, 3, 1), (3, 4, 2), (0, 5, 1), (5, 6, 1), (6, 4, 1), (2, 4, 3)];
    for (a, b, w) in edges {
        g.add_edge(a, b, w);
    }
    let terminals = vec![2, 4, 6];
    let (cost, tree) = steiner_mst_usize(&g, 0, &terminals, &weight).unwrap();
    let d = dijkstra_usize(&g, 0, &weight);
    let mut separate = 0;
    for t in &terminals {
        let dt: Vec<usize> = d.nodes().into_iter().filter(|p| p.0 == *t).map(|p| *p.1).collect();
        separate += dt[0];
    }
    assert!(cost <= separate);
    for (v, _) in tree.nodes() {
        if tree.neighbours(v).len() < 2 {
            assert!(v == 0 || terminals.contains(&v));
        }
    }
}
