//! A greedy approximation of the Steiner tree: terminals are joined to a
//! growing tree one at a time, each by a cheapest walk to the tree.

use crate::bucket_queue::BucketQueue;
use crate::graph::{normalized, NodeId, UnGraph};
use crate::shortest_path::{lemma_div_bound, lemma_step_bound};
use crate::walks::{
    edges_cost, is_cost_fn, is_walk, is_walk_between, lemma_first_exit, lemma_reachable_symmetric,
    lemma_walk_cost_nonneg, lemma_walk_grow, lemma_walk_prefix, lemma_walk_prefix_step, lemma_walk_push,
    lemma_weight, reachable, walk_cost, weight, weights_bounded,
};
use std::collections::HashMap;
use vstd::multiset::Multiset;
use vstd::prelude::*;

verus! {

broadcast use vstd::multiset::group_multiset_axioms, vstd::multiset::group_multiset_properties,
    vstd::std_specs::hash::group_hash_axioms;

/// `tree` is a tree of `g` grown from `seed`: its nodes and edges are nodes
/// and edges of `g`, each of its nodes is joined to `seed` within it, it has
/// one edge fewer than nodes (so no cycle), and `total` is the sum of the
/// weights of its edges.
pub open spec fn is_tree_of<N, E, F: Fn(&E) -> usize>(
    g: &UnGraph<N, E>,
    cost: F,
    seed: NodeId,
    tree: &UnGraph<(), ()>,
    total: int,
) -> bool {
    &&& tree.wf()
    &&& tree.node_view().contains_key(seed)
    &&& forall|v: NodeId| #[trigger] tree.node_view().contains_key(v) ==> g.node_view().contains_key(v)
    &&& forall|a: NodeId, b: NodeId| #[trigger] tree.has_edge(a, b) ==> g.has_edge(a, b)
    &&& forall|v: NodeId| #[trigger] tree.node_view().contains_key(v) ==> reachable(tree, seed, v)
    &&& tree.edge_view().dom().len() + 1 == tree.node_view().len()
    &&& exists|es: Seq<(NodeId, NodeId)>| #[trigger] edges_cost(g, cost, es) == total
        && es.no_duplicates() && es.to_set() == tree.edge_view().dom()
}

/// `v` has two distinct neighbours in `t`.
pub open spec fn branches(t: &UnGraph<(), ()>, v: NodeId) -> bool {
    exists|a: NodeId, b: NodeId| a != b && #[trigger] t.has_edge(v, a) && #[trigger] t.has_edge(v, b)
}

/// Every node of `t` with fewer than two neighbours is `seed` or one of
/// `ends`: no branch of the tree ends anywhere else.
pub open spec fn leaves_in(t: &UnGraph<(), ()>, seed: NodeId, ends: Set<NodeId>) -> bool {
    forall|v: NodeId| #[trigger] t.node_view().contains_key(v) ==> v == seed || ends.contains(v) || branches(t, v)
}

/// `ws[k]` is a walk of `g` from `seed` to `terminals[k]`, for each `k`.
pub open spec fn joins_each<N, E>(g: &UnGraph<N, E>, seed: NodeId, terminals: Seq<NodeId>, ws: Seq<Seq<NodeId>>) -> bool {
    &&& ws.len() == terminals.len()
    &&& forall|k: int| 0 <= k < ws.len() ==> #[trigger] is_walk_between(g, ws[k], seed, terminals[k])
}

/// The summed costs of the walks `ws`.
pub open spec fn walks_cost<N, E, F: Fn(&E) -> usize>(g: &UnGraph<N, E>, cost: F, ws: Seq<Seq<NodeId>>) -> int
    decreases ws.len(),
{
    if ws.len() == 0 {
        0
    } else {
        walks_cost(g, cost, ws.drop_last()) + walk_cost(g, cost, ws.last())
    }
}

/// The summed costs of the walks `ws[k]` for which `chosen[k]` holds.
spec fn chosen_cost<N, E, F: Fn(&E) -> usize>(g: &UnGraph<N, E>, cost: F, ws: Seq<Seq<NodeId>>, chosen: Seq<bool>) -> int
    decreases ws.len(),
{
    if ws.len() == 0 {
        0
    } else {
        chosen_cost(g, cost, ws.drop_last(), chosen.drop_last()) + if chosen.last() {
            walk_cost(g, cost, ws.last())
        } else {
            0
        }
    }
}

proof fn lemma_chosen_none<N, E, F: Fn(&E) -> usize>(g: &UnGraph<N, E>, cost: F, ws: Seq<Seq<NodeId>>, chosen: Seq<bool>)
    requires
        chosen.len() == ws.len(),
        forall|k: int| 0 <= k < chosen.len() ==> !chosen[k],
    ensures
        chosen_cost(g, cost, ws, chosen) == 0,
    decreases ws.len(),
{
    if ws.len() > 0 {
        lemma_chosen_none(g, cost, ws.drop_last(), chosen.drop_last());
    }
}

proof fn lemma_chosen_add<N, E, F: Fn(&E) -> usize>(g: &UnGraph<N, E>, cost: F, ws: Seq<Seq<NodeId>>, chosen: Seq<bool>, k: int)
    requires
        chosen.len() == ws.len(),
        0 <= k < ws.len(),
        !chosen[k],
    ensures
        chosen_cost(g, cost, ws, chosen.update(k, true)) == chosen_cost(g, cost, ws, chosen) + walk_cost(g, cost, ws[k]),
    decreases ws.len(),
{
    if k < ws.len() - 1 {
        assert(chosen.update(k, true).drop_last() =~= chosen.drop_last().update(k, true));
        lemma_chosen_add(g, cost, ws.drop_last(), chosen.drop_last(), k);
    } else {
        assert(chosen.update(k, true).drop_last() =~= chosen.drop_last());
    }
}

proof fn lemma_chosen_le<N, E, F: Fn(&E) -> usize>(g: &UnGraph<N, E>, cost: F, ws: Seq<Seq<NodeId>>, chosen: Seq<bool>)
    requires
        chosen.len() == ws.len(),
    ensures
        chosen_cost(g, cost, ws, chosen) <= walks_cost(g, cost, ws),
    decreases ws.len(),
{
    if ws.len() > 0 {
        lemma_chosen_le(g, cost, ws.drop_last(), chosen.drop_last());
        lemma_walk_cost_nonneg(g, cost, ws.last());
    }
}

/// What the growing tree keeps between rounds, with the edges in the order
/// they were added.
spec fn grown<N, E, F: Fn(&E) -> usize>(
    g: &UnGraph<N, E>,
    cost: F,
    seed: NodeId,
    tree: &UnGraph<(), ()>,
    total: int,
    es: Seq<(NodeId, NodeId)>,
    b: int,
) -> bool {
    &&& tree.wf()
    &&& tree.node_view().contains_key(seed)
    &&& tree.node_view().dom().subset_of(g.node_view().dom())
    &&& forall|a: NodeId, b: NodeId| #[trigger] tree.has_edge(a, b) ==> g.has_edge(a, b)
    &&& forall|v: NodeId| #[trigger] tree.node_view().contains_key(v) ==> reachable(tree, seed, v)
    &&& es.no_duplicates()
    &&& es.to_set() == tree.edge_view().dom()
    &&& edges_cost(g, cost, es) == total
    &&& 1 <= tree.node_view().len()
    &&& es.len() + 1 == tree.node_view().len()
    &&& total <= (tree.node_view().len() - 1) * b
}

/// The search's records: `inc[x]` is the node that `x` was reached from, or
/// `None` for a terminal where the search started; `order[x]` counts the
/// nodes reached before `x`; `label[x]` is the cost at which `x` was reached.
spec fn links_ok<N, E, F: Fn(&E) -> usize>(
    g: &UnGraph<N, E>,
    cost: F,
    roots: Set<NodeId>,
    inc: Map<NodeId, Option<NodeId>>,
    order: Map<NodeId, nat>,
    label: Map<NodeId, int>,
    b: int,
) -> bool {
    &&& inc.dom().finite()
    &&& forall|x: NodeId| #[trigger] inc.contains_key(x) ==> {
        &&& order.contains_key(x)
        &&& label.contains_key(x)
        &&& g.node_view().contains_key(x)
        &&& 0 <= label[x] <= order[x] * b
        &&& order[x] < inc.len()
        &&& (inc[x] is None ==> roots.contains(x) && label[x] == 0)
        &&& (inc[x] matches Some(p) ==> inc.contains_key(p) && order[p] < order[x] && g.has_edge(p, x)
            && label[x] == label[p] + weight(cost, g.edge_at(p, x)) && weight(cost, g.edge_at(p, x)) <= b)
    }
}

/// Every queued candidate `(c, (m, from))` is a root at 0, or a neighbour of
/// a reached node `p` at `label[p]` plus the weight of their edge.
spec fn queue_ok<N, E, F: Fn(&E) -> usize>(
    g: &UnGraph<N, E>,
    cost: F,
    roots: Set<NodeId>,
    inc: Map<NodeId, Option<NodeId>>,
    label: Map<NodeId, int>,
    q: Multiset<(int, (NodeId, Option<NodeId>))>,
    b: int,
) -> bool {
    forall|e: (int, (NodeId, Option<NodeId>))| #[trigger] q.count(e) > 0 ==> {
        &&& g.node_view().contains_key(e.1.0)
        &&& 0 <= e.0 <= inc.len() * b
        &&& (e.1.1 is None ==> e.0 == 0 && roots.contains(e.1.0))
        &&& (e.1.1 matches Some(p) ==> inc.contains_key(p) && g.has_edge(p, e.1.0)
            && e.0 == label[p] + weight(cost, g.edge_at(p, e.1.0)) && weight(cost, g.edge_at(p, e.1.0)) <= b)
    }
}

/// Each neighbour `y` of a reached node `x` is reached, or queued at no more
/// than `label[x]` plus the weight of their edge.
spec fn frontier_ok<N, E, F: Fn(&E) -> usize>(
    g: &UnGraph<N, E>,
    cost: F,
    inc: Map<NodeId, Option<NodeId>>,
    label: Map<NodeId, int>,
    q: Multiset<(int, (NodeId, Option<NodeId>))>,
) -> bool {
    forall|x: NodeId, y: NodeId| #[trigger] inc.contains_key(x) && #[trigger] g.has_edge(x, y) && !inc.contains_key(y)
        ==> exists|e: (int, (NodeId, Option<NodeId>))| #[trigger] q.count(e) > 0 && e.1.0 == y
            && e.0 <= label[x] + weight(cost, g.edge_at(x, y))
}

/// No walk from a root to a reached node costs less than its label.
spec fn lower_ok<N, E, F: Fn(&E) -> usize>(
    g: &UnGraph<N, E>,
    cost: F,
    roots: Set<NodeId>,
    inc: Map<NodeId, Option<NodeId>>,
    label: Map<NodeId, int>,
) -> bool {
    forall|z: NodeId, w: Seq<NodeId>| #[trigger] inc.contains_key(z) && roots.contains(w[0])
        && #[trigger] is_walk_between(g, w, w[0], z) ==> label[z] <= walk_cost(g, cost, w)
}

/// Each root is reached or queued at 0.
spec fn roots_ok(
    roots: Set<NodeId>,
    inc: Map<NodeId, Option<NodeId>>,
    q: Multiset<(int, (NodeId, Option<NodeId>))>,
) -> bool {
    forall|t: NodeId| #[trigger] roots.contains(t) ==> inc.contains_key(t) || q.count((0int, (t, None::<NodeId>))) > 0
}

/// No reached node belongs to the tree.
spec fn outside(tree: &UnGraph<(), ()>, inc: Map<NodeId, Option<NodeId>>) -> bool {
    forall|x: NodeId| #[trigger] inc.contains_key(x) ==> !tree.node_view().contains_key(x)
}

/// What holds between rounds of the search from the roots towards the tree.
#[verifier::opaque]
spec fn searching<N, E, F: Fn(&E) -> usize>(
    g: &UnGraph<N, E>,
    cost: F,
    tree: &UnGraph<(), ()>,
    roots: Set<NodeId>,
    inc: Map<NodeId, Option<NodeId>>,
    order: Map<NodeId, nat>,
    label: Map<NodeId, int>,
    q: Multiset<(int, (NodeId, Option<NodeId>))>,
    b: int,
) -> bool {
    &&& links_ok(g, cost, roots, inc, order, label, b)
    &&& queue_ok(g, cost, roots, inc, label, q, b)
    &&& frontier_ok(g, cost, inc, label, q)
    &&& lower_ok(g, cost, roots, inc, label)
    &&& roots_ok(roots, inc, q)
    &&& outside(tree, inc)
}

/// A walk from a root to a node not reached yet passes a queued candidate
/// no dearer than the walk.
proof fn lemma_walk_meets_frontier<N, E, F: Fn(&E) -> usize>(
    g: &UnGraph<N, E>,
    cost: F,
    roots: Set<NodeId>,
    inc: Map<NodeId, Option<NodeId>>,
    label: Map<NodeId, int>,
    q: Multiset<(int, (NodeId, Option<NodeId>))>,
    w: Seq<NodeId>,
) -> (e: (int, (NodeId, Option<NodeId>)))
    requires
        frontier_ok(g, cost, inc, label, q),
        lower_ok(g, cost, roots, inc, label),
        roots_ok(roots, inc, q),
        roots.contains(w[0]),
        is_walk_between(g, w, w[0], w.last()),
        !inc.contains_key(w.last()),
    ensures
        q.count(e) > 0,
        e.0 <= walk_cost(g, cost, w),
{
    lemma_walk_cost_nonneg(g, cost, w);
    if !inc.contains_key(w[0]) {
        (0int, (w[0], None::<NodeId>))
    } else {
        let k = lemma_first_exit(w, inc.dom());
        let u = w[k - 1];
        let x = w[k];
        assert(g.has_edge(w[k - 1], w[k]));
        let e = choose|e: (int, (NodeId, Option<NodeId>))| #[trigger] q.count(e) > 0 && e.1.0 == x
            && e.0 <= label[u] + weight(cost, g.edge_at(u, x));
        lemma_walk_prefix(g, cost, w, k);
        lemma_walk_prefix(g, cost, w, k + 1);
        lemma_walk_prefix_step(g, cost, w, k);
        assert(w.take(k)[0] == w[0] && w.take(k).last() == u);
        assert(is_walk_between(g, w.take(k), w.take(k)[0], u));
        assert(label[u] <= walk_cost(g, cost, w.take(k)));
        e
    }
}

proof fn lemma_search_start<N, E, F: Fn(&E) -> usize>(
    g: &UnGraph<N, E>,
    cost: F,
    tree: &UnGraph<(), ()>,
    roots: Set<NodeId>,
    q: Multiset<(int, (NodeId, Option<NodeId>))>,
    b: int,
)
    requires
        forall|e: (int, (NodeId, Option<NodeId>))| #[trigger] q.count(e) > 0 ==> e.0 == 0 && e.1.1 is None
            && roots.contains(e.1.0) && g.node_view().contains_key(e.1.0),
        forall|t: NodeId| #[trigger] roots.contains(t) ==> q.count((0int, (t, None::<NodeId>))) > 0,
    ensures
        searching(g, cost, tree, roots, Map::empty(), Map::empty(), Map::empty(), q, b),
{
    reveal(searching);
    let inc = Map::<NodeId, Option<NodeId>>::empty();
    assert(inc.dom() =~= Set::empty());
    assert(inc.len() == 0);
    assert forall|e: (int, (NodeId, Option<NodeId>))| #[trigger] q.count(e) > 0 implies 0 <= e.0 <= inc.len() * b by {
        assert(inc.len() * b == 0);
    }
}

/// Popping a candidate for a node reached already keeps the search's records.
#[verifier::spinoff_prover]
proof fn lemma_search_skip<N, E, F: Fn(&E) -> usize>(
    g: &UnGraph<N, E>,
    cost: F,
    tree: &UnGraph<(), ()>,
    roots: Set<NodeId>,
    inc: Map<NodeId, Option<NodeId>>,
    order: Map<NodeId, nat>,
    label: Map<NodeId, int>,
    q: Multiset<(int, (NodeId, Option<NodeId>))>,
    b: int,
    e: (int, (NodeId, Option<NodeId>)),
)
    requires
        searching(g, cost, tree, roots, inc, order, label, q, b),
        q.count(e) > 0,
        inc.contains_key(e.1.0),
    ensures
        searching(g, cost, tree, roots, inc, order, label, q.remove(e), b),
{
    reveal(searching);
    let r = q.remove(e);
    assert forall|f: (int, (NodeId, Option<NodeId>))| #[trigger] r.count(f) > 0 implies q.count(f) > 0 by {
        if f == e {
        }
    }
    assert forall|x: NodeId, y: NodeId| #[trigger] inc.contains_key(x) && #[trigger] g.has_edge(x, y) && !inc.contains_key(y)
        implies exists|f: (int, (NodeId, Option<NodeId>))| #[trigger] r.count(f) > 0 && f.1.0 == y
            && f.0 <= label[x] + weight(cost, g.edge_at(x, y)) by {
        let f = choose|f: (int, (NodeId, Option<NodeId>))| #[trigger] q.count(f) > 0 && f.1.0 == y
            && f.0 <= label[x] + weight(cost, g.edge_at(x, y));
        assert(f != e);
        assert(r.count(f) == q.count(f));
    }
    assert(lower_ok(g, cost, roots, inc, label));
    assert forall|t: NodeId| #[trigger] roots.contains(t) implies inc.contains_key(t) || r.count((0int, (t, None::<NodeId>))) > 0 by {
        if !inc.contains_key(t) {
            assert((0int, (t, None::<NodeId>)) != e);
            assert(r.count((0int, (t, None::<NodeId>))) == q.count((0int, (t, None::<NodeId>))));
        }
    }
}

/// Reaching `x` through the popped candidate `e` extends the records.
#[verifier::spinoff_prover]
proof fn lemma_search_reach<N, E, F: Fn(&E) -> usize>(
    g: &UnGraph<N, E>,
    cost: F,
    tree: &UnGraph<(), ()>,
    roots: Set<NodeId>,
    inc: Map<NodeId, Option<NodeId>>,
    order: Map<NodeId, nat>,
    label: Map<NodeId, int>,
    q: Multiset<(int, (NodeId, Option<NodeId>))>,
    b: int,
    e: (int, (NodeId, Option<NodeId>)),
)
    requires
        g.wf(),
        searching(g, cost, tree, roots, inc, order, label, q, b),
        weights_bounded(g, cost),
        b == usize::MAX as int / (g.node_view().len() as int),
        g.node_view().len() >= 1,
        q.count(e) > 0,
        !inc.contains_key(e.1.0),
        forall|f: (int, (NodeId, Option<NodeId>))| #[trigger] q.count(f) > 0 ==> e.0 <= f.0,
    ensures
        forall|w: Seq<NodeId>| roots.contains(w[0]) && #[trigger] is_walk_between(g, w, w[0], w.last())
            && !inc.contains_key(w.last()) ==> e.0 <= walk_cost(g, cost, w),
        lower_ok(g, cost, roots, inc.insert(e.1.0, e.1.1), label.insert(e.1.0, e.0)),
        ({
            let x = e.1.0;
            let inc2 = inc.insert(x, e.1.1);
            let order2 = order.insert(x, inc.len());
            let label2 = label.insert(x, e.0);
            let r = q.remove(e);
            &&& links_ok(g, cost, roots, inc2, order2, label2, b)
            &&& queue_ok(g, cost, roots, inc2, label2, r, b)
            &&& roots_ok(roots, inc2, r)
            &&& inc2.len() == inc.len() + 1
            &&& 0 <= e.0 <= inc.len() * b
            &&& g.node_view().contains_key(x)
            &&& forall|z: NodeId, y: NodeId| #[trigger] inc2.contains_key(z) && #[trigger] g.has_edge(z, y)
                && !inc2.contains_key(y) && z != x ==> exists|f: (int, (NodeId, Option<NodeId>))| #[trigger] r.count(f) > 0 && f.1.0 == y
                && f.0 <= label2[z] + weight(cost, g.edge_at(z, y))
            &&& outside(tree, inc) && (forall|z: NodeId| #[trigger] inc2.contains_key(z) && z != x ==> !tree.node_view().contains_key(z))
        }),
{
    reveal(searching);
    let x = e.1.0;
    let inc2 = inc.insert(x, e.1.1);
    let order2 = order.insert(x, inc.len());
    let label2 = label.insert(x, e.0);
    let r = q.remove(e);
    assert(inc2.dom() =~= inc.dom().insert(x));
    assert(inc2.len() == inc.len() + 1);
    vstd::arithmetic::div_mod::lemma_div_pos_is_pos(usize::MAX as int, g.node_view().len() as int);
    assert forall|f: (int, (NodeId, Option<NodeId>))| #[trigger] r.count(f) > 0 implies q.count(f) > 0 by {
        if f == e {
        }
    }
    assert forall|z: NodeId| #[trigger] inc2.contains_key(z) implies {
        &&& order2.contains_key(z)
        &&& label2.contains_key(z)
        &&& g.node_view().contains_key(z)
        &&& 0 <= label2[z] <= order2[z] * b
        &&& order2[z] < inc2.len()
        &&& (inc2[z] is None ==> roots.contains(z) && label2[z] == 0)
        &&& (inc2[z] matches Some(p) ==> inc2.contains_key(p) && order2[p] < order2[z] && g.has_edge(p, z)
            && label2[z] == label2[p] + weight(cost, g.edge_at(p, z)) && weight(cost, g.edge_at(p, z)) <= b)
    } by {
        if z == x {
            if let Some(p) = e.1.1 {
                assert(inc.contains_key(p));
            }
        } else {
            assert(inc.contains_key(z));
            if let Some(p) = inc[z] {
                assert(p != x);
            }
        }
    }
    assert forall|f: (int, (NodeId, Option<NodeId>))| #[trigger] r.count(f) > 0 implies {
        &&& g.node_view().contains_key(f.1.0)
        &&& 0 <= f.0 <= inc2.len() * b
        &&& (f.1.1 is None ==> f.0 == 0 && roots.contains(f.1.0))
        &&& (f.1.1 matches Some(p) ==> inc2.contains_key(p) && g.has_edge(p, f.1.0)
            && f.0 == label2[p] + weight(cost, g.edge_at(p, f.1.0)) && weight(cost, g.edge_at(p, f.1.0)) <= b)
    } by {
        assert(q.count(f) > 0);
        assert(inc.len() * b <= inc2.len() * b) by (nonlinear_arith)
            requires
                inc2.len() == inc.len() + 1,
                b >= 0,
        ;
        if let Some(p) = f.1.1 {
            assert(p != x);
        }
    }
    assert forall|t: NodeId| #[trigger] roots.contains(t) implies inc2.contains_key(t) || r.count((0int, (t, None::<NodeId>))) > 0 by {
        if !inc2.contains_key(t) {
            assert((0int, (t, None::<NodeId>)) != e);
            assert(r.count((0int, (t, None::<NodeId>))) == q.count((0int, (t, None::<NodeId>))));
        }
    }
    assert forall|z: NodeId, y: NodeId| #[trigger] inc2.contains_key(z) && #[trigger] g.has_edge(z, y)
        && !inc2.contains_key(y) && z != x implies exists|f: (int, (NodeId, Option<NodeId>))| #[trigger] r.count(f) > 0 && f.1.0 == y
        && f.0 <= label2[z] + weight(cost, g.edge_at(z, y)) by {
        assert(inc.contains_key(z));
        let f = choose|f: (int, (NodeId, Option<NodeId>))| #[trigger] q.count(f) > 0 && f.1.0 == y
            && f.0 <= label[z] + weight(cost, g.edge_at(z, y));
        assert(f != e);
        assert(r.count(f) == q.count(f));
    }
    assert forall|w: Seq<NodeId>| roots.contains(w[0]) && #[trigger] is_walk_between(g, w, w[0], w.last())
        && !inc.contains_key(w.last()) implies e.0 <= walk_cost(g, cost, w) by {
        let f = lemma_walk_meets_frontier(g, cost, roots, inc, label, q, w);
    }
    assert forall|z: NodeId, w: Seq<NodeId>| #[trigger] inc2.contains_key(z) && roots.contains(w[0])
        && #[trigger] is_walk_between(g, w, w[0], z) implies label2[z] <= walk_cost(g, cost, w) by {
        if z == x {
            let f = lemma_walk_meets_frontier(g, cost, roots, inc, label, q, w);
        } else {
            assert(inc.contains_key(z));
        }
    }
}

/// After the round that reached `x` and queued its neighbours, the search's
/// records hold again.
proof fn lemma_search_round<N, E, F: Fn(&E) -> usize>(
    g: &UnGraph<N, E>,
    cost: F,
    tree: &UnGraph<(), ()>,
    roots: Set<NodeId>,
    inc: Map<NodeId, Option<NodeId>>,
    order: Map<NodeId, nat>,
    label: Map<NodeId, int>,
    q_mid: Multiset<(int, (NodeId, Option<NodeId>))>,
    q: Multiset<(int, (NodeId, Option<NodeId>))>,
    b: int,
    x: NodeId,
)
    requires
        links_ok(g, cost, roots, inc, order, label, b),
        queue_ok(g, cost, roots, inc, label, q, b),
        roots_ok(roots, inc, q_mid),
        lower_ok(g, cost, roots, inc, label),
        inc.contains_key(x),
        !tree.node_view().contains_key(x),
        forall|z: NodeId| #[trigger] inc.contains_key(z) && z != x ==> !tree.node_view().contains_key(z),
        forall|f: (int, (NodeId, Option<NodeId>))| #[trigger] q_mid.count(f) > 0 ==> q.count(f) > 0,
        forall|z: NodeId, y: NodeId| #[trigger] inc.contains_key(z) && #[trigger] g.has_edge(z, y)
            && !inc.contains_key(y) && z != x ==> exists|f: (int, (NodeId, Option<NodeId>))| #[trigger] q_mid.count(f) > 0
            && f.1.0 == y && f.0 <= label[z] + weight(cost, g.edge_at(z, y)),
        forall|y: NodeId| #[trigger] g.has_edge(x, y) && !inc.contains_key(y)
            ==> q.count((label[x] + weight(cost, g.edge_at(x, y)), (y, Some(x)))) > 0,
    ensures
        searching(g, cost, tree, roots, inc, order, label, q, b),
{
    reveal(searching);
    assert forall|z: NodeId, y: NodeId| #[trigger] inc.contains_key(z) && #[trigger] g.has_edge(z, y)
        && !inc.contains_key(y) implies exists|f: (int, (NodeId, Option<NodeId>))| #[trigger] q.count(f) > 0 && f.1.0 == y
        && f.0 <= label[z] + weight(cost, g.edge_at(z, y)) by {
        if z != x {
            let f = choose|f: (int, (NodeId, Option<NodeId>))| #[trigger] q_mid.count(f) > 0 && f.1.0 == y
                && f.0 <= label[z] + weight(cost, g.edge_at(z, y));
            assert(q.count(f) > 0);
        } else {
            assert(q.count((label[x] + weight(cost, g.edge_at(x, y)), (y, Some(x)))) > 0);
        }
    }
    assert forall|t: NodeId| #[trigger] roots.contains(t) implies inc.contains_key(t) || q.count((0int, (t, None::<NodeId>))) > 0 by {
        if !inc.contains_key(t) {
            assert(q_mid.count((0int, (t, None::<NodeId>))) > 0);
        }
    }
}

/// Once nothing is queued, no root is joined to the tree by any walk.
proof fn lemma_search_exhausted<N, E, F: Fn(&E) -> usize>(
    g: &UnGraph<N, E>,
    cost: F,
    tree: &UnGraph<(), ()>,
    roots: Set<NodeId>,
    inc: Map<NodeId, Option<NodeId>>,
    order: Map<NodeId, nat>,
    label: Map<NodeId, int>,
    q: Multiset<(int, (NodeId, Option<NodeId>))>,
    b: int,
)
    requires
        g.wf(),
        searching(g, cost, tree, roots, inc, order, label, q, b),
        q.len() == 0,
    ensures
        forall|t: NodeId, v: NodeId| #[trigger] roots.contains(t) && #[trigger] tree.node_view().contains_key(v)
            ==> !reachable(g, t, v),
{
    reveal(searching);
    assert forall|t: NodeId, v: NodeId| #[trigger] roots.contains(t) && #[trigger] tree.node_view().contains_key(v)
        implies !reachable(g, t, v) by {
        if reachable(g, t, v) {
            let w = choose|w: Seq<NodeId>| #[trigger] is_walk_between(g, w, t, v);
            if !inc.contains_key(t) {
                assert(q.count((0int, (t, None::<NodeId>))) <= q.len());
            }
            let k = lemma_first_exit(w, inc.dom());
            assert(g.has_edge(w[k - 1], w[k]));
            let f = choose|f: (int, (NodeId, Option<NodeId>))| #[trigger] q.count(f) > 0 && f.1.0 == w[k];
            assert(q.count(f) <= q.len());
        }
    }
}

/// Queues, for each neighbour `y` of the newly reached `x` that is not
/// reached yet, the candidate `(c + weight, (y, Some(x)))`.
fn queue_neighbours<N, E, F: Fn(&E) -> usize>(
    g: &UnGraph<N, E>,
    cost: &F,
    x: NodeId,
    c: usize,
    incoming: &HashMap<NodeId, Option<NodeId>>,
    heap: &mut BucketQueue<(NodeId, Option<NodeId>)>,
    Ghost(roots): Ghost<Set<NodeId>>,
    Ghost(label): Ghost<Map<NodeId, int>>,
    Ghost(b): Ghost<int>,
)
    requires
        g.wf(),
        is_cost_fn(*cost),
        weights_bounded(g, *cost),
        g.node_view().len() >= 1,
        b == usize::MAX as int / (g.node_view().len() as int),
        g.node_view().contains_key(x),
        incoming@.contains_key(x),
        label.contains_key(x),
        label[x] == c,
        1 <= incoming@.len() <= g.node_view().len(),
        c <= (incoming@.len() - 1) * b,
        old(heap).wf(),
        old(heap).floor() == c,
        queue_ok(g, *cost, roots, incoming@, label, old(heap).items(), b),
    ensures
        final(heap).wf(),
        queue_ok(g, *cost, roots, incoming@, label, final(heap).items(), b),
        final(heap).items().len() <= old(heap).items().len() + g.node_view().len(),
        forall|e: (int, (NodeId, Option<NodeId>))| #[trigger] old(heap).items().count(e) > 0 ==> final(heap).items().count(e) > 0,
        forall|y: NodeId| #[trigger] g.has_edge(x, y) && !incoming@.contains_key(y)
            ==> final(heap).items().count((c + weight(*cost, g.edge_at(x, y)), (y, Some(x)))) > 0,
{
    let ghost n: int = g.node_view().len() as int;
    let ghost inc = incoming@;
    proof {
        lemma_step_bound(inc.len() - 1, b, n, usize::MAX as int);
    }
    let nbrs = g.neighbours(x);
    proof {
        let ids = nbrs@.map_values(|p: (NodeId, &E)| p.0);
        assert(ids.no_duplicates()) by {
            assert forall|i: int, j: int| 0 <= i < ids.len() && 0 <= j < ids.len() && i != j implies ids[i] != ids[j] by {
                assert(ids[i] == nbrs@[i].0 && ids[j] == nbrs@[j].0);
                if i < j {
                    assert(nbrs@[i].0 != nbrs@[j].0);
                } else {
                    assert(nbrs@[j].0 != nbrs@[i].0);
                }
            }
        }
        ids.unique_seq_to_set();
        assert forall|y: NodeId| ids.to_set().contains(y) implies g.node_view().dom().contains(y) by {
            let j = choose|j: int| 0 <= j < ids.len() && ids[j] == y;
            g.lemma_edge_ends(x, nbrs@[j].0);
        }
        vstd::set_lib::lemma_len_subset(ids.to_set(), g.node_view().dom());
        assert(ids.len() == nbrs@.len());
    }
    let ghost q0 = heap.items();
    for k in 0..nbrs.len()
        invariant
            g.wf(),
            is_cost_fn(*cost),
            weights_bounded(g, *cost),
            n == g.node_view().len(),
            n >= 1,
            b == usize::MAX as int / n,
            incoming@ == inc,
            inc.contains_key(x),
            label[x] == c,
            c <= (inc.len() - 1) * b,
            (inc.len() - 1) * b + b <= inc.len() * b,
            inc.len() * b <= usize::MAX,
            heap.wf(),
            heap.floor() == c,
            heap.items().len() <= q0.len() + k,
            nbrs@.len() <= n,
            forall|e: (int, (NodeId, Option<NodeId>))| #[trigger] q0.count(e) > 0 ==> heap.items().count(e) > 0,
            queue_ok(g, *cost, roots, inc, label, heap.items(), b),
            forall|j: int| 0 <= j < nbrs@.len() ==> g.has_edge(x, #[trigger] nbrs@[j].0)
                && *nbrs@[j].1 == g.edge_at(x, nbrs@[j].0),
            forall|j: int| 0 <= j < k && !inc.contains_key(#[trigger] nbrs@[j].0)
                ==> heap.items().count((c + weight(*cost, g.edge_at(x, nbrs@[j].0)), (nbrs@[j].0, Some(x)))) > 0,
    {
        let (y, e) = nbrs[k];
        if !incoming.contains_key(&y) {
            let w = cost(e);
            proof {
                lemma_weight(*cost, e, w);
                g.lemma_edge_ends(x, y);
                assert(g.edge_view().contains_key(normalized(x, y)));
                assert(cost.ensures((&g.edge_view()[normalized(x, y)],), w));
                lemma_div_bound(w as int, n, usize::MAX as int);
            }
            let ghost q_before = heap.items();
            heap.push(c + w, (y, Some(x)));
            proof {
                assert(heap.items().count((c + w, (y, Some(x)))) > 0);
                assert forall|f: (int, (NodeId, Option<NodeId>))| #[trigger] heap.items().count(f) > 0 implies {
                    &&& g.node_view().contains_key(f.1.0)
                    &&& 0 <= f.0 <= inc.len() * b
                    &&& (f.1.1 is None ==> f.0 == 0 && roots.contains(f.1.0))
                    &&& (f.1.1 matches Some(p) ==> inc.contains_key(p) && g.has_edge(p, f.1.0)
                        && f.0 == label[p] + weight(*cost, g.edge_at(p, f.1.0)) && weight(*cost, g.edge_at(p, f.1.0)) <= b)
                } by {
                    if f != (c + w, (y, Some(x))) {
                        assert(q_before.count(f) > 0);
                    }
                }
                assert forall|j: int| 0 <= j < k + 1 && !inc.contains_key(#[trigger] nbrs@[j].0)
                    implies heap.items().count((c + weight(*cost, g.edge_at(x, nbrs@[j].0)), (nbrs@[j].0, Some(x)))) > 0 by {
                    if j < k {
                        assert(q_before.count((c + weight(*cost, g.edge_at(x, nbrs@[j].0)), (nbrs@[j].0, Some(x)))) > 0);
                    } else {
                        assert(heap.items().count((c + w, (y, Some(x)))) > 0);
                    }
                }
            }
        }
    }
    proof {
        assert forall|y: NodeId| #[trigger] g.has_edge(x, y) && !inc.contains_key(y)
            implies heap.items().count((c + weight(*cost, g.edge_at(x, y)), (y, Some(x)))) > 0 by {
            let j = choose|j: int| 0 <= j < nbrs@.len() && #[trigger] nbrs@[j].0 == y;
        }
    }
}

/// The result of a search that reached the tree at `x` with cost `c`: the
/// records lead from `x` back to a root.
spec fn found<N, E, F: Fn(&E) -> usize>(
    g: &UnGraph<N, E>,
    cost: F,
    tree: &UnGraph<(), ()>,
    roots: Set<NodeId>,
    inc: Map<NodeId, Option<NodeId>>,
    order: Map<NodeId, nat>,
    label: Map<NodeId, int>,
    x: NodeId,
    c: int,
    b: int,
) -> bool {
    &&& links_ok(g, cost, roots, inc, order, label, b)
    &&& inc.contains_key(x)
    &&& tree.node_view().contains_key(x)
    &&& label[x] == c
    &&& forall|z: NodeId| #[trigger] inc.contains_key(z) && z != x ==> !tree.node_view().contains_key(z)
}

/// Some records of a search lead from `x` back to a root.
spec fn found_some<N, E, F: Fn(&E) -> usize>(
    g: &UnGraph<N, E>,
    cost: F,
    tree: &UnGraph<(), ()>,
    roots: Set<NodeId>,
    inc: Map<NodeId, Option<NodeId>>,
    x: NodeId,
    c: int,
    b: int,
) -> bool {
    exists|order: Map<NodeId, nat>, label: Map<NodeId, int>|
        #[trigger] found(g, cost, tree, roots, inc, order, label, x, c, b)
}

#[verifier::spinoff_prover]
/// Searches from all `roots` at once, cheapest first, until a node of
/// `tree` is reached; returns its cost, the node, and where each reached
/// node was reached from. Returns `None` when no root is joined to the tree.
fn search_to_tree<N, E, F: Fn(&E) -> usize>(
    g: &UnGraph<N, E>,
    cost: &F,
    tree: &UnGraph<(), ()>,
    roots: &Vec<NodeId>,
    Ghost(b): Ghost<int>,
) -> (r: Option<(usize, NodeId, HashMap<NodeId, Option<NodeId>>)>)
    requires
        g.wf(),
        is_cost_fn(*cost),
        weights_bounded(g, *cost),
        g.node_view().len() >= 1,
        b == usize::MAX as int / (g.node_view().len() as int),
        tree.wf(),
        forall|k: int| 0 <= k < roots@.len() ==> g.node_view().contains_key(#[trigger] roots@[k]),
    ensures
        r is None ==> forall|t: NodeId, v: NodeId| #[trigger] roots@.contains(t) && #[trigger] tree.node_view().contains_key(v)
            ==> !reachable(g, t, v),
        r matches Some(found_at) ==> found_some(g, *cost, tree, roots@.to_set(), found_at.2@, found_at.1, found_at.0 as int, b),
        r matches Some(found_at) ==> forall|w: Seq<NodeId>| roots@.contains(w[0]) && #[trigger] is_walk_between(g, w, w[0], w.last())
            && tree.node_view().contains_key(w.last()) ==> found_at.0 <= walk_cost(g, *cost, w),
{
    let ghost n: int = g.node_view().len() as int;
    let ghost rs = roots@.to_set();
    proof {
        vstd::arithmetic::div_mod::lemma_div_pos_is_pos(usize::MAX as int, n);
    }
    let mut incoming: HashMap<NodeId, Option<NodeId>> = HashMap::new();
    let mut heap: BucketQueue<(NodeId, Option<NodeId>)> = BucketQueue::new();
    for k in 0..roots.len()
        invariant
            heap.wf(),
            heap.floor() == 0,
            rs == roots@.to_set(),
            forall|i: int| 0 <= i < roots@.len() ==> g.node_view().contains_key(#[trigger] roots@[i]),
            forall|e: (int, (NodeId, Option<NodeId>))| #[trigger] heap.items().count(e) > 0 ==> e.0 == 0
                && e.1.1 is None && rs.contains(e.1.0) && g.node_view().contains_key(e.1.0),
            forall|i: int| 0 <= i < k ==> heap.items().count((0int, (#[trigger] roots@[i], None::<NodeId>))) > 0,
    {
        let ghost q_before = heap.items();
        heap.push(0, (roots[k], None));
        proof {
            assert(roots@.contains(roots@[k as int]));
            assert forall|e: (int, (NodeId, Option<NodeId>))| #[trigger] heap.items().count(e) > 0 implies e.0 == 0
                && e.1.1 is None && rs.contains(e.1.0) && g.node_view().contains_key(e.1.0) by {
                if e != (0int, (roots@[k as int], None::<NodeId>)) {
                    assert(q_before.count(e) > 0);
                }
            }
            assert forall|i: int| 0 <= i < k + 1 implies heap.items().count((0int, (#[trigger] roots@[i], None::<NodeId>))) > 0 by {
                if i < k {
                    assert(q_before.count((0int, (roots@[i], None::<NodeId>))) > 0);
                }
            }
        }
    }
    let ghost mut order: Map<NodeId, nat> = Map::empty();
    let ghost mut label: Map<NodeId, int> = Map::empty();
    proof {
        assert forall|t: NodeId| #[trigger] rs.contains(t) implies heap.items().count((0int, (t, None::<NodeId>))) > 0 by {
            let i = choose|i: int| 0 <= i < roots@.len() && roots@[i] == t;
        }
        assert(incoming@ == Map::<NodeId, Option<NodeId>>::empty());
        lemma_search_start(g, *cost, tree, rs, heap.items(), b);
    }
    loop
        invariant
            g.wf(),
            is_cost_fn(*cost),
            weights_bounded(g, *cost),
            n == g.node_view().len(),
            n >= 1,
            b == usize::MAX as int / n,
            b >= 0,
            tree.wf(),
            heap.wf(),
            rs == roots@.to_set(),
            searching(g, *cost, tree, rs, incoming@, order, label, heap.items(), b),
            incoming@.dom().subset_of(g.node_view().dom()),
            incoming@.dom().finite(),
        decreases heap.items().len() + (n - incoming@.len()) * n,
    {
        let ghost q_old = heap.items();
        let ghost inc_old = incoming@;
        proof {
            vstd::set_lib::lemma_len_subset(inc_old.dom(), g.node_view().dom());
        }
        let (c, (x, from)) = match heap.pop() {
            None => {
                proof {
                    lemma_search_exhausted(g, *cost, tree, rs, incoming@, order, label, heap.items(), b);
                    assert forall|t: NodeId, v: NodeId| #[trigger] roots@.contains(t) && #[trigger] tree.node_view().contains_key(v)
                        implies !reachable(g, t, v) by {
                        assert(rs.contains(t));
                    }
                }
                return None;
            },
            Some(e) => e,
        };
        let ghost e = (c as int, (x, from));
        if incoming.contains_key(&x) {
            proof {
                lemma_search_skip(g, *cost, tree, rs, inc_old, order, label, q_old, b, e);
            }
        } else {
            proof {
                lemma_search_reach(g, *cost, tree, rs, inc_old, order, label, q_old, b, e);
            }
            incoming.insert(x, from);
            proof {
                order = order.insert(x, inc_old.len());
                label = label.insert(x, c as int);
                assert(incoming@ == inc_old.insert(x, from));
                assert(incoming@.dom() =~= inc_old.dom().insert(x));
            }
            if tree.contains_node(x) {
                proof {
                    assert(found(g, *cost, tree, rs, incoming@, order, label, x, c as int, b));
                    assert(found(g, *cost, tree, roots@.to_set(), incoming@, order, label, x, c as int, b));
                    assert(found_some(g, *cost, tree, roots@.to_set(), incoming@, x, c as int, b));
                    assert forall|w: Seq<NodeId>| roots@.contains(w[0]) && #[trigger] is_walk_between(g, w, w[0], w.last())
                        && tree.node_view().contains_key(w.last()) implies c <= walk_cost(g, *cost, w) by {
                        assert(rs.contains(w[0]));
                        assert(!inc_old.contains_key(w.last()));
                    }
                }
                return Some((c, x, incoming));
            }
            proof {
                vstd::set_lib::lemma_len_subset(incoming@.dom(), g.node_view().dom());
            }
            let ghost q_mid = heap.items();
            queue_neighbours(g, cost, x, c, &incoming, &mut heap, Ghost(rs), Ghost(label), Ghost(b));
            proof {
                let inc = incoming@;
                lemma_search_round(g, *cost, tree, rs, inc, order, label, q_mid, heap.items(), b, x);
                assert((n - inc.len()) * n + n == (n - inc_old.len()) * n) by (nonlinear_arith)
                    requires
                        inc.len() == inc_old.len() + 1,
                ;
            }
        }
    }
}

proof fn lemma_push_to_set<A>(s: Seq<A>, x: A)
    ensures
        s.push(x).to_set() == s.to_set().insert(x),
{
    assert forall|y: A| s.push(x).to_set().contains(y) <==> s.to_set().insert(x).contains(y) by {
        if s.push(x).to_set().contains(y) {
            let i = choose|i: int| 0 <= i < s.len() + 1 && s.push(x)[i] == y;
            if i < s.len() {
                assert(s[i] == y);
            }
        }
        if s.to_set().contains(y) {
            let i = choose|i: int| 0 <= i < s.len() && s[i] == y;
            assert(s.push(x)[i] == y);
        }
        if y == x {
            assert(s.push(x)[s.len() as int] == y);
        }
    }
    assert(s.push(x).to_set() =~= s.to_set().insert(x));
}

/// Growing a tree by a new node hung from one of its nodes keeps every node
/// joined to the seed.
proof fn lemma_hang_connected(old_t: &UnGraph<(), ()>, new_t: &UnGraph<(), ()>, seed: NodeId, prev: NodeId, next: NodeId)
    requires
        new_t.wf(),
        forall|v: NodeId| #[trigger] old_t.node_view().contains_key(v) ==> reachable(old_t, seed, v),
        new_t.node_view() == old_t.node_view().insert(next, ()),
        forall|a: NodeId, b: NodeId| #[trigger] old_t.has_edge(a, b) ==> new_t.has_edge(a, b),
        old_t.node_view().contains_key(prev),
        new_t.has_edge(prev, next),
    ensures
        forall|v: NodeId| #[trigger] new_t.node_view().contains_key(v) ==> reachable(new_t, seed, v),
{
    assert forall|v: NodeId| #[trigger] new_t.node_view().contains_key(v) implies reachable(new_t, seed, v) by {
        if v == next && !old_t.node_view().contains_key(v) {
            assert(reachable(old_t, seed, prev));
            let w = choose|w: Seq<NodeId>| #[trigger] is_walk_between(old_t, w, seed, prev);
            lemma_walk_grow(old_t, new_t, w);
            lemma_walk_push(new_t, |e: &()| 0usize, w, next);
            assert(is_walk_between(new_t, w.push(next), seed, next));
        } else {
            assert(reachable(old_t, seed, v));
            let w = choose|w: Seq<NodeId>| #[trigger] is_walk_between(old_t, w, seed, v);
            lemma_walk_grow(old_t, new_t, w);
            assert(is_walk_between(new_t, w, seed, v));
        }
    }
}

/// Where the walk back from `x` stands: `prev` is the last node hung on
/// the tree `t`, which grew from `t0` by `k` nodes and edges `es`.
#[verifier::opaque]
spec fn grafting<N, E, F: Fn(&E) -> usize>(
    g: &UnGraph<N, E>,
    cost: F,
    seed: NodeId,
    t0: &UnGraph<(), ()>,
    t: &UnGraph<(), ()>,
    roots: Set<NodeId>,
    inc: Map<NodeId, Option<NodeId>>,
    order: Map<NodeId, nat>,
    label: Map<NodeId, int>,
    x: NodeId,
    prev: NodeId,
    k: int,
    es: Seq<(NodeId, NodeId)>,
    total: int,
    b: int,
) -> bool {
    &&& g.wf()
    &&& b >= 0
    &&& links_ok(g, cost, roots, inc, order, label, b)
    &&& inc.contains_key(x)
    &&& forall|z: NodeId| #[trigger] inc.contains_key(z) && z != x ==> !t0.node_view().contains_key(z)
    &&& inc.contains_key(prev)
    &&& t.node_view().contains_key(prev)
    &&& order[prev] <= order[x]
    &&& forall|v: NodeId| #[trigger] t0.node_view().contains_key(v) ==> t.node_view().contains_key(v)
    &&& forall|v: NodeId| #[trigger] t.node_view().contains_key(v) ==> t0.node_view().contains_key(v)
        || (inc.contains_key(v) && v != x && order[v] >= order[prev])
    &&& k >= 0
    &&& t.node_view().len() == t0.node_view().len() + k
    &&& label[x] - label[prev] <= k * b
    &&& t.wf()
    &&& t.node_view().contains_key(seed)
    &&& t.node_view().dom().subset_of(g.node_view().dom())
    &&& forall|a: NodeId, b: NodeId| #[trigger] t.has_edge(a, b) ==> g.has_edge(a, b)
    &&& forall|v: NodeId| #[trigger] t.node_view().contains_key(v) ==> reachable(t, seed, v)
    &&& es.no_duplicates()
    &&& es.to_set() == t.edge_view().dom()
    &&& es.len() + 1 == t.node_view().len()
    &&& edges_cost(g, cost, es) == total + label[x] - label[prev]
    &&& forall|a: NodeId, b: NodeId| #[trigger] t0.has_edge(a, b) ==> t.has_edge(a, b)
    &&& forall|v: NodeId| #[trigger] t.node_view().contains_key(v) ==> t0.node_view().contains_key(v) || v == prev
        || branches(t, v)
    &&& (prev == x || exists|a: NodeId| #[trigger] t.has_edge(prev, a))
}

proof fn lemma_graft_start<N, E, F: Fn(&E) -> usize>(
    g: &UnGraph<N, E>,
    cost: F,
    seed: NodeId,
    t0: &UnGraph<(), ()>,
    roots: Set<NodeId>,
    inc: Map<NodeId, Option<NodeId>>,
    order: Map<NodeId, nat>,
    label: Map<NodeId, int>,
    x: NodeId,
    c: int,
    total: int,
    es: Seq<(NodeId, NodeId)>,
    b: int,
)
    requires
        g.wf(),
        b >= 0,
        grown(g, cost, seed, t0, total, es, b),
        found(g, cost, t0, roots, inc, order, label, x, c, b),
    ensures
        grafting(g, cost, seed, t0, t0, roots, inc, order, label, x, x, 0, es, total, b),
        inc.contains_key(x),
        order.contains_key(x),
        label.contains_key(x),
{
    reveal(grafting);
}

/// The next node of the walk back is new to the tree.
proof fn lemma_graft_next<N, E, F: Fn(&E) -> usize>(
    g: &UnGraph<N, E>,
    cost: F,
    seed: NodeId,
    t0: &UnGraph<(), ()>,
    t: &UnGraph<(), ()>,
    roots: Set<NodeId>,
    inc: Map<NodeId, Option<NodeId>>,
    order: Map<NodeId, nat>,
    label: Map<NodeId, int>,
    x: NodeId,
    prev: NodeId,
    k: int,
    es: Seq<(NodeId, NodeId)>,
    total: int,
    b: int,
    next: NodeId,
)
    requires
        grafting(g, cost, seed, t0, t, roots, inc, order, label, x, prev, k, es, total, b),
        inc[prev] == Some(next),
    ensures
        t.wf(),
        !t.node_view().contains_key(next),
        t.node_view().contains_key(prev),
        inc.contains_key(next),
        order.contains_key(next),
        next != prev,
        forall|a: NodeId| !t.has_edge(next, a),
        order[next] < order[prev],
{
    reveal(grafting);
    assert(inc.contains_key(next));
    g.lemma_edge_ends(next, prev);
    assert forall|a: NodeId| !t.has_edge(next, a) by {
        if t.has_edge(next, a) {
            t.lemma_edge_ends(next, a);
        }
    }
}

/// Hanging `next` on `prev` moves the walk back one step.
proof fn lemma_graft_step<N, E, F: Fn(&E) -> usize>(
    g: &UnGraph<N, E>,
    cost: F,
    seed: NodeId,
    t0: &UnGraph<(), ()>,
    t: &UnGraph<(), ()>,
    t2: &UnGraph<(), ()>,
    roots: Set<NodeId>,
    inc: Map<NodeId, Option<NodeId>>,
    order: Map<NodeId, nat>,
    label: Map<NodeId, int>,
    x: NodeId,
    prev: NodeId,
    k: int,
    es: Seq<(NodeId, NodeId)>,
    total: int,
    b: int,
    next: NodeId,
)
    requires
        grafting(g, cost, seed, t0, t, roots, inc, order, label, x, prev, k, es, total, b),
        inc[prev] == Some(next),
        !t.node_view().contains_key(next),
        forall|a: NodeId| !t.has_edge(next, a),
        t2.wf(),
        t2.node_view() == t.node_view().insert(next, ()),
        t2.edge_view() == t.edge_view().insert(normalized(next, prev), ()),
    ensures
        grafting(g, cost, seed, t0, t2, roots, inc, order, label, x, next, k + 1,
            es.push(normalized(next, prev)), total, b),
        inc.contains_key(next),
        order.contains_key(next),
{
    reveal(grafting);
    let e = normalized(next, prev);
    assert(inc.contains_key(next));
    g.lemma_edge_ends(next, prev);
    assert(!es.to_set().contains(e)) by {
        if es.to_set().contains(e) {
            assert(t.edge_view().contains_key(e));
            assert(t.has_edge(next, prev));
        }
    }
    lemma_push_to_set(es, e);
    assert(t2.edge_view().dom() =~= t.edge_view().dom().insert(e));
    assert(es.push(e).drop_last() =~= es);
    assert(normalized(e.0, e.1) == e);
    assert(g.edge_at(e.0, e.1) == g.edge_at(next, prev));
    assert forall|a: NodeId, b2: NodeId| #[trigger] t2.has_edge(a, b2) implies g.has_edge(a, b2) by {
        if !t.has_edge(a, b2) {
            assert(normalized(a, b2) == e);
        }
    }
    assert forall|a: NodeId, b2: NodeId| #[trigger] t.has_edge(a, b2) implies t2.has_edge(a, b2) by {
    }
    assert(t2.has_edge(prev, next)) by {
        assert(normalized(prev, next) == e);
    }
    lemma_hang_connected(t, t2, seed, prev, next);
    assert forall|a: NodeId, b2: NodeId| #[trigger] t0.has_edge(a, b2) implies t2.has_edge(a, b2) by {
        assert(t.has_edge(a, b2));
    }
    assert(t2.has_edge(next, prev)) by {
        assert(normalized(next, prev) == e);
    }
    assert forall|v: NodeId| #[trigger] t2.node_view().contains_key(v) implies t0.node_view().contains_key(v) || v == next
        || branches(t2, v) by {
        if v != next && !t0.node_view().contains_key(v) {
            if v == prev {
                if prev != x {
                    let a = choose|a: NodeId| #[trigger] t.has_edge(prev, a);
                    assert(t2.has_edge(prev, a));
                    assert(a != next);
                    assert(t2.has_edge(prev, next));
                }
            } else {
                assert(t.node_view().contains_key(v));
                assert(branches(t, v));
                let (a, b2) = choose|a: NodeId, b2: NodeId| a != b2 && #[trigger] t.has_edge(v, a) && #[trigger] t.has_edge(v, b2);
                assert(t2.has_edge(v, a) && t2.has_edge(v, b2));
            }
        }
    }
    assert(label[x] - label[next] <= (k + 1) * b) by (nonlinear_arith)
        requires
            label[x] - label[prev] <= k * b,
            label[prev] == label[next] + weight(cost, g.edge_at(next, prev)),
            weight(cost, g.edge_at(next, prev)) <= b,
    ;
    assert(t2.node_view().dom() =~= t.node_view().dom().insert(next));
    assert forall|v: NodeId| #[trigger] t2.node_view().contains_key(v) implies t0.node_view().contains_key(v)
        || (inc.contains_key(v) && v != x && order[v] >= order[next]) by {
    }
}

proof fn lemma_graft_end<N, E, F: Fn(&E) -> usize>(
    g: &UnGraph<N, E>,
    cost: F,
    seed: NodeId,
    t0: &UnGraph<(), ()>,
    t: &UnGraph<(), ()>,
    roots: Set<NodeId>,
    inc: Map<NodeId, Option<NodeId>>,
    order: Map<NodeId, nat>,
    label: Map<NodeId, int>,
    x: NodeId,
    prev: NodeId,
    k: int,
    es: Seq<(NodeId, NodeId)>,
    total: int,
    c: int,
    b: int,
)
    requires
        grafting(g, cost, seed, t0, t, roots, inc, order, label, x, prev, k, es, total, b),
        total <= (t0.node_view().len() - 1) * b,
        label[x] == c,
        inc[prev] is None,
    ensures
        grown(g, cost, seed, t, total + c, es, b),
        roots.contains(prev),
        t.node_view().contains_key(prev),
        forall|v: NodeId| #[trigger] t0.node_view().contains_key(v) ==> t.node_view().contains_key(v),
        forall|ends: Set<NodeId>| leaves_in(t0, seed, ends) && roots.subset_of(ends) ==> #[trigger] leaves_in(t, seed, ends),
{
    reveal(grafting);
    assert forall|ends: Set<NodeId>| leaves_in(t0, seed, ends) && roots.subset_of(ends) implies #[trigger] leaves_in(t, seed, ends) by {
        assert forall|v: NodeId| #[trigger] t.node_view().contains_key(v) implies v == seed || ends.contains(v) || branches(t, v) by {
            if t0.node_view().contains_key(v) && v != seed && !ends.contains(v) {
                assert(branches(t0, v));
                let (a, b2) = choose|a: NodeId, b2: NodeId| a != b2 && #[trigger] t0.has_edge(v, a) && #[trigger] t0.has_edge(v, b2);
                assert(t.has_edge(v, a) && t.has_edge(v, b2));
            }
        }
    }
    let m0 = t0.node_view().len() as int;
    let m1 = t.node_view().len() as int;
    assert(total + c <= (m1 - 1) * b) by (nonlinear_arith)
        requires
            total <= (m0 - 1) * b,
            c - label[prev] <= k * b,
            label[prev] == 0,
            m1 == m0 + k,
    ;
}

/// Adds to `tree` the walk that the search records lead along from `x`
/// back to a root, and returns that root, with the tree's edges in the
/// order they were added.
#[verifier::spinoff_prover]
fn graft<N, E, F: Fn(&E) -> usize>(
    g: &UnGraph<N, E>,
    cost: &F,
    seed: NodeId,
    tree: &mut UnGraph<(), ()>,
    incoming: &HashMap<NodeId, Option<NodeId>>,
    x: NodeId,
    Ghost(roots): Ghost<Set<NodeId>>,
    Ghost(order): Ghost<Map<NodeId, nat>>,
    Ghost(label): Ghost<Map<NodeId, int>>,
    Ghost(c): Ghost<int>,
    Ghost(total): Ghost<int>,
    Ghost(es): Ghost<Seq<(NodeId, NodeId)>>,
    Ghost(b): Ghost<int>,
) -> (r: (NodeId, Ghost<Seq<(NodeId, NodeId)>>))
    requires
        g.wf(),
        b >= 0,
        grown(g, *cost, seed, old(tree), total, es, b),
        found(g, *cost, old(tree), roots, incoming@, order, label, x, c, b),
    ensures
        grown(g, *cost, seed, final(tree), total + c, r.1@, b),
        roots.contains(r.0),
        final(tree).node_view().contains_key(r.0),
        forall|v: NodeId| #[trigger] old(tree).node_view().contains_key(v) ==> final(tree).node_view().contains_key(v),
        forall|ends: Set<NodeId>| leaves_in(old(tree), seed, ends) && roots.subset_of(ends)
            ==> #[trigger] leaves_in(final(tree), seed, ends),
{
    let ghost inc = incoming@;
    let ghost t0 = *tree;
    let mut prev = x;
    let ghost mut k: int = 0;
    let ghost mut es2 = es;
    proof {
        lemma_graft_start(g, *cost, seed, &t0, roots, inc, order, label, x, c, total, es, b);
    }
    loop
        invariant
            incoming@ == inc,
            t0 == *old(tree),
            label.contains_key(x),
            label[x] == c,
            inc.contains_key(prev),
            order.contains_key(prev),
            total <= (t0.node_view().len() - 1) * b,
            grafting(g, *cost, seed, &t0, tree, roots, inc, order, label, x, prev, k, es2, total, b),
        ensures
            t0 == *old(tree),
            label[x] == c,
            total <= (t0.node_view().len() - 1) * b,
            grafting(g, *cost, seed, &t0, tree, roots, inc, order, label, x, prev, k, es2, total, b),
            inc[prev] is None,
        decreases order[prev],
    {
        let link = *incoming.get(&prev).unwrap();
        let next = match link {
            None => {
                break;
            },
            Some(next) => next,
        };
        proof {
            lemma_graft_next(g, *cost, seed, &t0, tree, roots, inc, order, label, x, prev, k, es2, total, b, next);
        }
        let ghost before = *tree;
        tree.add_node(next, ());
        tree.add_edge(next, prev, ());
        proof {
            lemma_graft_step(g, *cost, seed, &t0, &before, tree, roots, inc, order, label, x, prev, k, es2, total, b, next);
            es2 = es2.push(normalized(next, prev));
            k = k + 1;
        }
        prev = next;
    }
    proof {
        lemma_graft_end(g, *cost, seed, &t0, tree, roots, inc, order, label, x, prev, k, es2, total, c, b);
    }
    (prev, Ghost(es2))
}

/// Joins `seed` and every terminal by a tree of `g`, greedily: while a
/// terminal is missing, a cheapest walk from the missing terminals to the
/// tree is added. Returns the tree with the sum of its edge weights, or
/// `None` when some terminal cannot be reached from `seed`.
///
/// Every walk added ends at a terminal, so each node of the tree with fewer
/// than two neighbours in it is `seed` or a terminal.
///
/// Each round costs no more than any walk from a missing terminal to the
/// tree, so the total is at most what joining each terminal to `seed` by a
/// walk of its own would cost.
///
/// Ties between equal-cost walks are broken by a fixed order, so the result
/// depends on the inputs alone: the missing terminals are queued in the
/// order of `terminals`, each reached node queues its neighbours in
/// increasing id order, and among candidates of equal cost the one queued
/// last is taken first.
pub fn steiner_mst_usize<N, E, F: Fn(&E) -> usize>(
    g: &UnGraph<N, E>,
    seed: NodeId,
    terminals: &Vec<NodeId>,
    cost: &F,
) -> (r: Option<(usize, UnGraph<(), ()>)>)
    requires
        g.wf(),
        g.node_view().contains_key(seed),
        forall|k: int| 0 <= k < terminals@.len() ==> g.node_view().contains_key(#[trigger] terminals@[k]),
        is_cost_fn(*cost),
        weights_bounded(g, *cost),
    ensures
        r is None <==> exists|t: NodeId| #[trigger] terminals@.contains(t) && !reachable(g, seed, t),
        r matches Some(found_tree) ==> {
            &&& is_tree_of(g, *cost, seed, &found_tree.1, found_tree.0 as int)
            &&& forall|t: NodeId| #[trigger] terminals@.contains(t) ==> found_tree.1.node_view().contains_key(t)
            &&& forall|ws: Seq<Seq<NodeId>>| #[trigger] joins_each(g, seed, terminals@, ws)
                ==> found_tree.0 <= walks_cost(g, *cost, ws)
            &&& leaves_in(&found_tree.1, seed, terminals@.to_set())
        },
{
    let ghost n: int = g.node_view().len() as int;
    proof {
        assert(g.node_view().dom().contains(seed));
        vstd::set_lib::lemma_set_empty_equivalency_len(g.node_view().dom());
        vstd::arithmetic::div_mod::lemma_div_pos_is_pos(usize::MAX as int, n);
    }
    let ghost b: int = usize::MAX as int / n;
    let mut tree_cost: usize = 0;
    let mut tree: UnGraph<(), ()> = UnGraph::with_capacity(1, 0);
    tree.add_node(seed, ());
    let ghost mut es: Seq<(NodeId, NodeId)> = Seq::empty();
    let ghost mut chosen: Seq<bool> = Seq::new(terminals@.len(), |k: int| false);
    proof {
        assert forall|ws: Seq<Seq<NodeId>>| #[trigger] joins_each(g, seed, terminals@, ws)
            implies 0 <= chosen_cost(g, *cost, ws, chosen) by {
            lemma_chosen_none(g, *cost, ws, chosen);
        }
    }
    proof {
        assert(tree.edge_view().dom() =~= Set::empty());
        assert(es.to_set() =~= Set::empty());
        assert(tree.node_view().dom() =~= set![seed]);
        assert(reachable(&tree, seed, seed)) by {
            assert(is_walk_between(&tree, seq![seed], seed, seed));
        }
        assert(tree.node_view().len() == 1);
        assert forall|v: NodeId| #[trigger] tree.node_view().contains_key(v) implies v == seed by {
            assert(tree.node_view().dom().contains(v));
        }
    }
    let mut remaining: Vec<NodeId> = Vec::new();
    for k in 0..terminals.len()
        invariant
            remaining@ == terminals@.take(k as int),
    {
        remaining.push(terminals[k]);
        assert(terminals@.take(k + 1) =~= terminals@.take(k as int).push(terminals@[k as int]));
    }
    assert(remaining@ =~= terminals@);
    while remaining.len() > 0
        invariant
            g.wf(),
            g.node_view().contains_key(seed),
            is_cost_fn(*cost),
            weights_bounded(g, *cost),
            n == g.node_view().len(),
            n >= 1,
            b == usize::MAX as int / n,
            b >= 0,
            grown(g, *cost, seed, &tree, tree_cost as int, es, b),
            forall|k: int| 0 <= k < remaining@.len() ==> g.node_view().contains_key(#[trigger] remaining@[k])
                && terminals@.contains(remaining@[k]),
            forall|t: NodeId| #[trigger] terminals@.contains(t) ==> tree.node_view().contains_key(t) || remaining@.contains(t),
            leaves_in(&tree, seed, terminals@.to_set()),
            chosen.len() == terminals@.len(),
            forall|k: int| 0 <= k < chosen.len() && #[trigger] chosen[k] ==> tree.node_view().contains_key(terminals@[k]),
            forall|ws: Seq<Seq<NodeId>>| #[trigger] joins_each(g, seed, terminals@, ws)
                ==> tree_cost <= chosen_cost(g, *cost, ws, chosen),
        decreases remaining@.len(),
    {
        let ghost rs = remaining@.to_set();
        match search_to_tree(g, cost, &tree, &remaining, Ghost(b)) {
            None => {
                proof {
                    let t = remaining@[0];
                    assert(remaining@.contains(t));
                    if reachable(g, seed, t) {
                        lemma_reachable_symmetric(g, *cost, seed, t);
                    }
                    assert(terminals@.contains(t) && !reachable(g, seed, t));
                }
                return None;
            },
            Some(hit) => {
                let (c, x, incoming) = hit;
                let ghost (order, label) = choose|order: Map<NodeId, nat>, label: Map<NodeId, int>|
                    #[trigger] found(g, *cost, &tree, rs, incoming@, order, label, x, c as int, b);
                let ghost before = tree;
                let (t, Ghost(es2)) = graft(g, cost, seed, &mut tree, &incoming, x, Ghost(rs), Ghost(order),
                    Ghost(label), Ghost(c as int), Ghost(tree_cost as int), Ghost(es), Ghost(b));
                proof {
                    assert(rs.subset_of(terminals@.to_set())) by {
                        assert forall|t2: NodeId| rs.contains(t2) implies terminals@.to_set().contains(t2) by {
                            let i = choose|i: int| 0 <= i < remaining@.len() && remaining@[i] == t2;
                            assert(terminals@.contains(remaining@[i]));
                        }
                    }
                    assert(leaves_in(&tree, seed, terminals@.to_set()));
                    vstd::set_lib::lemma_len_subset(tree.node_view().dom(), g.node_view().dom());
                    lemma_step_bound(tree.node_view().len() - 1, b, n, usize::MAX as int);
                }
                proof {
                    assert(terminals@.contains(t)) by {
                        let i = choose|i: int| 0 <= i < remaining@.len() && remaining@[i] == t;
                        assert(terminals@.contains(remaining@[i]));
                    }
                    assert(remaining@.contains(t)) by {
                        let i = choose|i: int| 0 <= i < remaining@.len() && remaining@[i] == t;
                    }
                    if before.node_view().contains_key(t) {
                        // `t` was in the tree already: it joined at no cost.
                        let single = seq![t];
                        assert(is_walk_between(g, single, single[0], single.last()));
                        assert(walk_cost(g, *cost, single) == 0);
                        assert(c <= 0);
                        assert forall|ws: Seq<Seq<NodeId>>| #[trigger] joins_each(g, seed, terminals@, ws)
                            implies tree_cost + c <= chosen_cost(g, *cost, ws, chosen) by {
                        }
                    } else {
                        let kt = choose|k: int| 0 <= k < terminals@.len() && terminals@[k] == t;
                        assert(!chosen[kt]);
                        let chosen2 = chosen.update(kt, true);
                        assert forall|ws: Seq<Seq<NodeId>>| #[trigger] joins_each(g, seed, terminals@, ws)
                            implies tree_cost + c <= chosen_cost(g, *cost, ws, chosen2) by {
                            lemma_chosen_add(g, *cost, ws, chosen, kt);
                            assert(is_walk_between(g, ws[kt], seed, t));
                            crate::walks::lemma_walk_reverse(g, *cost, ws[kt]);
                            let back = ws[kt].reverse();
                            assert(is_walk_between(g, back, back[0], back.last()));
                            assert(remaining@.contains(back[0]));
                            assert(before.node_view().contains_key(back.last()));
                        }
                        assert forall|k: int| 0 <= k < chosen2.len() && #[trigger] chosen2[k] implies tree.node_view().contains_key(terminals@[k]) by {
                            if k != kt {
                                assert(chosen[k]);
                            }
                        }
                        chosen = chosen2;
                    }
                }
                tree_cost = tree_cost + c;
                proof {
                    es = es2;
                }
                let ghost pos = choose|i: int| 0 <= i < remaining@.len() && remaining@[i] == t;
                let mut kept: Vec<NodeId> = Vec::new();
                for k in 0..remaining.len()
                    invariant
                        0 <= pos < remaining@.len(),
                        tree.node_view().contains_key(remaining@[pos]),
                        kept@.len() <= k,
                        k > pos ==> kept@.len() < k,
                        forall|i: int| 0 <= i < kept@.len() ==> remaining@.contains(#[trigger] kept@[i]),
                        forall|i: int| 0 <= i < k && !tree.node_view().contains_key(#[trigger] remaining@[i])
                            ==> kept@.contains(remaining@[i]),
                {
                    if !tree.contains_node(remaining[k]) {
                        let ghost old_kept = kept@;
                        kept.push(remaining[k]);
                        proof {
                            assert forall|i: int| 0 <= i < k + 1 && !tree.node_view().contains_key(#[trigger] remaining@[i])
                                implies kept@.contains(remaining@[i]) by {
                                if i < k {
                                    assert(old_kept.contains(remaining@[i]));
                                    let j = choose|j: int| 0 <= j < old_kept.len() && old_kept[j] == remaining@[i];
                                    assert(kept@[j] == remaining@[i]);
                                } else {
                                    assert(kept@[old_kept.len() as int] == remaining@[i]);
                                }
                            }
                        }
                    }
                }
                proof {
                    assert forall|t2: NodeId| #[trigger] terminals@.contains(t2) implies tree.node_view().contains_key(t2)
                        || kept@.contains(t2) by {
                        if !tree.node_view().contains_key(t2) {
                            assert(!before.node_view().contains_key(t2));
                            assert(remaining@.contains(t2));
                            let i = choose|i: int| 0 <= i < remaining@.len() && remaining@[i] == t2;
                        }
                    }
                    assert forall|k: int| 0 <= k < kept@.len() implies g.node_view().contains_key(#[trigger] kept@[k])
                        && terminals@.contains(kept@[k]) by {
                        assert(remaining@.contains(kept@[k]));
                        let i = choose|i: int| 0 <= i < remaining@.len() && remaining@[i] == kept@[k];
                    }
                }
                remaining = kept;
            },
        }
    }
    proof {
        assert forall|t: NodeId| #[trigger] terminals@.contains(t) implies tree.node_view().contains_key(t) by {
            assert(!remaining@.contains(t));
        }
        assert forall|t: NodeId| #[trigger] terminals@.contains(t) implies reachable(g, seed, t) by {
            assert(reachable(&tree, seed, t));
            let w = choose|w: Seq<NodeId>| #[trigger] is_walk_between(&tree, w, seed, t);
            lemma_walk_grow(&tree, g, w);
            assert(is_walk_between(g, w, seed, t));
        }
        assert(edges_cost(g, *cost, es) == tree_cost as int);
        es.unique_seq_to_set();
        assert forall|ws: Seq<Seq<NodeId>>| #[trigger] joins_each(g, seed, terminals@, ws)
            implies tree_cost <= walks_cost(g, *cost, ws) by {
            lemma_chosen_le(g, *cost, ws, chosen);
        }
    }
    Some((tree_cost, tree))
}

/// The general entry point of the greedy Steiner tree: same contract as
/// `steiner_mst_usize`, whose bucket-queue search and tie-breaking order it
/// runs, so that both give the same tree for the same input.
pub fn steiner_mst<N, E, F: Fn(&E) -> usize>(
    g: &UnGraph<N, E>,
    seed: NodeId,
    terminals: &Vec<NodeId>,
    cost: &F,
) -> (r: Option<(usize, UnGraph<(), ()>)>)
    requires
        g.wf(),
        g.node_view().contains_key(seed),
        forall|k: int| 0 <= k < terminals@.len() ==> g.node_view().contains_key(#[trigger] terminals@[k]),
        is_cost_fn(*cost),
        weights_bounded(g, *cost),
    ensures
        r is None <==> exists|t: NodeId| #[trigger] terminals@.contains(t) && !reachable(g, seed, t),
        r matches Some(found_tree) ==> {
            &&& is_tree_of(g, *cost, seed, &found_tree.1, found_tree.0 as int)
            &&& forall|t: NodeId| #[trigger] terminals@.contains(t) ==> found_tree.1.node_view().contains_key(t)
            &&& forall|ws: Seq<Seq<NodeId>>| #[trigger] joins_each(g, seed, terminals@, ws)
                ==> found_tree.0 <= walks_cost(g, *cost, ws)
            &&& leaves_in(&found_tree.1, seed, terminals@.to_set())
        },
{
    steiner_mst_usize(g, seed, terminals, cost)
}

} // verus!