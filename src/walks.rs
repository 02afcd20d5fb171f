//! Walks in a graph, their costs under a cost function, and shortest
//! distances.

use crate::graph::{normalized, NodeId, UnGraph};
use vstd::prelude::*;

verus! {

/// `cost` may be called on any edge payload and gives each payload exactly
/// one weight.
pub open spec fn is_cost_fn<E, F: Fn(&E) -> usize>(cost: F) -> bool {
    &&& forall|e: &E| #[trigger] cost.requires((e,))
    &&& forall|e: &E, r1: usize, r2: usize|
        #[trigger] cost.ensures((e,), r1) && #[trigger] cost.ensures((e,), r2) ==> r1 == r2
}

/// The weight that `cost` gives to the payload `e`.
pub open spec fn weight<E, F: Fn(&E) -> usize>(cost: F, e: E) -> int {
    (choose|r: usize| cost.ensures((&e,), r)) as int
}

/// A call of the cost function returned the weight of its argument.
pub proof fn lemma_weight<E, F: Fn(&E) -> usize>(cost: F, e: &E, r: usize)
    requires
        is_cost_fn(cost),
        cost.ensures((e,), r),
    ensures
        weight(cost, *e) == r,
{
    let c = choose|c: usize| cost.ensures((e,), c);
    assert(cost.ensures((e,), c));
}

/// `w` is a walk of `g`: a non-empty sequence of nodes, each joined to the
/// next by an edge.
pub open spec fn is_walk<N, E>(g: &UnGraph<N, E>, w: Seq<NodeId>) -> bool {
    &&& w.len() >= 1
    &&& g.node_view().contains_key(w[0])
    &&& forall|k: int| 0 <= k < w.len() - 1 ==> g.has_edge(#[trigger] w[k], w[k + 1])
}

/// `w` is a walk of `g` from `a` to `b`.
pub open spec fn is_walk_between<N, E>(g: &UnGraph<N, E>, w: Seq<NodeId>, a: NodeId, b: NodeId) -> bool {
    is_walk(g, w) && w[0] == a && w.last() == b
}

/// The sum of the weights of the edges that `w` follows.
pub open spec fn walk_cost<N, E, F: Fn(&E) -> usize>(g: &UnGraph<N, E>, cost: F, w: Seq<NodeId>) -> int
    decreases w.len(),
{
    if w.len() <= 1 {
        0
    } else {
        walk_cost(g, cost, w.drop_last()) + weight(cost, g.edge_at(w[w.len() - 2], w[w.len() - 1]))
    }
}

/// Some walk of `g` leads from `a` to `b`.
pub open spec fn reachable<N, E>(g: &UnGraph<N, E>, a: NodeId, b: NodeId) -> bool {
    exists|w: Seq<NodeId>| #[trigger] is_walk_between(g, w, a, b)
}

/// `d` is the least cost of a walk of `g` from `a` to `b`.
pub open spec fn is_distance<N, E, F: Fn(&E) -> usize>(
    g: &UnGraph<N, E>,
    cost: F,
    a: NodeId,
    b: NodeId,
    d: int,
) -> bool {
    &&& exists|w: Seq<NodeId>| #[trigger] is_walk_between(g, w, a, b) && walk_cost(g, cost, w) == d
    &&& forall|w: Seq<NodeId>| #[trigger] is_walk_between(g, w, a, b) ==> walk_cost(g, cost, w) >= d
}

/// Whatever `cost` returns on an edge of `g`, times the number of nodes,
/// fits in a `usize`: no walk that visits each node once can overflow.
pub open spec fn weights_bounded<N, E, F: Fn(&E) -> usize>(g: &UnGraph<N, E>, cost: F) -> bool {
    forall|p: (NodeId, NodeId), r: usize| #[trigger] g.edge_view().contains_key(p) && #[trigger] cost.ensures((&g.edge_view()[p],), r)
        ==> r * g.node_view().len() <= usize::MAX
}

/// No walk costs less than nothing.
pub proof fn lemma_walk_cost_nonneg<N, E, F: Fn(&E) -> usize>(g: &UnGraph<N, E>, cost: F, w: Seq<NodeId>)
    ensures
        walk_cost(g, cost, w) >= 0,
    decreases w.len(),
{
    if w.len() > 1 {
        lemma_walk_cost_nonneg(g, cost, w.drop_last());
    }
}

/// Extending a walk by one edge adds that edge's weight.
pub proof fn lemma_walk_push<N, E, F: Fn(&E) -> usize>(g: &UnGraph<N, E>, cost: F, w: Seq<NodeId>, x: NodeId)
    requires
        is_walk(g, w),
        g.has_edge(w.last(), x),
    ensures
        is_walk(g, w.push(x)),
        walk_cost(g, cost, w.push(x)) == walk_cost(g, cost, w) + weight(cost, g.edge_at(w.last(), x)),
{
    let v = w.push(x);
    assert(v.drop_last() =~= w);
    assert forall|k: int| 0 <= k < v.len() - 1 implies g.has_edge(#[trigger] v[k], v[k + 1]) by {
        if k < w.len() - 1 {
            assert(v[k] == w[k] && v[k + 1] == w[k + 1]);
        }
    }
}

/// A prefix of a walk is a walk, and costs no more.
pub proof fn lemma_walk_prefix<N, E, F: Fn(&E) -> usize>(g: &UnGraph<N, E>, cost: F, w: Seq<NodeId>, j: int)
    requires
        is_walk(g, w),
        1 <= j <= w.len(),
    ensures
        is_walk(g, w.take(j)),
        walk_cost(g, cost, w.take(j)) <= walk_cost(g, cost, w),
    decreases w.len(),
{
    assert forall|k: int| 0 <= k < w.take(j).len() - 1 implies g.has_edge(#[trigger] w.take(j)[k], w.take(j)[k + 1]) by {
        assert(w.take(j)[k] == w[k] && w.take(j)[k + 1] == w[k + 1]);
    }
    if j < w.len() {
        let u = w.drop_last();
        assert forall|k: int| 0 <= k < u.len() - 1 implies g.has_edge(#[trigger] u[k], u[k + 1]) by {
            assert(u[k] == w[k] && u[k + 1] == w[k + 1]);
        }
        lemma_walk_prefix(g, cost, u, j);
        assert(u.take(j) =~= w.take(j));
    } else {
        assert(w.take(j) =~= w);
    }
}

/// The cost of a prefix one node longer adds the weight of the edge that it
/// follows last.
pub proof fn lemma_walk_prefix_step<N, E, F: Fn(&E) -> usize>(g: &UnGraph<N, E>, cost: F, w: Seq<NodeId>, j: int)
    requires
        1 <= j < w.len(),
    ensures
        walk_cost(g, cost, w.take(j + 1)) == walk_cost(g, cost, w.take(j)) + weight(cost, g.edge_at(w[j - 1], w[j])),
{
    assert(w.take(j + 1).drop_last() =~= w.take(j));
}

/// A walk that starts inside a set and ends outside it leaves the set
/// along some edge.
pub proof fn lemma_first_exit(w: Seq<NodeId>, s: Set<NodeId>) -> (k: int)
    requires
        w.len() >= 1,
        s.contains(w[0]),
        !s.contains(w.last()),
    ensures
        1 <= k < w.len(),
        s.contains(w[k - 1]),
        !s.contains(w[k]),
    decreases w.len(),
{
    if s.contains(w[w.len() - 2]) {
        w.len() - 1
    } else {
        let u = w.drop_last();
        let k = lemma_first_exit(u, s);
        k
    }
}

/// Reversing a walk gives a walk between the same ends, in the other
/// direction, at the same cost.
pub proof fn lemma_walk_reverse<N, E, F: Fn(&E) -> usize>(g: &UnGraph<N, E>, cost: F, w: Seq<NodeId>)
    requires
        g.wf(),
        is_walk(g, w),
    ensures
        is_walk(g, w.reverse()),
        walk_cost(g, cost, w.reverse()) == walk_cost(g, cost, w),
    decreases w.len(),
{
    let r = w.reverse();
    assert forall|k: int| 0 <= k < r.len() - 1 implies g.has_edge(#[trigger] r[k], r[k + 1]) by {
        let i = w.len() - 2 - k;
        assert(g.has_edge(w[i], w[i + 1]));
        assert(r[k] == w[i + 1] && r[k + 1] == w[i]);
        assert(normalized(w[i], w[i + 1]) == normalized(w[i + 1], w[i]));
    }
    if w.len() == 1 {
        assert(g.node_view().contains_key(r[0]));
    } else {
        assert(g.has_edge(w[0], w[1]));
        assert(g.node_view().contains_key(w[w.len() - 1])) by {
            assert(g.has_edge(w[w.len() - 2], w[w.len() - 1]));
            assert(g.edge_view().contains_key(normalized(w[w.len() - 2], w[w.len() - 1])));
        }
        lemma_walk_cost_reverse_split(g, cost, w);
    }
}

proof fn lemma_walk_cost_reverse_split<N, E, F: Fn(&E) -> usize>(g: &UnGraph<N, E>, cost: F, w: Seq<NodeId>)
    requires
        g.wf(),
        is_walk(g, w),
        w.len() >= 2,
    ensures
        walk_cost(g, cost, w.reverse()) == walk_cost(g, cost, w),
    decreases w.len(),
{
    // Peel the first node: cost(w) == weight(w0, w1) + cost(w.drop_first()).
    lemma_walk_cost_drop_first(g, cost, w);
    let t = w.drop_first();
    assert forall|k: int| 0 <= k < t.len() - 1 implies g.has_edge(#[trigger] t[k], t[k + 1]) by {
        assert(t[k] == w[k + 1] && t[k + 1] == w[k + 2]);
    }
    assert(g.has_edge(w[0], w[1]));
    assert(g.node_view().contains_key(t[0])) by {
        assert(g.edge_view().contains_key(normalized(w[0], w[1])));
    }
    if t.len() >= 2 {
        lemma_walk_cost_reverse_split(g, cost, t);
    }
    // cost(w.reverse()) == cost(t.reverse()) + weight(w1, w0).
    let r = w.reverse();
    assert(r.drop_last() =~= t.reverse());
    assert(r[r.len() - 2] == w[1] && r[r.len() - 1] == w[0]);
    assert(normalized(w[1], w[0]) == normalized(w[0], w[1]));
    if t.len() == 1 {
        assert(t.reverse() =~= t);
        assert(walk_cost(g, cost, t) == 0);
    }
    assert(walk_cost(g, cost, r) == walk_cost(g, cost, r.drop_last()) + weight(cost, g.edge_at(r[r.len() - 2], r[r.len() - 1])));
}

/// Peeling the first edge off a walk.
pub proof fn lemma_walk_cost_drop_first<N, E, F: Fn(&E) -> usize>(g: &UnGraph<N, E>, cost: F, w: Seq<NodeId>)
    requires
        w.len() >= 2,
    ensures
        walk_cost(g, cost, w) == weight(cost, g.edge_at(w[0], w[1])) + walk_cost(g, cost, w.drop_first()),
    decreases w.len(),
{
    if w.len() > 2 {
        let u = w.drop_last();
        lemma_walk_cost_drop_first(g, cost, u);
        assert(u.drop_first() =~= w.drop_first().drop_last());
        assert(u[0] == w[0] && u[1] == w[1]);
        let t = w.drop_first();
        assert(t[t.len() - 2] == w[w.len() - 2] && t[t.len() - 1] == w[w.len() - 1]);
        assert(walk_cost(g, cost, t) == walk_cost(g, cost, t.drop_last()) + weight(cost, g.edge_at(t[t.len() - 2], t[t.len() - 1])));
        assert(walk_cost(g, cost, w) == walk_cost(g, cost, u) + weight(cost, g.edge_at(w[w.len() - 2], w[w.len() - 1])));
    } else {
        assert(w.drop_first().len() == 1);
        assert(w.drop_last().len() == 1);
        assert(walk_cost(g, cost, w.drop_last()) == 0);
        assert(walk_cost(g, cost, w.drop_first()) == 0);
        assert(walk_cost(g, cost, w) == walk_cost(g, cost, w.drop_last()) + weight(cost, g.edge_at(w[0], w[1])));
    }
}

/// Reachability is symmetric.
pub proof fn lemma_reachable_symmetric<N, E, F: Fn(&E) -> usize>(g: &UnGraph<N, E>, cost: F, a: NodeId, b: NodeId)
    requires
        g.wf(),
        reachable(g, a, b),
    ensures
        reachable(g, b, a),
{
    let w = choose|w: Seq<NodeId>| #[trigger] is_walk_between(g, w, a, b);
    lemma_walk_reverse(g, cost, w);
    assert(is_walk_between(g, w.reverse(), b, a));
}

/// Distances are symmetric.
pub proof fn lemma_distance_symmetric<N, E, F: Fn(&E) -> usize>(g: &UnGraph<N, E>, cost: F, a: NodeId, b: NodeId, d: int)
    requires
        g.wf(),
        is_distance(g, cost, a, b, d),
    ensures
        is_distance(g, cost, b, a, d),
{
    let w = choose|w: Seq<NodeId>| #[trigger] is_walk_between(g, w, a, b) && walk_cost(g, cost, w) == d;
    lemma_walk_reverse(g, cost, w);
    assert(is_walk_between(g, w.reverse(), b, a));
    assert forall|v: Seq<NodeId>| #[trigger] is_walk_between(g, v, b, a) implies walk_cost(g, cost, v) >= d by {
        lemma_walk_reverse(g, cost, v);
        assert(is_walk_between(g, v.reverse(), a, b));
    }
}

/// Two nodes have at most one distance.
pub proof fn lemma_distance_unique<N, E, F: Fn(&E) -> usize>(g: &UnGraph<N, E>, cost: F, a: NodeId, b: NodeId, d1: int, d2: int)
    requires
        is_distance(g, cost, a, b, d1),
        is_distance(g, cost, a, b, d2),
    ensures
        d1 == d2,
{
    let w1 = choose|w: Seq<NodeId>| #[trigger] is_walk_between(g, w, a, b) && walk_cost(g, cost, w) == d1;
    let w2 = choose|w: Seq<NodeId>| #[trigger] is_walk_between(g, w, a, b) && walk_cost(g, cost, w) == d2;
}

/// A walk stays a walk in any graph with at least its nodes and edges.
pub proof fn lemma_walk_grow<N, E, M, D>(small: &UnGraph<N, E>, big: &UnGraph<M, D>, w: Seq<NodeId>)
    requires
        is_walk(small, w),
        forall|v: NodeId| #[trigger] small.node_view().contains_key(v) ==> big.node_view().contains_key(v),
        forall|a: NodeId, b: NodeId| #[trigger] small.has_edge(a, b) ==> big.has_edge(a, b),
    ensures
        is_walk(big, w),
{
    assert forall|k: int| 0 <= k < w.len() - 1 implies big.has_edge(#[trigger] w[k], w[k + 1]) by {
        assert(small.has_edge(w[k], w[k + 1]));
    }
}

/// The sum of the weights of the edges `es` of `g`.
pub open spec fn edges_cost<N, E, F: Fn(&E) -> usize>(g: &UnGraph<N, E>, cost: F, es: Seq<(NodeId, NodeId)>) -> int
    decreases es.len(),
{
    if es.len() == 0 {
        0
    } else {
        edges_cost(g, cost, es.drop_last()) + weight(cost, g.edge_at(es.last().0, es.last().1))
    }
}

} // verus!
