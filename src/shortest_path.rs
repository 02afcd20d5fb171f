//! Single-source shortest paths over small integer weights, and the metric
//! closure built from them.

use crate::bucket_queue::BucketQueue;
use crate::graph::{normalized, NodeId, UnGraph};
use crate::walks::{
    is_cost_fn, is_distance, is_walk, is_walk_between, lemma_first_exit, lemma_walk_cost_nonneg,
    lemma_walk_prefix, lemma_walk_prefix_step, lemma_walk_push, lemma_weight, reachable, walk_cost,
    weight, weights_bounded,
};
use vstd::multiset::Multiset;
use vstd::prelude::*;

verus! {

broadcast use vstd::multiset::group_multiset_axioms, vstd::multiset::group_multiset_properties;

/// `w * n <= m` bounds `w` by `m / n`.
pub(crate) proof fn lemma_div_bound(w: int, n: int, m: int)
    requires
        n >= 1,
        w >= 0,
        m >= 0,
        w * n <= m,
    ensures
        w <= m / n,
{
    vstd::arithmetic::div_mod::lemma_fundamental_div_mod(m, n);
    vstd::arithmetic::div_mod::lemma_mod_bound(m, n);
    let q = m / n;
    let r = m % n;
    assert(m == n * q + r);
    assert(w <= q) by (nonlinear_arith)
        requires
            w * n <= n * q + r,
            0 <= r < n,
            n >= 1,
            w >= 0,
    ;
}

/// `k` settled nodes, each step adding at most `b`, stay within `n * b`.
pub(crate) proof fn lemma_step_bound(k: int, b: int, n: int, m: int)
    requires
        0 <= k < n,
        b == m / n,
        n >= 1,
        m >= 0,
    ensures
        k * b + b <= (k + 1) * b,
        (k + 1) * b <= m,
        k * b <= (k + 1) * b,
{
    vstd::arithmetic::div_mod::lemma_fundamental_div_mod(m, n);
    vstd::arithmetic::div_mod::lemma_mod_bound(m, n);
    assert(b >= 0) by {
        vstd::arithmetic::div_mod::lemma_div_pos_is_pos(m, n);
    }
    assert((k + 1) * b <= n * b) by (nonlinear_arith)
        requires
            k + 1 <= n,
            b >= 0,
    ;
    assert(k * b + b == (k + 1) * b) by (nonlinear_arith);
    assert(n * b == b * n) by (nonlinear_arith);
}

/// Every settled node `v` has a walk from `seed` of cost `dist[v]`, and no
/// cheaper one.
spec fn settled_exact<N, E, F: Fn(&E) -> usize>(
    g: &UnGraph<N, E>,
    cost: F,
    seed: NodeId,
    dist: Map<NodeId, usize>,
) -> bool {
    &&& forall|v: NodeId| #[trigger] dist.contains_key(v) ==> g.node_view().contains_key(v)
    &&& forall|v: NodeId| #[trigger] dist.contains_key(v) ==> exists|w: Seq<NodeId>|
        #[trigger] is_walk_between(g, w, seed, v) && walk_cost(g, cost, w) == dist[v]
    &&& forall|v: NodeId, w: Seq<NodeId>| #[trigger] dist.contains_key(v) && #[trigger] is_walk_between(g, w, seed, v)
        ==> walk_cost(g, cost, w) >= dist[v]
}

/// Every queued candidate `(d, x)` stands for a walk from `seed` to `x` of
/// cost `d`.
spec fn queued_real<N, E, F: Fn(&E) -> usize>(
    g: &UnGraph<N, E>,
    cost: F,
    seed: NodeId,
    q: Multiset<(int, NodeId)>,
) -> bool {
    forall|px: (int, NodeId)| #[trigger] q.count(px) > 0 ==> g.node_view().contains_key(px.1)
        && exists|w: Seq<NodeId>| #[trigger] is_walk_between(g, w, seed, px.1) && walk_cost(g, cost, w) == px.0
}

/// Every edge from a settled node `u` to an unsettled node `x` has a
/// candidate for `x` queued at no more than `dist[u]` plus its weight.
spec fn frontier_queued<N, E, F: Fn(&E) -> usize>(
    g: &UnGraph<N, E>,
    cost: F,
    dist: Map<NodeId, usize>,
    q: Multiset<(int, NodeId)>,
) -> bool {
    forall|u: NodeId, x: NodeId| #[trigger] dist.contains_key(u) && #[trigger] g.has_edge(u, x) && !dist.contains_key(x)
        ==> exists|c: int| #[trigger] q.count((c, x)) > 0 && c <= dist[u] + weight(cost, g.edge_at(u, x))
}

/// Before the seed is settled, nothing is settled and the seed alone is
/// queued, at 0.
spec fn seed_first(seed: NodeId, dist: Map<NodeId, usize>, q: Multiset<(int, NodeId)>) -> bool {
    !dist.contains_key(seed) ==> dist.dom() =~= Set::empty() && q =~= Multiset::singleton((0int, seed))
}

/// Every queued priority is at most `b` per settled node.
spec fn queue_bounded(dist: Map<NodeId, usize>, q: Multiset<(int, NodeId)>, b: int) -> bool {
    forall|px: (int, NodeId)| #[trigger] q.count(px) > 0 ==> px.0 <= dist.len() * b
}

/// What holds between rounds of the search from `seed`.
#[verifier::opaque]
spec fn search_inv<N, E, F: Fn(&E) -> usize>(
    g: &UnGraph<N, E>,
    cost: F,
    seed: NodeId,
    dist: Map<NodeId, usize>,
    q: Multiset<(int, NodeId)>,
    b: int,
) -> bool {
    &&& settled_exact(g, cost, seed, dist)
    &&& queued_real(g, cost, seed, q)
    &&& frontier_queued(g, cost, dist, q)
    &&& seed_first(seed, dist, q)
    &&& queue_bounded(dist, q, b)
}

/// A walk from the seed to an unsettled node passes a queued candidate no
/// dearer than the walk.
proof fn lemma_walk_meets_queue<N, E, F: Fn(&E) -> usize>(
    g: &UnGraph<N, E>,
    cost: F,
    seed: NodeId,
    dist: Map<NodeId, usize>,
    q: Multiset<(int, NodeId)>,
    w: Seq<NodeId>,
) -> (px: (int, NodeId))
    requires
        g.wf(),
        settled_exact(g, cost, seed, dist),
        frontier_queued(g, cost, dist, q),
        seed_first(seed, dist, q),
        is_walk_between(g, w, seed, w.last()),
        !dist.contains_key(w.last()),
    ensures
        q.count(px) > 0,
        px.0 <= walk_cost(g, cost, w),
{
    lemma_walk_cost_nonneg(g, cost, w);
    if !dist.contains_key(seed) {
        assert(q.count((0int, seed)) > 0);
        (0int, seed)
    } else {
        let k = lemma_first_exit(w, dist.dom());
        let u = w[k - 1];
        let x = w[k];
        assert(g.has_edge(w[k - 1], w[k]));
        let c = choose|c: int| #[trigger] q.count((c, x)) > 0 && c <= dist[u] + weight(cost, g.edge_at(u, x));
        lemma_walk_prefix(g, cost, w, k);
        lemma_walk_prefix(g, cost, w, k + 1);
        lemma_walk_prefix_step(g, cost, w, k);
        assert(w.take(k)[0] == seed && w.take(k).last() == u);
        assert(is_walk_between(g, w.take(k), seed, u));
        assert(walk_cost(g, cost, w.take(k)) >= dist[u]);
        (c, x)
    }
}

/// The search starts with the seed queued at 0.
proof fn lemma_start<N, E, F: Fn(&E) -> usize>(
    g: &UnGraph<N, E>,
    cost: F,
    seed: NodeId,
    dist: Map<NodeId, usize>,
    q: Multiset<(int, NodeId)>,
    b: int,
)
    requires
        g.node_view().contains_key(seed),
        dist == Map::<NodeId, usize>::empty(),
        q == Multiset::<(int, NodeId)>::empty().insert((0int, seed)),
        b >= 0,
    ensures
        search_inv(g, cost, seed, dist, q, b),
{
    reveal(search_inv);
    let w = seq![seed];
    assert(is_walk_between(g, w, seed, seed));
    assert(walk_cost(g, cost, w) == 0);
    assert(q =~= Multiset::singleton((0int, seed)));
    assert(dist.dom() =~= Set::empty());
}

/// Popping a candidate for a node that is settled already keeps the invariant.
proof fn lemma_skip<N, E, F: Fn(&E) -> usize>(
    g: &UnGraph<N, E>,
    cost: F,
    seed: NodeId,
    dist: Map<NodeId, usize>,
    q: Multiset<(int, NodeId)>,
    b: int,
    d: int,
    v: NodeId,
)
    requires
        search_inv(g, cost, seed, dist, q, b),
        dist.contains_key(v),
        q.count((d, v)) > 0,
    ensures
        search_inv(g, cost, seed, dist, q.remove((d, v)), b),
{
    reveal(search_inv);
    let r = q.remove((d, v));
    assert forall|px: (int, NodeId)| #[trigger] r.count(px) > 0 implies q.count(px) > 0 by {
        if px == (d, v) {
        }
    }
    assert forall|u: NodeId, x: NodeId| #[trigger] dist.contains_key(u) && #[trigger] g.has_edge(u, x)
        && !dist.contains_key(x) implies exists|c: int| #[trigger] r.count((c, x)) > 0
        && c <= dist[u] + weight(cost, g.edge_at(u, x)) by {
        let c = choose|c: int| #[trigger] q.count((c, x)) > 0 && c <= dist[u] + weight(cost, g.edge_at(u, x));
        assert((c, x) != (d, v));
        assert(r.count((c, x)) == q.count((c, x)));
    }
}

/// What settling `v` at `d` gives: its distance is exact, and the other
/// settled nodes keep their queued frontier.
proof fn lemma_settle<N, E, F: Fn(&E) -> usize>(
    g: &UnGraph<N, E>,
    cost: F,
    seed: NodeId,
    dist: Map<NodeId, usize>,
    q: Multiset<(int, NodeId)>,
    b: int,
    d: usize,
    v: NodeId,
)
    requires
        g.wf(),
        search_inv(g, cost, seed, dist, q, b),
        !dist.contains_key(v),
        q.count((d as int, v)) > 0,
        forall|px: (int, NodeId)| #[trigger] q.count(px) > 0 ==> d <= px.0,
    ensures
        settled_exact(g, cost, seed, dist.insert(v, d)),
        queued_real(g, cost, seed, q.remove((d as int, v))),
        queue_bounded(dist, q.remove((d as int, v)), b),
        d <= dist.len() * b,
        dist.insert(v, d).contains_key(seed),
        g.node_view().contains_key(v),
        exists|w: Seq<NodeId>| #[trigger] is_walk_between(g, w, seed, v) && walk_cost(g, cost, w) == d,
        forall|u: NodeId, x: NodeId| #[trigger] dist.insert(v, d).contains_key(u) && #[trigger] g.has_edge(u, x)
            && !dist.insert(v, d).contains_key(x) && u != v ==> exists|c: int|
            #[trigger] q.remove((d as int, v)).count((c, x)) > 0 && c <= dist.insert(v, d)[u] + weight(cost, g.edge_at(u, x)),
{
    reveal(search_inv);
    let r = q.remove((d as int, v));
    let nd = dist.insert(v, d);
    assert forall|px: (int, NodeId)| #[trigger] r.count(px) > 0 implies q.count(px) > 0 by {
        if px == (d as int, v) {
        }
    }
    assert forall|w: Seq<NodeId>| #[trigger] is_walk_between(g, w, seed, v) implies walk_cost(g, cost, w) >= d by {
        let px = lemma_walk_meets_queue(g, cost, seed, dist, q, w);
    }
    assert forall|u: NodeId, w: Seq<NodeId>| #[trigger] nd.contains_key(u) && #[trigger] is_walk_between(g, w, seed, u)
        implies walk_cost(g, cost, w) >= nd[u] by {
        if u != v {
            assert(dist.contains_key(u));
        }
    }
    assert forall|u: NodeId| #[trigger] nd.contains_key(u) implies exists|w: Seq<NodeId>|
        #[trigger] is_walk_between(g, w, seed, u) && walk_cost(g, cost, w) == nd[u] by {
        if u != v {
            assert(dist.contains_key(u));
        }
    }
    assert forall|u: NodeId, x: NodeId| #[trigger] nd.contains_key(u) && #[trigger] g.has_edge(u, x)
        && !nd.contains_key(x) && u != v implies exists|c: int| #[trigger] r.count((c, x)) > 0
        && c <= nd[u] + weight(cost, g.edge_at(u, x)) by {
        assert(dist.contains_key(u));
        let c = choose|c: int| #[trigger] q.count((c, x)) > 0 && c <= dist[u] + weight(cost, g.edge_at(u, x));
        assert((c, x) != (d as int, v));
        assert(r.count((c, x)) == q.count((c, x)));
    }
    if !dist.contains_key(seed) {
        assert(q.count((d as int, v)) > 0);
        assert(Multiset::singleton((0int, seed)).count((d as int, v)) > 0);
    }
}

/// After the round that settled `v`, the invariant holds again.
proof fn lemma_settled_round<N, E, F: Fn(&E) -> usize>(
    g: &UnGraph<N, E>,
    cost: F,
    seed: NodeId,
    dist: Map<NodeId, usize>,
    q_mid: Multiset<(int, NodeId)>,
    q: Multiset<(int, NodeId)>,
    b: int,
    d: usize,
    v: NodeId,
)
    requires
        dist.contains_key(v),
        dist[v] == d,
        dist.contains_key(seed),
        settled_exact(g, cost, seed, dist),
        queued_real(g, cost, seed, q),
        queue_bounded(dist, q, b),
        forall|px: (int, NodeId)| #[trigger] q_mid.count(px) > 0 ==> q.count(px) > 0,
        forall|u: NodeId, x: NodeId| #[trigger] dist.contains_key(u) && #[trigger] g.has_edge(u, x)
            && !dist.contains_key(x) && u != v ==> exists|c: int|
            #[trigger] q_mid.count((c, x)) > 0 && c <= dist[u] + weight(cost, g.edge_at(u, x)),
        forall|x: NodeId| #[trigger] g.has_edge(v, x) && !dist.contains_key(x)
            ==> q.count((d + weight(cost, g.edge_at(v, x)), x)) > 0,
    ensures
        search_inv(g, cost, seed, dist, q, b),
{
    reveal(search_inv);
    assert forall|u: NodeId, x: NodeId| #[trigger] dist.contains_key(u) && #[trigger] g.has_edge(u, x)
        && !dist.contains_key(x) implies exists|c: int| #[trigger] q.count((c, x)) > 0
        && c <= dist[u] + weight(cost, g.edge_at(u, x)) by {
        if u == v {
            assert(q.count((d + weight(cost, g.edge_at(v, x)), x)) > 0);
        } else {
            let c = choose|c: int| #[trigger] q_mid.count((c, x)) > 0 && c <= dist[u] + weight(cost, g.edge_at(u, x));
            assert(q.count((c, x)) > 0);
        }
    }
}

/// When the queue runs dry, every node that a walk reaches from the seed is
/// settled.
proof fn lemma_finish<N, E, F: Fn(&E) -> usize>(
    g: &UnGraph<N, E>,
    cost: F,
    seed: NodeId,
    dist: Map<NodeId, usize>,
    q: Multiset<(int, NodeId)>,
    b: int,
)
    requires
        g.wf(),
        search_inv(g, cost, seed, dist, q, b),
        q.len() == 0,
    ensures
        forall|v: NodeId| #[trigger] dist.contains_key(v) <==> reachable(g, seed, v),
        forall|v: NodeId| #[trigger] dist.contains_key(v) ==> is_distance(g, cost, seed, v, dist[v] as int),
{
    reveal(search_inv);
    assert forall|v: NodeId| #[trigger] dist.contains_key(v) <==> reachable(g, seed, v) by {
        if reachable(g, seed, v) && !dist.contains_key(v) {
            let w = choose|w: Seq<NodeId>| #[trigger] is_walk_between(g, w, seed, v);
            let px = lemma_walk_meets_queue(g, cost, seed, dist, q, w);
            assert(q.count(px) <= q.len());
        }
        if dist.contains_key(v) {
            let w = choose|w: Seq<NodeId>| #[trigger] is_walk_between(g, w, seed, v) && walk_cost(g, cost, w) == dist[v];
        }
    }
}

/// Queues, for each neighbour `m` of the settled node `v` that is not
/// settled, the candidate `(d + weight, m)`.
fn push_neighbours<N, E, F: Fn(&E) -> usize>(
    g: &UnGraph<N, E>,
    cost: &F,
    seed: NodeId,
    v: NodeId,
    d: usize,
    distances: &UnGraph<usize, ()>,
    queue: &mut BucketQueue<NodeId>,
    Ghost(b): Ghost<int>,
)
    requires
        g.wf(),
        g.node_view().contains_key(v),
        is_cost_fn(*cost),
        weights_bounded(g, *cost),
        g.node_view().len() >= 1,
        b == usize::MAX as int / (g.node_view().len() as int),
        distances.wf(),
        distances.node_view().contains_key(v),
        distances.node_view()[v] == d,
        1 <= distances.node_view().len() <= g.node_view().len(),
        d <= (distances.node_view().len() - 1) * b,
        old(queue).wf(),
        old(queue).floor() == d,
        queued_real(g, *cost, seed, old(queue).items()),
        queue_bounded(distances.node_view(), old(queue).items(), b),
        exists|w: Seq<NodeId>| #[trigger] is_walk_between(g, w, seed, v) && walk_cost(g, *cost, w) == d,
    ensures
        final(queue).wf(),
        queued_real(g, *cost, seed, final(queue).items()),
        queue_bounded(distances.node_view(), final(queue).items(), b),
        final(queue).items().len() <= old(queue).items().len() + g.node_view().len(),
        forall|px: (int, NodeId)| #[trigger] old(queue).items().count(px) > 0 ==> final(queue).items().count(px) > 0,
        forall|x: NodeId| #[trigger] g.has_edge(v, x) && !distances.node_view().contains_key(x)
            ==> final(queue).items().count((d + weight(*cost, g.edge_at(v, x)), x)) > 0,
{
    let ghost n: int = g.node_view().len() as int;
    let ghost dist = distances.node_view();
    proof {
        lemma_step_bound(dist.len() - 1, b, n, usize::MAX as int);
    }
    let nbrs = g.neighbours(v);
    proof {
        let ids = nbrs@.map_values(|p: (NodeId, &E)| p.0);
        assert(ids.no_duplicates()) by {
            assert forall|i: int, j: int| 0 <= i < ids.len() && 0 <= j < ids.len() && i != j implies ids[i] != ids[j] by {
                assert(ids[i] == nbrs@[i].0 && ids[j] == nbrs@[j].0);
                if i < j {
                    assert(nbrs@[i].0 != nbrs@[j].0);
                } else {
                    assert(nbrs@[j].0 != nbrs@[i].0);
                }
            }
        }
        ids.unique_seq_to_set();
        assert forall|x: NodeId| ids.to_set().contains(x) implies g.node_view().dom().contains(x) by {
            let j = choose|j: int| 0 <= j < ids.len() && ids[j] == x;
            g.lemma_edge_ends(v, nbrs@[j].0);
        }
        vstd::set_lib::lemma_len_subset(ids.to_set(), g.node_view().dom());
        assert(ids.len() == nbrs@.len());
    }
    let ghost q0 = queue.items();
    for k in 0..nbrs.len()
        invariant
            g.wf(),
            is_cost_fn(*cost),
            weights_bounded(g, *cost),
            n == g.node_view().len(),
            n >= 1,
            b == usize::MAX as int / n,
            distances.node_view() == dist,
            d <= (dist.len() - 1) * b,
            (dist.len() - 1) * b + b <= dist.len() * b,
            dist.len() * b <= usize::MAX,
            (dist.len() - 1) * b <= dist.len() * b,
            exists|w: Seq<NodeId>| #[trigger] is_walk_between(g, w, seed, v) && walk_cost(g, *cost, w) == d,
            queue.wf(),
            queue.floor() == d,
            queue.items().len() <= q0.len() + k,
            nbrs@.len() <= n,
            forall|px: (int, NodeId)| #[trigger] q0.count(px) > 0 ==> queue.items().count(px) > 0,
            queued_real(g, *cost, seed, queue.items()),
            queue_bounded(dist, queue.items(), b),
            forall|j: int| 0 <= j < nbrs@.len() ==> g.has_edge(v, #[trigger] nbrs@[j].0)
                && *nbrs@[j].1 == g.edge_at(v, nbrs@[j].0),
            forall|j: int| 0 <= j < k && !dist.contains_key(#[trigger] nbrs@[j].0)
                ==> queue.items().count((d + weight(*cost, g.edge_at(v, nbrs@[j].0)), nbrs@[j].0)) > 0,
    {
        let (m, e) = nbrs[k];
        if !distances.contains_node(m) {
            let c = cost(e);
            proof {
                lemma_weight(*cost, e, c);
                g.lemma_edge_ends(v, m);
                assert(g.edge_view().contains_key(normalized(v, m)));
                assert(cost.ensures((&g.edge_view()[normalized(v, m)],), c));
                lemma_div_bound(c as int, n, usize::MAX as int);
            }
            let ghost q_before = queue.items();
            queue.push(d + c, m);
            proof {
                let w = choose|w: Seq<NodeId>| #[trigger] is_walk_between(g, w, seed, v) && walk_cost(g, *cost, w) == d;
                lemma_walk_push(g, *cost, w, m);
                assert(is_walk_between(g, w.push(m), seed, m));
                let wm = w.push(m);
                assert(walk_cost(g, *cost, wm) == d + c);
                assert(g.node_view().contains_key(m));
                assert forall|px: (int, NodeId)| #[trigger] queue.items().count(px) > 0 implies g.node_view().contains_key(px.1)
                    && exists|w2: Seq<NodeId>| #[trigger] is_walk_between(g, w2, seed, px.1) && walk_cost(g, *cost, w2) == px.0 by {
                    if px != (d + c, m) {
                        assert(q_before.count(px) > 0);
                    } else {
                        assert(is_walk_between(g, wm, seed, px.1) && walk_cost(g, *cost, wm) == px.0);
                    }
                }
                assert forall|px: (int, NodeId)| #[trigger] queue.items().count(px) > 0 implies px.0 <= dist.len() * b by {
                    if px != (d + c, m) {
                        assert(q_before.count(px) > 0);
                    }
                }
            }
        }
    }
    proof {
        assert forall|x: NodeId| #[trigger] g.has_edge(v, x) && !dist.contains_key(x)
            implies queue.items().count((d + weight(*cost, g.edge_at(v, x)), x)) > 0 by {
            let j = choose|j: int| 0 <= j < nbrs@.len() && #[trigger] nbrs@[j].0 == x;
        }
    }
}

#[verifier::spinoff_prover]
/// `distances` has a node for each node that some walk of `g` reaches from
/// `seed`, with the least cost of such a walk as its payload, and no edges.
pub open spec fn is_distance_table<N, E, F: Fn(&E) -> usize>(
    g: &UnGraph<N, E>,
    cost: F,
    seed: NodeId,
    distances: &UnGraph<usize, ()>,
) -> bool {
    &&& distances.wf()
    &&& distances.edge_view() == Map::<(NodeId, NodeId), ()>::empty()
    &&& forall|v: NodeId| #[trigger] distances.node_view().contains_key(v) <==> reachable(g, seed, v)
    &&& forall|v: NodeId| #[trigger] distances.node_view().contains_key(v)
        ==> is_distance(g, cost, seed, v, distances.node_view()[v] as int)
}

/// `closure` has the nodes of `g`, and an edge between two distinct nodes
/// exactly when a walk of `g` joins them, weighted with their distance.
pub open spec fn is_metric_closure<N, E, F: Fn(&E) -> usize>(
    g: &UnGraph<N, E>,
    cost: F,
    closure: &UnGraph<(), usize>,
) -> bool {
    &&& closure.wf()
    &&& closure.node_view().dom() == g.node_view().dom()
    &&& forall|a: NodeId, b: NodeId| #[trigger] closure.has_edge(a, b)
        <==> (a != b && g.node_view().contains_key(a) && reachable(g, a, b))
    &&& forall|a: NodeId, b: NodeId| #[trigger] closure.has_edge(a, b)
        ==> is_distance(g, cost, a, b, closure.edge_at(a, b) as int)
}

/// Shortest distances from `seed`.
pub fn dijkstra_usize<N, E, F: Fn(&E) -> usize>(g: &UnGraph<N, E>, seed: NodeId, cost: &F) -> (distances: UnGraph<usize, ()>)
    requires
        g.wf(),
        g.node_view().contains_key(seed),
        is_cost_fn(*cost),
        weights_bounded(g, *cost),
    ensures
        is_distance_table(g, *cost, seed, &distances),
{
    let ghost n: int = g.node_view().len() as int;
    proof {
        assert(g.node_view().dom().contains(seed));
        vstd::set_lib::lemma_set_empty_equivalency_len(g.node_view().dom());
    }
    let ghost b: int = usize::MAX as int / n;
    proof {
        vstd::arithmetic::div_mod::lemma_div_pos_is_pos(usize::MAX as int, n);
    }
    let mut distances: UnGraph<usize, ()> = UnGraph::with_capacity(g.node_count(), 0);
    let mut queue: BucketQueue<NodeId> = BucketQueue::new();
    queue.push(0, seed);
    proof {
        lemma_start(g, *cost, seed, distances.node_view(), queue.items(), b);
    }
    loop
        invariant
            g.wf(),
            g.node_view().contains_key(seed),
            is_cost_fn(*cost),
            weights_bounded(g, *cost),
            n == g.node_view().len(),
            n >= 1,
            b == usize::MAX as int / n,
            b >= 0,
            distances.wf(),
            distances.edge_view() == Map::<(NodeId, NodeId), ()>::empty(),
            queue.wf(),
            distances.node_view().dom().subset_of(g.node_view().dom()),
            search_inv(g, *cost, seed, distances.node_view(), queue.items(), b),
        ensures
            distances.wf(),
            distances.edge_view() == Map::<(NodeId, NodeId), ()>::empty(),
            search_inv(g, *cost, seed, distances.node_view(), queue.items(), b),
            queue.items().len() == 0,
        decreases queue.items().len() + (n - distances.node_view().len()) * n,
    {
        let ghost q_old = queue.items();
        let ghost d_old = distances.node_view();
        proof {
            vstd::set_lib::lemma_len_subset(d_old.dom(), g.node_view().dom());
        }
        let (d, v) = match queue.pop() {
            None => {
                break;
            },
            Some(dv) => dv,
        };
        if distances.try_add_node(v, d).is_some() {
            proof {
                lemma_settle(g, *cost, seed, d_old, q_old, b, d, v);
                assert(distances.node_view().dom().subset_of(g.node_view().dom()));
                vstd::set_lib::lemma_len_subset(distances.node_view().dom(), g.node_view().dom());
                lemma_step_bound(d_old.len() as int, b, n, usize::MAX as int);
            }
            let ghost q_mid = queue.items();
            push_neighbours(g, cost, seed, v, d, &distances, &mut queue, Ghost(b));
            proof {
                lemma_settled_round(g, *cost, seed, distances.node_view(), q_mid, queue.items(), b, d, v);
                assert((n - distances.node_view().len()) * n + n == (n - d_old.len()) * n) by (nonlinear_arith)
                    requires
                        distances.node_view().len() == d_old.len() + 1,
                ;
            }
        } else {
            proof {
                lemma_skip(g, *cost, seed, d_old, q_old, b, d as int, v);
            }
        }
    }
    proof {
        lemma_finish(g, *cost, seed, distances.node_view(), queue.items(), b);
    }
    distances
}

/// The metric closure of `g`: the same nodes, and between each two distinct
/// nodes that a walk joins, an edge weighted with their distance.
pub fn metric_closure_usize<N, E, F: Fn(&E) -> usize>(g: &UnGraph<N, E>, cost: &F) -> (closure: UnGraph<(), usize>)
    requires
        g.wf(),
        is_cost_fn(*cost),
        weights_bounded(g, *cost),
    ensures
        is_metric_closure(g, *cost, &closure),
{
    let ids = g.node_ids();
    let mut closure: UnGraph<(), usize> = UnGraph::with_capacity(ids.len(), ids.len());
    for k in 0..ids.len()
        invariant
            g.wf(),
            closure.wf(),
            closure.edge_view() == Map::<(NodeId, NodeId), usize>::empty(),
            forall|x: int| 0 <= x < ids@.len() ==> g.node_view().contains_key(#[trigger] ids@[x]),
            ids@.no_duplicates(),
            closure.node_view().dom() =~= ids@.take(k as int).to_set(),
    {
        proof {
            assert(!ids@.take(k as int).contains(ids@[k as int]));
        }
        closure.add_node(ids[k], ());
        proof {
            let t = ids@.take(k as int);
            assert(ids@.take(k + 1) =~= t.push(ids@[k as int]));
            assert forall|x: NodeId| t.push(ids@[k as int]).to_set().contains(x)
                <==> t.to_set().insert(ids@[k as int]).contains(x) by {
                if t.push(ids@[k as int]).to_set().contains(x) {
                    let i = choose|i: int| 0 <= i < t.len() + 1 && t.push(ids@[k as int])[i] == x;
                    if i < t.len() {
                        assert(t[i] == x);
                    }
                }
                if t.to_set().contains(x) {
                    let i = choose|i: int| 0 <= i < t.len() && t[i] == x;
                    assert(t.push(ids@[k as int])[i] == x);
                }
                if x == ids@[k as int] {
                    assert(t.push(ids@[k as int])[t.len() as int] == x);
                }
            }
            assert(t.push(ids@[k as int]).to_set() =~= t.to_set().insert(ids@[k as int]));
        }
    }
    proof {
        assert(ids@.take(ids@.len() as int) =~= ids@);
        assert(closure.node_view().dom() =~= g.node_view().dom());
    }
    for k in 0..ids.len()
        invariant
            g.wf(),
            is_cost_fn(*cost),
            weights_bounded(g, *cost),
            forall|x: int| 0 <= x < ids@.len() ==> g.node_view().contains_key(#[trigger] ids@[x]),
            closure.wf(),
            closure.node_view().dom() == g.node_view().dom(),
            forall|a: NodeId, b: NodeId| #[trigger] closure.has_edge(a, b)
                ==> a != b && g.node_view().contains_key(a) && reachable(g, a, b)
                && is_distance(g, *cost, a, b, closure.edge_at(a, b) as int),
            forall|x: int, b: NodeId| 0 <= x < k && #[trigger] ids@[x] != b && reachable(g, ids@[x], b)
                ==> #[trigger] closure.has_edge(ids@[x], b),
    {
        let n = ids[k];
        let distances = dijkstra_usize(g, n, cost);
        let reached = distances.nodes();
        for j in 0..reached.len()
            invariant
                g.wf(),
                closure.wf(),
                closure.node_view().dom() == g.node_view().dom(),
                g.node_view().contains_key(n),
                is_distance_table(g, *cost, n, &distances),
                forall|i: int| 0 <= i < reached@.len() ==> distances.node_view().contains_key(#[trigger] reached@[i].0)
                    && *reached@[i].1 == distances.node_view()[reached@[i].0],
                forall|a: NodeId, b: NodeId| #[trigger] closure.has_edge(a, b)
                    ==> a != b && g.node_view().contains_key(a) && reachable(g, a, b)
                    && is_distance(g, *cost, a, b, closure.edge_at(a, b) as int),
                forall|x: int, b: NodeId| 0 <= x < k && #[trigger] ids@[x] != b && reachable(g, ids@[x], b)
                    ==> #[trigger] closure.has_edge(ids@[x], b),
                ids@[k as int] == n,
                forall|i: int| 0 <= i < j && #[trigger] reached@[i].0 != n ==> closure.has_edge(n, reached@[i].0),
        {
            let (m, d) = reached[j];
            if n != m {
                proof {
                    assert(reachable(g, n, m));
                    let w = choose|w: Seq<NodeId>| #[trigger] is_walk_between(g, w, n, m);
                    assert(g.node_view().contains_key(m)) by {
                        assert(g.has_edge(w[w.len() - 2], w[w.len() - 1]));
                        g.lemma_edge_ends(w[w.len() - 2], w[w.len() - 1]);
                    }
                }
                let ghost before = closure;
                closure.try_add_edge(n, m, *d);
                proof {
                    crate::walks::lemma_distance_symmetric(g, *cost, n, m, *d as int);
                    crate::walks::lemma_reachable_symmetric(g, *cost, n, m);
                    assert forall|a: NodeId, b: NodeId| #[trigger] closure.has_edge(a, b)
                        implies a != b && g.node_view().contains_key(a) && reachable(g, a, b)
                        && is_distance(g, *cost, a, b, closure.edge_at(a, b) as int) by {
                        if !before.has_edge(a, b) {
                            assert(normalized(a, b) == normalized(n, m));
                            assert(closure.edge_at(a, b) == *d);
                            if a != n {
                                assert(a == m && b == n);
                            }
                        }
                    }
                    assert forall|x: int, b: NodeId| 0 <= x < k && #[trigger] ids@[x] != b && reachable(g, ids@[x], b)
                        implies #[trigger] closure.has_edge(ids@[x], b) by {
                        assert(before.has_edge(ids@[x], b));
                    }
                    assert forall|i: int| 0 <= i <= j && #[trigger] reached@[i].0 != n implies closure.has_edge(n, reached@[i].0) by {
                        if i < j {
                            assert(before.has_edge(n, reached@[i].0));
                        }
                    }
                }
            }
        }
        proof {
            assert forall|x: int, b: NodeId| 0 <= x < k + 1 && #[trigger] ids@[x] != b && reachable(g, ids@[x], b)
                implies #[trigger] closure.has_edge(ids@[x], b) by {
                if x == k {
                    assert(distances.node_view().contains_key(b));
                    let i = choose|i: int| 0 <= i < reached@.len() && #[trigger] reached@[i].0 == b;
                }
            }
        }
    }
    proof {
        assert forall|a: NodeId, b: NodeId| #[trigger] closure.has_edge(a, b)
            <==> (a != b && g.node_view().contains_key(a) && reachable(g, a, b)) by {
            if a != b && g.node_view().contains_key(a) && reachable(g, a, b) {
                assert(ids@.contains(a));
                let x = choose|x: int| 0 <= x < ids@.len() && ids@[x] == a;
            }
        }
    }
    closure
}

/// In the metric closure, the edge between two nodes that a walk joins
/// weighs the same read from either end, and that weight is the distance
/// that a search from one end reports for the other.
pub proof fn lemma_closure_symmetric<N, E, F: Fn(&E) -> usize>(
    g: &UnGraph<N, E>,
    cost: F,
    closure: &UnGraph<(), usize>,
    distances: &UnGraph<usize, ()>,
    a: NodeId,
    b: NodeId,
)
    requires
        g.wf(),
        is_metric_closure(g, cost, closure),
        is_distance_table(g, cost, a, distances),
        g.node_view().contains_key(a),
        a != b,
        reachable(g, a, b),
    ensures
        closure.has_edge(a, b),
        closure.has_edge(b, a),
        closure.edge_at(a, b) == closure.edge_at(b, a),
        closure.edge_at(a, b) == distances.node_view()[b],
{
    assert(closure.has_edge(a, b));
    closure.lemma_edge_ends(a, b);
    assert(distances.node_view().contains_key(b));
    crate::walks::lemma_distance_unique(g, cost, a, b, closure.edge_at(a, b) as int, distances.node_view()[b] as int);
}

} // verus!
