//! An undirected graph over `u64` node ids with node and edge payloads.

use std::collections::hash_map::Entry;
use std::collections::HashMap;
use std::collections::BTreeSet;
use vstd::prelude::*;
use vstd::std_specs::cmp::OrdSpec;

verus! {

broadcast use vstd::std_specs::hash::group_hash_axioms, vstd::std_specs::btree::group_btree_axioms,
    vstd::laws_cmp::group_laws_cmp;

/// Identifier of a node.
pub type NodeId = u64;

/// The pair `(a, b)` ordered so that the smaller id comes first.
pub open spec fn normalized(a: NodeId, b: NodeId) -> (NodeId, NodeId) {
    if a <= b {
        (a, b)
    } else {
        (b, a)
    }
}

/// Orders two ids, the smaller first.
pub fn min_max(a: NodeId, b: NodeId) -> (r: (NodeId, NodeId))
    ensures
        r == normalized(a, b),
{
    if a <= b {
        (a, b)
    } else {
        (b, a)
    }
}

/// The key under which the edge `{lo, hi}` (with `lo < hi`) is stored.
pub open spec fn packed(lo: NodeId, hi: NodeId) -> u128 {
    ((lo as u128) << 64u128) | (hi as u128)
}

/// The smaller end of the edge stored under `k`.
pub open spec fn key_lo(k: u128) -> NodeId {
    (k >> 64u128) as u64
}

/// The larger end of the edge stored under `k`.
pub open spec fn key_hi(k: u128) -> NodeId {
    k as u64
}

/// The key under which the edge between `a` and `b` is stored.
pub open spec fn edge_key_of(a: NodeId, b: NodeId) -> u128 {
    packed(normalized(a, b).0, normalized(a, b).1)
}

proof fn lemma_packed_parts(lo: NodeId, hi: NodeId)
    ensures
        key_lo(packed(lo, hi)) == lo,
        key_hi(packed(lo, hi)) == hi,
{
    assert((((lo as u128) << 64u128) | (hi as u128)) >> 64u128 == lo as u128) by (bit_vector);
    assert((((((lo as u128) << 64u128) | (hi as u128))) as u64) == hi) by (bit_vector);
}

proof fn lemma_key_split(k: u128)
    ensures
        packed(key_lo(k), key_hi(k)) == k,
{
    assert(((((k >> 64u128) as u64) as u128) << 64u128) | ((k as u64) as u128) == k)
        by (bit_vector);
}

proof fn lemma_packed_injective()
    ensures
        forall|a: NodeId, b: NodeId, c: NodeId, d: NodeId|
            #[trigger] packed(a, b) == #[trigger] packed(c, d) ==> a == c && b == d,
{
    assert forall|a: NodeId, b: NodeId, c: NodeId, d: NodeId|
        #[trigger] packed(a, b) == #[trigger] packed(c, d) implies a == c && b == d by {
        lemma_packed_parts(a, b);
        lemma_packed_parts(c, d);
    }
}

/// The key under which the edge between `a` and `b` is stored: the
/// normalized pair, packed into one integer.
fn edge_key(a: NodeId, b: NodeId) -> (k: u128)
    ensures
        k == edge_key_of(a, b),
{
    let (lo, hi) = min_max(a, b);
    ((lo as u128) << 64u128) | (hi as u128)
}

/// The stored maps agree, for the node set `nodes`: the adjacency has an
/// entry per node that mirrors the edges, and each stored edge joins two
/// distinct nodes.
spec fn maps_agree<E>(nodes: Set<NodeId>, edges: Map<u128, E>, adjacency: Map<NodeId, BTreeSet<NodeId>>) -> bool {
    &&& adjacency.dom() == nodes
    &&& forall|k: u128| #[trigger]
        edges.contains_key(k) ==> key_lo(k) < key_hi(k) && nodes.contains(key_lo(k)) && nodes.contains(key_hi(k))
    &&& forall|a: NodeId, b: NodeId| #[trigger]
        adjacency.contains_key(a) ==> (#[trigger] adjacency[a]@.contains(b) <==> (
        a != b && edges.contains_key(edge_key_of(a, b))))
}

/// An undirected graph: node payloads of type `N`, edge payloads of type `E`.
///
/// Edges are stored once, under the normalized pair of their endpoints; the
/// adjacency sets mirror the edges.
pub struct UnGraph<N, E> {
    nodes: HashMap<NodeId, N>,
    edges: HashMap<u128, E>,
    adjacency: HashMap<NodeId, BTreeSet<NodeId>>,
}

impl<N, E> UnGraph<N, E> {
    /// The nodes with their payloads.
    pub closed spec fn node_view(&self) -> Map<NodeId, N> {
        self.nodes@
    }

    /// The edges, keyed by the normalized pair of their endpoints.
    pub closed spec fn edge_view(&self) -> Map<(NodeId, NodeId), E> {
        Map::new(
            |p: (NodeId, NodeId)| p.0 < p.1 && self.edges@.contains_key(packed(p.0, p.1)),
            |p: (NodeId, NodeId)| self.edges@[packed(p.0, p.1)],
        )
    }

    /// There is an edge between `a` and `b`.
    pub open spec fn has_edge(&self, a: NodeId, b: NodeId) -> bool {
        self.edge_view().contains_key(normalized(a, b))
    }

    /// The payload of the edge between `a` and `b`.
    pub open spec fn edge_at(&self, a: NodeId, b: NodeId) -> E {
        self.edge_view()[normalized(a, b)]
    }

    /// The ids adjacent to `a`.
    pub open spec fn adjacent(&self, a: NodeId) -> Set<NodeId> {
        Set::new(|b: NodeId| self.has_edge(a, b))
    }

    /// The stored maps agree: the adjacency has an entry per node that
    /// mirrors the edges, and each stored edge joins two distinct nodes.
    pub closed spec fn inner_wf(&self) -> bool {
        maps_agree(self.nodes@.dom(), self.edges@, self.adjacency@)
    }

    /// Well-formedness: the adjacency mirrors the edges, and every edge
    /// joins two distinct nodes of the graph.
    pub open spec fn wf(&self) -> bool {
        &&& self.inner_wf()
        &&& self.node_view().dom().finite()
        &&& forall|p: (NodeId, NodeId)| #[trigger]
            self.edge_view().contains_key(p) ==> p.0 < p.1 && self.node_view().contains_key(p.0)
                && self.node_view().contains_key(p.1)
    }

    proof fn lemma_wf(&self)
        requires
            self.inner_wf(),
        ensures
            self.wf(),
    {
        vstd::std_specs::hash::axiom_hashmap_view_finite_dom(self.nodes);
        assert forall|p: (NodeId, NodeId)| #[trigger]
            self.edge_view().contains_key(p) implies p.0 < p.1 && self.node_view().contains_key(
            p.0,
        ) && self.node_view().contains_key(p.1) by {
            lemma_packed_parts(p.0, p.1);
            assert(self.edges@.contains_key(packed(p.0, p.1)));
        }
    }

    /// An empty graph, with room reserved for `nodes` nodes and `edges` edges.
    pub fn with_capacity(nodes: usize, edges: usize) -> (g: Self)
        ensures
            g.wf(),
            g.node_view() == Map::<NodeId, N>::empty(),
            g.edge_view() == Map::<(NodeId, NodeId), E>::empty(),
    {
        let g = UnGraph {
            nodes: HashMap::with_capacity(nodes),
            edges: HashMap::with_capacity(edges),
            adjacency: HashMap::with_capacity(nodes),
        };
        assert(g.edge_view() =~= Map::<(NodeId, NodeId), E>::empty());
        proof {
            g.lemma_wf();
        }
        g
    }

    /// The number of nodes.
    pub fn node_count(&self) -> (r: usize)
        ensures
            r == self.node_view().len(),
    {
        self.nodes.len()
    }

    /// Both ends of an edge are nodes, and an edge joins distinct nodes.
    pub proof fn lemma_edge_ends(&self, a: NodeId, b: NodeId)
        requires
            self.wf(),
            self.has_edge(a, b),
        ensures
            a != b,
            self.node_view().contains_key(a),
            self.node_view().contains_key(b),
            self.has_edge(b, a),
            self.edge_at(b, a) == self.edge_at(a, b),
    {
        assert(self.edge_view().contains_key(normalized(a, b)));
        assert(normalized(a, b) == normalized(b, a));
    }

    /// Whether `i` is a node.
    pub fn contains_node(&self, i: NodeId) -> (r: bool)
        ensures
            r == self.node_view().contains_key(i),
    {
        self.nodes.contains_key(&i)
    }

    /// Inserts node `i` with payload `n` unless it is there already; gives
    /// access to the new payload, or `None` when `i` was there already.
    pub fn try_add_node(&mut self, i: NodeId, n: N) -> (r: Option<&mut N>)
        requires
            old(self).wf(),
        ensures
            final(self).node_view().dom() == old(self).node_view().dom().insert(i),
            final(self).edge_view() == old(self).edge_view(),
            final(self).wf(),
            old(self).node_view().contains_key(i) ==> r.is_none() && final(self).node_view()
                == old(self).node_view(),
            !old(self).node_view().contains_key(i) ==> r.is_some() && *r.unwrap() == n
                && final(self).node_view() == old(self).node_view().insert(i, *final(r.unwrap())),
    {
        if self.nodes.contains_key(&i) {
            return None;
        }
        self.adjacency.insert(i, BTreeSet::new());
        proof {
            let dom = self.nodes@.dom().insert(i);
            assert forall|a: NodeId, b: NodeId| #[trigger]
                self.adjacency@.contains_key(a) implies (#[trigger] self.adjacency@[a]@.contains(b)
                <==> (a != b && self.edges@.contains_key(edge_key_of(a, b)))) by {
                lemma_packed_parts(normalized(a, b).0, normalized(a, b).1);
            }
            assert(maps_agree(dom, self.edges@, self.adjacency@));
            vstd::std_specs::hash::axiom_hashmap_view_finite_dom(self.nodes);
            assert(dom.finite());
            assert forall|p: (NodeId, NodeId)| #[trigger] self.edge_view().contains_key(p) implies p.0 < p.1
                && dom.contains(p.0) && dom.contains(p.1) by {
                lemma_packed_parts(p.0, p.1);
                assert(self.edges@.contains_key(packed(p.0, p.1)));
            }
        }
        match self.nodes.entry(i) {
            Entry::Vacant(v) => Some(v.insert(n)),
            Entry::Occupied(_) => None,
        }
    }

    proof fn lemma_edge_key(&self, a: NodeId, b: NodeId)
        requires
            self.inner_wf(),
        ensures
            self.has_edge(a, b) <==> (a != b && self.edges@.contains_key(edge_key_of(a, b))),
            self.has_edge(a, b) ==> self.edge_at(a, b) == self.edges@[edge_key_of(a, b)],
            self.has_edge(a, b) == self.has_edge(b, a),
            self.has_edge(a, b) ==> self.edge_at(a, b) == self.edge_at(b, a),
            a == b ==> !self.edges@.contains_key(edge_key_of(a, b)),
    {
        lemma_packed_parts(normalized(a, b).0, normalized(a, b).1);
        if self.edges@.contains_key(edge_key_of(a, b)) {
            assert(key_lo(edge_key_of(a, b)) < key_hi(edge_key_of(a, b)));
        }
    }

    /// Whether `i` and `j` are joined by an edge.
    pub fn contains_edge(&self, i: NodeId, j: NodeId) -> (r: bool)
        requires
            self.wf(),
        ensures
            r == self.has_edge(i, j),
    {
        proof {
            self.lemma_edge_key(i, j);
        }
        let k = edge_key(i, j);
        self.edges.contains_key(&k)
    }

    /// Joins the distinct nodes `i` and `j` by an edge with payload `e`,
    /// unless they are joined already; gives access to the new payload, or
    /// `None` when they were joined already.
    pub fn try_add_edge(&mut self, i: NodeId, j: NodeId, e: E) -> (r: Option<&mut E>)
        requires
            old(self).wf(),
            i != j,
            old(self).node_view().contains_key(i),
            old(self).node_view().contains_key(j),
        ensures
            final(self).node_view() == old(self).node_view(),
            final(self).wf(),
            old(self).has_edge(i, j) ==> r.is_none() && final(self).edge_view() == old(self).edge_view(),
            !old(self).has_edge(i, j) ==> r.is_some() && *r.unwrap() == e
                && final(self).edge_view() =~= old(self).edge_view().insert(normalized(i, j), *final(r.unwrap())),
    {
        proof {
            self.lemma_edge_key(i, j);
        }
        let k = edge_key(i, j);
        if self.edges.contains_key(&k) {
            return None;
        }
        let mut si = self.adjacency.remove(&i).unwrap();
        si.insert(j);
        self.adjacency.insert(i, si);
        let mut sj = self.adjacency.remove(&j).unwrap();
        sj.insert(i);
        self.adjacency.insert(j, sj);
        proof {
            lemma_packed_parts(normalized(i, j).0, normalized(i, j).1);
            lemma_packed_injective();
            let keys = self.edges@.dom().insert(k);
            assert forall|a: NodeId, b: NodeId| #[trigger]
                self.adjacency@.contains_key(a) implies (#[trigger] self.adjacency@[a]@.contains(b)
                <==> (a != b && keys.contains(edge_key_of(a, b)))) by {
                lemma_packed_parts(normalized(a, b).0, normalized(a, b).1);
            }
            assert forall|q: u128| #[trigger] keys.contains(q) implies key_lo(q) < key_hi(q)
                && self.nodes@.contains_key(key_lo(q)) && self.nodes@.contains_key(key_hi(q)) by {
                if q != k {
                    assert(old(self).edges@.contains_key(q));
                }
            }
            assert forall|v: E| #[trigger] maps_agree(self.nodes@.dom(), self.edges@.insert(k, v), self.adjacency@) by {
                assert(self.edges@.insert(k, v).dom() == keys);
            }
            assert forall|v: E, p: (NodeId, NodeId)| #[trigger] self.edges@.insert(k, v).contains_key(packed(p.0, p.1)) && p.0 < p.1
                implies self.nodes@.contains_key(p.0) && self.nodes@.contains_key(p.1) by {
                lemma_packed_parts(p.0, p.1);
                assert(keys.contains(packed(p.0, p.1)));
            }
        }
        match self.edges.entry(k) {
            Entry::Vacant(v) => Some(v.insert(e)),
            Entry::Occupied(_) => None,
        }
    }

    /// Joins the distinct nodes `i` and `j`, not yet joined, by an edge with
    /// payload `e`.
    pub fn add_edge(&mut self, i: NodeId, j: NodeId, e: E)
        requires
            old(self).wf(),
            i != j,
            old(self).node_view().contains_key(i),
            old(self).node_view().contains_key(j),
            !old(self).has_edge(i, j),
        ensures
            final(self).wf(),
            final(self).node_view() == old(self).node_view(),
            final(self).edge_view() == old(self).edge_view().insert(normalized(i, j), e),
    {
        self.try_add_edge(i, j, e);
    }

    /// The neighbours of node `i` in increasing id order, each with the
    /// payload of the edge that joins it to `i`.
    pub fn neighbours(&self, i: NodeId) -> (r: Vec<(NodeId, &E)>)
        requires
            self.wf(),
            self.node_view().contains_key(i),
        ensures
            forall|k: int| 0 <= k < r@.len() ==> self.has_edge(i, #[trigger] r@[k].0)
                && *r@[k].1 == self.edge_at(i, r@[k].0),
            forall|j: NodeId| #[trigger] self.has_edge(i, j) ==> exists|k: int|
                0 <= k < r@.len() && #[trigger] r@[k].0 == j,
            forall|k1: int, k2: int| 0 <= k1 < k2 < r@.len() ==> r@[k1].0 < r@[k2].0,
    {
        let adj = self.adjacency.get(&i).unwrap();
        let mut r: Vec<(NodeId, &E)> = Vec::new();
        for j in it: adj.iter()
            invariant
                self.wf(),
                self.node_view().contains_key(i),
                *adj == self.adjacency@[i],
                it.seq().unref().to_set() == adj@,
                it.seq().unref().no_duplicates(),
                r@.len() == it.index@,
                forall|k: int|
                    #![trigger r@[k]]
                    #![trigger it.seq().unref()[k]]
                    0 <= k < r@.len() ==> r@[k].0 == it.seq().unref()[k],
                forall|k: int| 0 <= k < r@.len() ==> self.has_edge(i, #[trigger] r@[k].0)
                    && *r@[k].1 == self.edge_at(i, r@[k].0),
                forall|k1: int, k2: int| 0 <= k1 < k2 < r@.len() ==> r@[k1].0 < r@[k2].0,
                vstd::std_specs::btree::increasing_seq(it.seq()),
                it.index@ == it.seq().len() ==> forall|j: NodeId| #[trigger] adj@.contains(j)
                    ==> exists|k: int| 0 <= k < r@.len() && #[trigger] r@[k].0 == j,
        {
            proof {
                self.lemma_edge_key(i, *j);
                assert(it.seq().unref()[it.index@ as int] == *j);
                assert(adj@.contains(*j));
                assert forall|k: int| 0 <= k < r@.len() implies r@[k].0 < *j by {
                    assert(it.seq().unref()[k] == r@[k].0);
                    broadcast use vstd::laws_cmp::lemma_ref_obeys_cmp_spec;
                    vstd::std_specs::btree::axiom_increasing_seq_meaning(it.seq());
                    assert(<&u64 as OrdSpec>::cmp_spec(&it.seq()[k], &it.seq()[it.index@ as int]) is Less);
                }
            }
            let e = self.edges.get(&edge_key(i, *j)).unwrap();
            let ghost old_r = r@;
            r.push((*j, e));
            proof {
                assert forall|k: int| 0 <= k < r@.len() implies r@[k].0 == it.seq().unref()[k] by {
                    if k < r@.len() - 1 {
                        assert(r@[k] == old_r[k]);
                    }
                }
                assert forall|x: NodeId| r@.len() == it.seq().len() && #[trigger] adj@.contains(x)
                    implies exists|k: int| 0 <= k < r@.len() && #[trigger] r@[k].0 == x by {
                    assert(it.seq().unref().to_set().contains(x));
                    assert(it.seq().unref().contains(x));
                    assert(exists|k: int| 0 <= k < r@.len() && it.seq().unref()[k] == x);
                }
            }
        }
        proof {
            assert forall|j: NodeId| #[trigger] self.has_edge(i, j) implies exists|k: int|
                0 <= k < r@.len() && #[trigger] r@[k].0 == j by {
                self.lemma_edge_key(i, j);
                assert(adj@.contains(j));
            }
        }
        r
    }

    /// Removes node `i` together with every edge that touches it, and
    /// returns its payload; returns `None` when there is no such node.
    pub fn try_remove_node(&mut self, i: NodeId) -> (r: Option<N>)
        requires
            old(self).wf(),
        ensures
            final(self).wf(),
            !old(self).node_view().contains_key(i) ==> r is None && final(self).node_view()
                == old(self).node_view() && final(self).edge_view() == old(self).edge_view(),
            old(self).node_view().contains_key(i) ==> r == Some(old(self).node_view()[i])
                && final(self).node_view() == old(self).node_view().remove(i)
                && final(self).edge_view() == old(self).edge_view().restrict(
                Set::new(|p: (NodeId, NodeId)| p.0 != i && p.1 != i),
            ),
    {
        let n = match self.nodes.remove(&i) {
            Some(n) => n,
            None => {
                assert(self.nodes@ =~= old(self).nodes@);
                assert(self.inner_wf());
                proof {
                    self.lemma_wf();
                }
                return None;
            },
        };
        let adj = self.adjacency.remove(&i).unwrap();
        let ghost done: Set<NodeId> = Set::empty();
        for j in it: adj.iter()
            invariant
                old(self).inner_wf(),
                old(self).nodes@.contains_key(i),
                adj == old(self).adjacency@[i],
                it.seq().unref().to_set() == adj@,
                it.seq().unref().no_duplicates(),
                done.subset_of(adj@),
                forall|k: int| 0 <= k < it.index@ ==> done.contains(#[trigger] it.seq().unref()[k]),
                forall|k: int| it.index@ <= k < it.seq().len() ==> !done.contains(#[trigger] it.seq().unref()[k]),
                it.index@ == it.seq().len() ==> done == adj@,
                self.nodes@ == old(self).nodes@.remove(i),
                self.adjacency@.dom() == self.nodes@.dom(),
                forall|q: u128| #[trigger] self.edges@.contains_key(q) <==> (old(self).edges@.contains_key(q)
                    && !(key_lo(q) == i && done.contains(key_hi(q)))
                    && !(key_hi(q) == i && done.contains(key_lo(q)))),
                forall|q: u128| #[trigger] self.edges@.contains_key(q) ==> self.edges@[q] == old(self).edges@[q],
                forall|x: NodeId| #[trigger] self.adjacency@.contains_key(x) ==> self.adjacency@[x]@ == (
                    if done.contains(x) { old(self).adjacency@[x]@.remove(i) } else { old(self).adjacency@[x]@ }),
        {
            let ghost jj = *j;
            proof {
                assert(it.seq().unref()[it.index@ as int] == jj);
                assert(adj@.contains(jj));
                assert(old(self).edges@.contains_key(edge_key_of(i, jj)));
                lemma_packed_parts(normalized(i, jj).0, normalized(i, jj).1);
                assert(!done.contains(jj));
            }
            self.edges.remove(&edge_key(i, *j));
            let mut sj = self.adjacency.remove(j).unwrap();
            sj.remove(&i);
            self.adjacency.insert(*j, sj);
            proof {
                let done0 = done;
                done = done.insert(jj);
                lemma_packed_injective();
                assert forall|q: u128| #[trigger] self.edges@.contains_key(q) <==> (old(self).edges@.contains_key(q)
                    && !(key_lo(q) == i && done.contains(key_hi(q)))
                    && !(key_hi(q) == i && done.contains(key_lo(q)))) by {
                    lemma_key_split(q);
                }
                assert forall|k: int| it.index@ + 1 <= k < it.seq().len() implies !done.contains(#[trigger] it.seq().unref()[k]) by {
                    assert(it.seq().unref()[k] != it.seq().unref()[it.index@ as int]);
                }
                assert forall|x: NodeId| it.index@ + 1 == it.seq().len() && #[trigger] adj@.contains(x) implies done.contains(x) by {
                    assert(it.seq().unref().to_set().contains(x));
                    assert(it.seq().unref().contains(x));
                }
            }
        }
        proof {
            assert forall|a: NodeId, b: NodeId| #[trigger]
                self.adjacency@.contains_key(a) implies (#[trigger] self.adjacency@[a]@.contains(b)
                <==> (a != b && self.edges@.contains_key(edge_key_of(a, b)))) by {
                lemma_packed_parts(normalized(a, b).0, normalized(a, b).1);
                lemma_packed_parts(normalized(i, a).0, normalized(i, a).1);
                if b == i && old(self).adjacency@[a]@.contains(i) {
                    assert(old(self).adjacency@[i]@.contains(a));
                }
                if old(self).edges@.contains_key(edge_key_of(a, b)) && (normalized(a, b).0 == i || normalized(a, b).1 == i) {
                    assert(b == i || a == i);
                    assert(old(self).adjacency@[i]@.contains(a));
                }
            }
            assert forall|q: u128| #[trigger]
                self.edges@.contains_key(q) implies key_lo(q) < key_hi(q)
                && self.nodes@.contains_key(key_lo(q)) && self.nodes@.contains_key(key_hi(q)) by {
                if key_lo(q) == i {
                    lemma_key_split(q);
                    assert(old(self).adjacency@[i]@.contains(key_hi(q)));
                }
                if key_hi(q) == i {
                    lemma_key_split(q);
                    assert(old(self).adjacency@[i]@.contains(key_lo(q)));
                }
            }
            self.lemma_wf();
            let keep = Set::new(|p: (NodeId, NodeId)| p.0 != i && p.1 != i);
            assert forall|p: (NodeId, NodeId)| #[trigger] self.edge_view().contains_key(p)
                <==> old(self).edge_view().restrict(keep).contains_key(p) by {
                lemma_packed_parts(p.0, p.1);
                if p.0 < p.1 && p.0 == i && old(self).edges@.contains_key(packed(p.0, p.1)) {
                    assert(old(self).adjacency@[i]@.contains(p.1));
                }
                if p.0 < p.1 && p.1 == i && old(self).edges@.contains_key(packed(p.0, p.1)) {
                    assert(old(self).adjacency@[i]@.contains(p.0));
                }
            }
            assert(self.edge_view() =~= old(self).edge_view().restrict(keep));
        }
        Some(n)
    }

    /// Removes node `i`, which must exist, together with every edge that
    /// touches it, and returns its payload.
    pub fn remove_node(&mut self, i: NodeId) -> (n: N)
        requires
            old(self).wf(),
            old(self).node_view().contains_key(i),
        ensures
            final(self).wf(),
            n == old(self).node_view()[i],
            final(self).node_view() == old(self).node_view().remove(i),
            final(self).edge_view() == old(self).edge_view().restrict(
                Set::new(|p: (NodeId, NodeId)| p.0 != i && p.1 != i),
            ),
    {
        self.try_remove_node(i).unwrap()
    }

    /// Every node with its payload, each once, in no particular order.
    pub fn nodes(&self) -> (r: Vec<(NodeId, &N)>)
        requires
            self.wf(),
        ensures
            forall|k: int| 0 <= k < r@.len() ==> self.node_view().contains_key(#[trigger] r@[k].0)
                && *r@[k].1 == self.node_view()[r@[k].0],
            forall|i: NodeId| #[trigger] self.node_view().contains_key(i) ==> exists|k: int|
                0 <= k < r@.len() && #[trigger] r@[k].0 == i,
            forall|k1: int, k2: int| 0 <= k1 < k2 < r@.len() ==> r@[k1].0 != r@[k2].0,
    {
        let mut r: Vec<(NodeId, &N)> = Vec::new();
        for kv in it: self.nodes.iter()
            invariant
                it.seq().len() == self.nodes@.dom().len(),
                forall|k: int| 0 <= k < it.seq().len() ==> self.nodes@.contains_key(*(#[trigger] it.seq()[k]).0)
                    && self.nodes@[*it.seq()[k].0] == *it.seq()[k].1,
                forall|i: NodeId| #[trigger] self.nodes@.contains_key(i) ==> it.seq().contains((&i, &self.nodes@[i])),
                it.seq().no_duplicates(),
                r@.len() == it.index@,
                forall|k: int|
                    #![trigger r@[k]]
                    #![trigger it.seq()[k]]
                    0 <= k < r@.len() ==> r@[k].0 == *it.seq()[k].0 && r@[k].1 == it.seq()[k].1,
                forall|k1: int, k2: int| 0 <= k1 < k2 < r@.len() ==> r@[k1].0 != r@[k2].0,
                it.index@ == it.seq().len() ==> forall|i: NodeId| #[trigger] self.nodes@.contains_key(i)
                    ==> exists|k: int| 0 <= k < r@.len() && #[trigger] r@[k].0 == i,
        {
            let (i, n) = kv;
            proof {
                assert(it.seq()[it.index@ as int] == kv);
                assert forall|k: int| 0 <= k < r@.len() implies r@[k].0 != *i by {
                    assert(it.seq()[k].0 == r@[k].0);
                    assert(it.seq()[k] != it.seq()[it.index@ as int]);
                }
            }
            let ghost old_r = r@;
            r.push((*i, n));
            proof {
                assert forall|k: int| 0 <= k < r@.len() implies r@[k].0 == *it.seq()[k].0 && r@[k].1 == it.seq()[k].1 by {
                    if k < r@.len() - 1 {
                        assert(r@[k] == old_r[k]);
                    }
                }
                assert forall|x: NodeId| r@.len() == it.seq().len() && #[trigger] self.nodes@.contains_key(x)
                    implies exists|k: int| 0 <= k < r@.len() && #[trigger] r@[k].0 == x by {
                    assert(it.seq().contains((&x, &self.nodes@[x])));
                    assert(exists|k: int| 0 <= k < r@.len() && it.seq()[k] == (&x, &self.nodes@[x]));
                }
            }
        }
        r
    }

    /// Every node id, each once, in no particular order.
    pub fn node_ids(&self) -> (r: Vec<NodeId>)
        requires
            self.wf(),
        ensures
            forall|k: int| 0 <= k < r@.len() ==> self.node_view().contains_key(#[trigger] r@[k]),
            forall|i: NodeId| #[trigger] self.node_view().contains_key(i) ==> r@.contains(i),
            r@.no_duplicates(),
    {
        let all = self.nodes();
        let mut r: Vec<NodeId> = Vec::new();
        for k in 0..all.len()
            invariant
                r@.len() == k,
                forall|x: int| 0 <= x < k ==> r@[x] == all@[x].0,
                forall|x: int| 0 <= x < all@.len() ==> self.node_view().contains_key(#[trigger] all@[x].0),
                forall|k1: int, k2: int| 0 <= k1 < k2 < all@.len() ==> all@[k1].0 != all@[k2].0,
        {
            r.push(all[k].0);
        }
        proof {
            assert forall|i: NodeId| #[trigger] self.node_view().contains_key(i) implies r@.contains(i) by {
                let k = choose|k: int| 0 <= k < all@.len() && #[trigger] all@[k].0 == i;
                assert(r@[k] == i);
            }
        }
        r
    }

    /// Every edge as its normalized pair of endpoints with its payload, each
    /// once, in no particular order.
    pub fn edges(&self) -> (r: Vec<(NodeId, NodeId, &E)>)
        requires
            self.wf(),
        ensures
            forall|k: int| 0 <= k < r@.len() ==> self.edge_view().contains_key(((#[trigger] r@[k]).0, r@[k].1))
                && *r@[k].2 == self.edge_view()[(r@[k].0, r@[k].1)],
            forall|p: (NodeId, NodeId)| #[trigger] self.edge_view().contains_key(p) ==> exists|k: int|
                0 <= k < r@.len() && ((#[trigger] r@[k]).0, r@[k].1) == p,
            forall|k1: int, k2: int| 0 <= k1 < k2 < r@.len() ==> (r@[k1].0, r@[k1].1) != (r@[k2].0, r@[k2].1),
    {
        let mut r: Vec<(NodeId, NodeId, &E)> = Vec::new();
        for kv in it: self.edges.iter()
            invariant
                self.wf(),
                it.seq().len() == self.edges@.dom().len(),
                forall|k: int| 0 <= k < it.seq().len() ==> self.edges@.contains_key(*(#[trigger] it.seq()[k]).0)
                    && self.edges@[*it.seq()[k].0] == *it.seq()[k].1,
                forall|q: u128| #[trigger] self.edges@.contains_key(q) ==> it.seq().contains((&q, &self.edges@[q])),
                it.seq().no_duplicates(),
                r@.len() == it.index@,
                forall|k: int|
                    #![trigger r@[k]]
                    #![trigger it.seq()[k]]
                    0 <= k < r@.len() ==> r@[k].0 == key_lo(*it.seq()[k].0) && r@[k].1 == key_hi(*it.seq()[k].0)
                        && r@[k].2 == it.seq()[k].1,
                forall|k1: int, k2: int| 0 <= k1 < k2 < r@.len() ==> (r@[k1].0, r@[k1].1) != (r@[k2].0, r@[k2].1),
                it.index@ == it.seq().len() ==> forall|q: u128| #[trigger] self.edges@.contains_key(q)
                    ==> exists|k: int| 0 <= k < r@.len() && ((#[trigger] r@[k]).0, r@[k].1) == (key_lo(q), key_hi(q)),
        {
            let (q, e) = kv;
            let lo = (*q >> 64u128) as u64;
            let hi = *q as u64;
            proof {
                assert(it.seq()[it.index@ as int] == kv);
                lemma_key_split(*q);
                assert forall|k: int| 0 <= k < r@.len() implies (r@[k].0, r@[k].1) != (lo, hi) by {
                    lemma_key_split(*it.seq()[k].0);
                    assert(it.seq()[k] != it.seq()[it.index@ as int]);
                }
            }
            let ghost old_r = r@;
            r.push((lo, hi, e));
            proof {
                assert forall|k: int| 0 <= k < r@.len() implies r@[k].0 == key_lo(*it.seq()[k].0) && r@[k].1 == key_hi(*it.seq()[k].0)
                        && r@[k].2 == it.seq()[k].1 by {
                    if k < r@.len() - 1 {
                        assert(r@[k] == old_r[k]);
                    }
                }
                assert forall|x: u128| r@.len() == it.seq().len() && #[trigger] self.edges@.contains_key(x)
                    implies exists|k: int| 0 <= k < r@.len() && ((#[trigger] r@[k]).0, r@[k].1) == (key_lo(x), key_hi(x)) by {
                    assert(it.seq().contains((&x, &self.edges@[x])));
                    assert(exists|k: int| 0 <= k < r@.len() && it.seq()[k] == (&x, &self.edges@[x]));
                }
            }
        }
        proof {
            assert forall|k: int| 0 <= k < r@.len() implies self.edge_view().contains_key(((#[trigger] r@[k]).0, r@[k].1))
                && *r@[k].2 == self.edge_view()[(r@[k].0, r@[k].1)] by {
                let q = choose|q: u128| self.edges@.contains_key(q) && key_lo(q) == r@[k].0 && key_hi(q) == r@[k].1 && self.edges@[q] == *r@[k].2;
                lemma_key_split(q);
            }
            assert forall|p: (NodeId, NodeId)| #[trigger] self.edge_view().contains_key(p) implies exists|k: int|
                0 <= k < r@.len() && ((#[trigger] r@[k]).0, r@[k].1) == p by {
                lemma_packed_parts(p.0, p.1);
                assert(self.edges@.contains_key(packed(p.0, p.1)));
            }
        }
        r
    }

    /// Gives access to the payload of node `i`, or `None` when there is no
    /// such node; the nodes and edges stay as they are.
    pub fn node_mut(&mut self, i: NodeId) -> (r: Option<&mut N>)
        requires
            old(self).wf(),
        ensures
            final(self).node_view().dom() == old(self).node_view().dom(),
            final(self).edge_view() == old(self).edge_view(),
            final(self).wf(),
            !old(self).node_view().contains_key(i) ==> r.is_none() && final(self).node_view()
                == old(self).node_view(),
            old(self).node_view().contains_key(i) ==> r.is_some() && *r.unwrap() == old(self).node_view()[i]
                && final(self).node_view() == old(self).node_view().insert(i, *final(r.unwrap())),
    {
        proof {
            let dom = self.nodes@.dom();
            assert(maps_agree(dom, self.edges@, self.adjacency@));
            assert(dom.finite());
            assert forall|p: (NodeId, NodeId)| #[trigger] self.edge_view().contains_key(p) implies p.0 < p.1
                && dom.contains(p.0) && dom.contains(p.1) by {
            }
        }
        proof {
            if !self.nodes@.contains_key(i) {
                assert(self.nodes@.remove(i) =~= self.nodes@);
            }
        }
        match self.nodes.entry(i) {
            Entry::Occupied(o) => Some(o.into_mut()),
            Entry::Vacant(_) => None,
        }
    }

    /// Gives access to the payload of the edge between `i` and `j`, or
    /// `None` when they are not joined; the nodes and edges stay as they are.
    pub fn edge_mut(&mut self, i: NodeId, j: NodeId) -> (r: Option<&mut E>)
        requires
            old(self).wf(),
        ensures
            final(self).node_view() == old(self).node_view(),
            final(self).edge_view().dom() == old(self).edge_view().dom(),
            final(self).wf(),
            !old(self).has_edge(i, j) ==> r.is_none() && final(self).edge_view() == old(self).edge_view(),
            old(self).has_edge(i, j) ==> r.is_some() && *r.unwrap() == old(self).edge_at(i, j)
                && final(self).edge_view() =~= old(self).edge_view().insert(normalized(i, j), *final(r.unwrap())),
    {
        proof {
            self.lemma_edge_key(i, j);
            lemma_packed_parts(normalized(i, j).0, normalized(i, j).1);
            lemma_packed_injective();
            assert forall|v: E| #[trigger] maps_agree(self.nodes@.dom(), self.edges@.insert(edge_key_of(i, j), v), self.adjacency@)
                || !self.edges@.contains_key(edge_key_of(i, j)) by {
                if self.edges@.contains_key(edge_key_of(i, j)) {
                    assert(self.edges@.insert(edge_key_of(i, j), v).dom() == self.edges@.dom());
                }
            }
            assert forall|v: E, p: (NodeId, NodeId)| self.edges@.contains_key(edge_key_of(i, j))
                && #[trigger] self.edges@.insert(edge_key_of(i, j), v).contains_key(packed(p.0, p.1)) && p.0 < p.1
                implies self.nodes@.contains_key(p.0) && self.nodes@.contains_key(p.1) by {
                lemma_packed_parts(p.0, p.1);
                assert(self.edge_view().contains_key(p));
            }
        }
        let k = edge_key(i, j);
        proof {
            if !self.edges@.contains_key(k) {
                assert(self.edges@.remove(k) =~= self.edges@);
            }
        }
        match self.edges.entry(k) {
            Entry::Occupied(o) => Some(o.into_mut()),
            Entry::Vacant(_) => None,
        }
    }

    /// Inserts node `i`, which must be new, with payload `n`.
    pub fn add_node(&mut self, i: NodeId, n: N)
        requires
            old(self).wf(),
            !old(self).node_view().contains_key(i),
        ensures
            final(self).wf(),
            final(self).node_view() == old(self).node_view().insert(i, n),
            final(self).edge_view() == old(self).edge_view(),
    {
        self.try_add_node(i, n);
    }
}

impl<N: Clone, E: Clone> Clone for UnGraph<N, E> {
    /// A copy with the same nodes and edges, independent of the original.
    fn clone(&self) -> (g: Self)
        ensures
            g.node_view() == self.node_view(),
            g.edge_view() == self.edge_view(),
            self.wf() ==> g.wf(),
    {
        let g = UnGraph { nodes: self.nodes.clone(), edges: self.edges.clone(), adjacency: self.adjacency.clone() };
        assert(g.edge_view() =~= self.edge_view());
        g
    }
}

/// Adding an edge makes each end a neighbour of the other.
pub proof fn lemma_added_edge_adjacent<N, E>(before: &UnGraph<N, E>, after: &UnGraph<N, E>, a: NodeId, b: NodeId, e: E)
    requires
        a != b,
        after.edge_view() == before.edge_view().insert(normalized(a, b), e),
    ensures
        after.adjacent(a).contains(b),
        after.adjacent(b).contains(a),
        after.edge_at(a, b) == e,
        after.edge_at(b, a) == e,
{
    assert(normalized(b, a) == normalized(a, b));
}

/// Removing a node leaves no edge and no adjacency that refers to it.
pub proof fn lemma_removed_node_isolated<N, E>(before: &UnGraph<N, E>, after: &UnGraph<N, E>, a: NodeId)
    requires
        after.wf(),
        after.node_view() == before.node_view().remove(a),
        after.edge_view() == before.edge_view().restrict(Set::new(|p: (NodeId, NodeId)| p.0 != a && p.1 != a)),
    ensures
        !after.node_view().contains_key(a),
        forall|x: NodeId| !after.has_edge(a, x) && !after.has_edge(x, a),
        forall|x: NodeId| !(#[trigger] after.adjacent(x)).contains(a),
        after.adjacent(a) == Set::<NodeId>::empty(),
        forall|p: (NodeId, NodeId)| #[trigger] after.edge_view().contains_key(p) ==> p.0 != a && p.1 != a,
{
    assert(after.adjacent(a) =~= Set::<NodeId>::empty());
}

} // verus!
