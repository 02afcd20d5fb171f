//! A disjoint-set forest over the elements `0..n`, with union by size and
//! path halving.

use vstd::prelude::*;

verus! {

broadcast use vstd::set::group_set_axioms, vstd::set_lib::group_set_lib_default;

/// The record of one element: its parent, and the size of the class it
/// roots (meaningful for roots only).
#[derive(Debug, Copy, Clone)]
pub struct Entry {
    parent: usize,
    size: usize,
}

impl Entry {
    /// The parent that `id` returns.
    pub closed spec fn spec_id(&self) -> int {
        self.parent as int
    }

    /// The size that `size` returns.
    pub closed spec fn spec_size(&self) -> int {
        self.size as int
    }

    fn new(parent: usize) -> (e: Entry)
        ensures
            e.parent == parent,
            e.size == 1,
    {
        Entry { parent, size: 1 }
    }

    /// The parent; for the entry of a root, the root itself.
    pub fn id(&self) -> (r: usize)
        ensures
            r == self.spec_id(),
    {
        self.parent
    }

    /// For the entry of a root, the number of elements in its class.
    pub fn size(&self) -> (r: usize)
        ensures
            r == self.spec_size(),
    {
        self.size
    }
}

/// The elements whose representative is `r`.
pub open spec fn class_of(rep: Seq<int>, r: int) -> Set<int> {
    Set::new(|i: int| 0 <= i < rep.len() && rep[i] == r)
}

/// A partition of `0..n` into classes: entries, the number of classes, and
/// (as ghost state) each element's representative and a rank that grows
/// towards the roots.
pub struct SimpleDisjointSet(Vec<Entry>, usize, Ghost<Seq<int>>, Ghost<Seq<nat>>);

impl SimpleDisjointSet {
    /// The number of elements.
    pub closed spec fn universe(&self) -> nat {
        self.0@.len()
    }

    /// The representative of the class of `i`.
    pub closed spec fn find_spec(&self, i: int) -> int {
        self.2@[i]
    }

    /// The elements of the class that `r` represents.
    pub closed spec fn class(&self, r: int) -> Set<int> {
        class_of(self.2@, r)
    }

    /// The number of elements in the class that `r` represents.
    pub closed spec fn class_size(&self, r: int) -> nat {
        self.class(r).len()
    }

    closed spec fn parent(&self, i: int) -> int {
        self.0@[i].parent as int
    }

    /// The elements that are roots.
    closed spec fn roots(&self) -> Set<int> {
        Set::new(|i: int| 0 <= i < self.0@.len() && self.0@[i].parent == i)
    }

    /// The number of classes.
    pub closed spec fn class_count(&self) -> nat {
        self.roots().len()
    }

    #[verifier::opaque]
    pub closed spec fn wf(&self) -> bool {
        let n = self.0@.len();
        &&& self.2@.len() == n
        &&& self.3@.len() == n
        &&& self.1 == self.roots().len()
        &&& forall|i: int| 0 <= i < n ==> 0 <= #[trigger] self.parent(i) < n
        &&& forall|i: int| 0 <= i < n ==> 0 <= #[trigger] self.2@[i] < n
        &&& forall|i: int| 0 <= i < n ==> self.2@[self.parent(i)] == #[trigger] self.2@[i]
        &&& forall|i: int| 0 <= i < n ==> self.parent(#[trigger] self.2@[i]) == self.2@[i]
        &&& forall|i: int| 0 <= i < n && #[trigger] self.parent(i) == i ==> self.2@[i] == i
        &&& forall|i: int| 0 <= i < n && #[trigger] self.parent(i) != i ==> self.3@[self.parent(i)] > self.3@[i]
        &&& forall|i: int| 0 <= i < n ==> #[trigger] self.3@[i] + self.roots().len() <= n
        &&& forall|i: int| 0 <= i < n && #[trigger] self.parent(i) == i ==> self.0@[i].size == class_of(self.2@, i).len()
    }

    /// The representatives are exactly the roots, and each element's class
    /// contains it.
    pub proof fn lemma_find(&self, i: int)
        requires
            self.wf(),
            0 <= i < self.universe(),
        ensures
            0 <= self.find_spec(i) < self.universe(),
            self.find_spec(self.find_spec(i)) == self.find_spec(i),
            self.class(self.find_spec(i)).contains(i),
    {
        self.lemma_facts(i);
        self.lemma_facts(self.2@[i]);
        reveal(SimpleDisjointSet::wf);
    }

    /// The class of `r` is exactly the elements whose representative is
    /// `r`, its size is the number of those elements, and the number of
    /// classes is the number of distinct representatives.
    pub proof fn lemma_classes(&self)
        requires
            self.wf(),
        ensures
            forall|r: int, i: int| #[trigger] self.class(r).contains(i) <==> 0 <= i < self.universe()
                && self.find_spec(i) == r,
            forall|r: int| #[trigger] self.class_size(r) == self.class(r).len(),
            forall|r: int| self.class(r).finite(),
            self.class_count() == self.representatives().len(),
    {
        reveal(SimpleDisjointSet::wf);
        assert forall|r: int| self.class(r).finite() by {
            self.lemma_class_finite(r);
        }
        assert(self.roots() =~= self.representatives()) by {
            assert forall|r: int| self.representatives().contains(r) implies self.roots().contains(r) by {
                let i = choose|i: int| 0 <= i < self.0@.len() && self.2@[i] == r;
                assert(self.parent(self.2@[i]) == self.2@[i]);
            }
            assert forall|r: int| self.roots().contains(r) implies self.representatives().contains(r) by {
                assert(self.2@[r] == r);
            }
        }
    }

    /// The representatives of the classes.
    pub closed spec fn representatives(&self) -> Set<int> {
        Set::new(|r: int| exists|i: int| 0 <= i < self.0@.len() && self.2@[i] == r)
    }

    proof fn lemma_facts(&self, i: int)
        requires
            self.wf(),
            0 <= i < self.0@.len(),
        ensures
            self.2@.len() == self.0@.len(),
            self.3@.len() == self.0@.len(),
            self.1 == self.roots().len(),
            0 <= self.parent(i) < self.0@.len(),
            0 <= self.2@[i] < self.0@.len(),
            self.2@[self.parent(i)] == self.2@[i],
            self.parent(self.2@[i]) == self.2@[i],
            self.parent(i) == i ==> self.2@[i] == i,
            self.parent(i) != i ==> self.3@[self.parent(i)] > self.3@[i],
            self.3@[i] + self.roots().len() <= self.0@.len(),
            self.parent(i) == i ==> self.0@[i].size == class_of(self.2@, i).len(),
    {
        reveal(SimpleDisjointSet::wf);
    }

    proof fn lemma_class_finite(&self, r: int)
        requires
            self.wf(),
        ensures
            class_of(self.2@, r).finite(),
            class_of(self.2@, r).len() <= self.0@.len(),
    {
        reveal(SimpleDisjointSet::wf);
        vstd::set_lib::lemma_int_range(0, self.0@.len() as int);
        assert(class_of(self.2@, r).subset_of(vstd::set_lib::set_int_range(0, self.0@.len() as int)));
        vstd::set_lib::lemma_len_subset(class_of(self.2@, r), vstd::set_lib::set_int_range(0, self.0@.len() as int));
    }

    proof fn lemma_roots_finite(&self)
        ensures
            self.roots().finite(),
            self.roots().len() <= self.0@.len(),
    {
        vstd::set_lib::lemma_int_range(0, self.0@.len() as int);
        assert(self.roots().subset_of(vstd::set_lib::set_int_range(0, self.0@.len() as int)));
        vstd::set_lib::lemma_len_subset(self.roots(), vstd::set_lib::set_int_range(0, self.0@.len() as int));
    }

    /// `n` elements, each in a class of its own.
    pub fn new(n: usize) -> (s: Self)
        ensures
            s.wf(),
            s.universe() == n,
            s.class_count() == n,
            forall|i: int| 0 <= i < n ==> #[trigger] s.find_spec(i) == i,
            forall|i: int| 0 <= i < n ==> #[trigger] s.class_size(i) == 1,
    {
        let mut v: Vec<Entry> = Vec::new();
        for i in 0..n
            invariant
                v@.len() == i,
                forall|j: int| 0 <= j < i ==> (#[trigger] v@[j]).parent == j && v@[j].size == 1,
        {
            v.push(Entry::new(i));
        }
        let ghost rep = Seq::new(n as nat, |i: int| i);
        let ghost rank = Seq::new(n as nat, |i: int| 0nat);
        let s = SimpleDisjointSet(v, n, Ghost(rep), Ghost(rank));
        proof {
            reveal(SimpleDisjointSet::wf);
            vstd::set_lib::lemma_int_range(0, n as int);
            assert(s.roots() =~= vstd::set_lib::set_int_range(0, n as int));
            assert forall|i: int| 0 <= i < n implies #[trigger] s.class_size(i) == 1 by {
                assert(class_of(rep, i) =~= set![i]);
            }
            assert forall|i: int| 0 <= i < n && #[trigger] s.parent(i) == i implies s.0@[i].size == class_of(s.2@, i).len() by {
                assert(class_of(rep, i) =~= set![i]);
            }
            assert forall|i: int| 0 <= i < n implies #[trigger] s.3@[i] + s.roots().len() <= n by {
            }
        }
        s
    }

    /// Both hold the same classes, with the same roots and sizes.
    closed spec fn same_classes(&self, other: &Self) -> bool {
        &&& self.0@.len() == other.0@.len()
        &&& self.2 == other.2
        &&& self.3 == other.3
        &&& self.1 == other.1
        &&& self.roots() == other.roots()
    }

    /// Finds the root of `id`'s class, halving the path on the way.
    fn find_id(&mut self, id: usize) -> (r: usize)
        requires
            old(self).wf(),
            id < old(self).universe(),
        ensures
            final(self).wf(),
            final(self).same_classes(old(self)),
            r == old(self).find_spec(id as int),
            final(self).parent(r as int) == r,
    {
        let ghost start = id as int;
        let mut id = id;
        while self.0[id].parent != id
            invariant
                self.wf(),
                self.same_classes(old(self)),
                id < self.0@.len(),
                self.2@[id as int] == old(self).2@[start],
            decreases self.0@.len() - self.3@[id as int],
        {
            proof {
                self.lemma_facts(id as int);
            }
            let next = self.0[id].parent;
            proof {
                self.lemma_facts(next as int);
            }
            let gp = self.0[next].parent;
            let ghost before = *self;
            let e = Entry { parent: gp, size: self.0[id].size };
            self.0.set(id, e);
            proof {
                lemma_halve(&before, self, id as int);
                self.lemma_facts(id as int);
            }
            id = next;
        }
        proof {
            self.lemma_facts(id as int);
        }
        id
    }

    /// The entry of the root of `id`'s class: its id is the class's
    /// representative and its size the class's size. Halves the path to it.
    pub fn find_mut(&mut self, id: usize) -> (e: Entry)
        requires
            old(self).wf(),
            id < old(self).universe(),
        ensures
            final(self).wf(),
            final(self).universe() == old(self).universe(),
            final(self).class_count() == old(self).class_count(),
            forall|i: int| #[trigger] final(self).find_spec(i) == old(self).find_spec(i),
            forall|r: int| #[trigger] final(self).class(r) == old(self).class(r),
            e.spec_id() == old(self).find_spec(id as int),
            e.spec_size() == old(self).class_size(old(self).find_spec(id as int)),
    {
        proof {
            old(self).lemma_facts(id as int);
        }
        let r = self.find_id(id);
        proof {
            self.lemma_facts(r as int);
        }
        self.0[r]
    }

    /// Hangs the root `child` below the root `root`.
    fn link(&mut self, child: usize, root: usize)
        requires
            old(self).wf(),
            child < old(self).universe(),
            root < old(self).universe(),
            child != root,
            old(self).parent(child as int) == child,
            old(self).parent(root as int) == root,
        ensures
            final(self).wf(),
            final(self).universe() == old(self).universe(),
            final(self).class_count() + 1 == old(self).class_count(),
            forall|i: int| 0 <= i < old(self).universe() ==> #[trigger] final(self).find_spec(i) == if old(self).find_spec(i) == child {
                root as int
            } else {
                old(self).find_spec(i)
            },
            final(self).class(root as int) == old(self).class(root as int).union(old(self).class(child as int)),
            forall|r: int| r != root && r != child ==> #[trigger] final(self).class(r) == old(self).class(r),
    {
        let ghost before = *self;
        let ghost n = self.0@.len();
        let len = self.0.len();
        let ec = self.0[child];
        let er = self.0[root];
        proof {
            lemma_link_sizes(&before, child as int, root as int);
        }
        self.0.set(child, Entry { parent: root, size: ec.size });
        self.0.set(root, Entry { parent: root, size: er.size + ec.size });
        self.1 = self.1 - 1;
        let ghost old_rep = self.2@;
        let ghost old_rank = self.3@;
        let ghost new_rank: nat = if old_rank[root as int] > old_rank[child as int] { old_rank[root as int] } else {
            (old_rank[child as int] + 1) as nat
        };
        self.2 = Ghost(Seq::new(n, |i: int| if old_rep[i] == child { root as int } else { old_rep[i] }));
        self.3 = Ghost(old_rank.update(root as int, new_rank));
        proof {
            lemma_link(&before, self, child as int, root as int);
        }
    }

    /// Merges the classes of `x` and `y`, hanging the smaller below the
    /// larger; says whether they were distinct.
    pub fn union(&mut self, x: usize, y: usize) -> (merged: bool)
        requires
            old(self).wf(),
            x < old(self).universe(),
            y < old(self).universe(),
        ensures
            final(self).wf(),
            final(self).universe() == old(self).universe(),
            merged == (old(self).find_spec(x as int) != old(self).find_spec(y as int)),
            final(self).find_spec(x as int) == final(self).find_spec(y as int),
            final(self).class_count() == old(self).class_count() - if merged { 1int } else { 0int },
            forall|i: int| 0 <= i < old(self).universe() ==> #[trigger] final(self).find_spec(i) == if old(self).find_spec(i)
                == old(self).find_spec(x as int) || old(self).find_spec(i) == old(self).find_spec(y as int) {
                final(self).find_spec(x as int)
            } else {
                old(self).find_spec(i)
            },
            final(self).class(final(self).find_spec(x as int)) == old(self).class(old(self).find_spec(x as int)).union(
                old(self).class(old(self).find_spec(y as int)),
            ),
            merged ==> final(self).find_spec(x as int) == if old(self).class_size(old(self).find_spec(x as int))
                < old(self).class_size(old(self).find_spec(y as int)) {
                old(self).find_spec(y as int)
            } else {
                old(self).find_spec(x as int)
            },
            merged ==> forall|r: int| r != old(self).find_spec(x as int) && r != old(self).find_spec(y as int)
                ==> #[trigger] final(self).class(r) == old(self).class(r),
            !merged ==> forall|i: int| #[trigger] final(self).find_spec(i) == old(self).find_spec(i),
            !merged ==> forall|r: int| #[trigger] final(self).class(r) == old(self).class(r),
    {
        let rx = self.find_id(x);
        let ry = self.find_id(y);
        proof {
            old(self).lemma_find(x as int);
            old(self).lemma_find(y as int);
        }
        if rx == ry {
            assert(old(self).class(rx as int).union(old(self).class(rx as int)) =~= old(self).class(rx as int));
            return false;
        }
        proof {
            old(self).lemma_facts(rx as int);
            old(self).lemma_facts(ry as int);
        }
        let ghost mid = *self;
        proof {
            self.lemma_facts(rx as int);
            self.lemma_facts(ry as int);
        }
        if self.0[rx].size < self.0[ry].size {
            self.link(rx, ry);
        } else {
            self.link(ry, rx);
            assert(mid.class(rx as int).union(mid.class(ry as int)) =~= mid.class(ry as int).union(mid.class(rx as int)));
        }
        true
    }

    /// The number of elements.
    pub fn node_count(&self) -> (r: usize)
        ensures
            r == self.universe(),
    {
        self.0.len()
    }

    /// The number of classes.
    pub fn set_count(&self) -> (r: usize)
        requires
            self.wf(),
        ensures
            r == self.class_count(),
    {
        proof {
            reveal(SimpleDisjointSet::wf);
        }
        self.1
    }

    /// Puts every element back in a class of its own.
    pub fn reset(&mut self)
        requires
            old(self).wf(),
        ensures
            final(self).wf(),
            final(self).universe() == old(self).universe(),
            final(self).class_count() == old(self).universe(),
            forall|i: int| 0 <= i < old(self).universe() ==> #[trigger] final(self).find_spec(i) == i,
            forall|i: int| 0 <= i < old(self).universe() ==> #[trigger] final(self).class_size(i) == 1,
    {
        let n = self.0.len();
        for i in 0..n
            invariant
                self.0@.len() == n,
                forall|j: int| 0 <= j < i ==> (#[trigger] self.0@[j]).parent == j && self.0@[j].size == 1,
        {
            self.0.set(i, Entry::new(i));
        }
        self.1 = n;
        self.2 = Ghost(Seq::new(n as nat, |i: int| i));
        self.3 = Ghost(Seq::new(n as nat, |i: int| 0nat));
        proof {
            reveal(SimpleDisjointSet::wf);
            vstd::set_lib::lemma_int_range(0, n as int);
            assert(self.roots() =~= vstd::set_lib::set_int_range(0, n as int));
            assert forall|i: int| 0 <= i < n implies #[trigger] self.class_size(i) == 1 by {
                assert(class_of(self.2@, i) =~= set![i]);
            }
            assert forall|i: int| 0 <= i < n && #[trigger] self.parent(i) == i implies self.0@[i].size == class_of(self.2@, i).len() by {
                assert(class_of(self.2@, i) =~= set![i]);
            }
            assert forall|i: int| 0 <= i < n implies #[trigger] self.3@[i] + self.roots().len() <= n by {
            }
        }
    }
}

/// Finding is idempotent: a find changes no class, so finding the same
/// element again gives the same representative.
pub proof fn lemma_find_twice(s0: &SimpleDisjointSet, s1: &SimpleDisjointSet, x: int, first: Entry, second: Entry)
    requires
        forall|i: int| #[trigger] s1.find_spec(i) == s0.find_spec(i),
        first.spec_id() == s0.find_spec(x),
        second.spec_id() == s1.find_spec(x),
    ensures
        first.spec_id() == second.spec_id(),
{
}

/// After a union of `x` and `y` they have one representative; the number
/// of classes fell by one if they had been apart and is unchanged if not;
/// every other class is untouched.
pub proof fn lemma_union_joins(before: &SimpleDisjointSet, after: &SimpleDisjointSet, x: int, y: int, merged: bool)
    requires
        0 <= x < before.universe(),
        0 <= y < before.universe(),
        merged == (before.find_spec(x) != before.find_spec(y)),
        after.class_count() == before.class_count() - if merged { 1int } else { 0int },
        forall|i: int| 0 <= i < before.universe() ==> #[trigger] after.find_spec(i) == if before.find_spec(i)
            == before.find_spec(x) || before.find_spec(i) == before.find_spec(y) {
            after.find_spec(x)
        } else {
            before.find_spec(i)
        },
    ensures
        after.find_spec(x) == after.find_spec(y),
        merged ==> after.class_count() + 1 == before.class_count(),
        !merged ==> after.class_count() == before.class_count(),
        forall|i: int| 0 <= i < before.universe() && before.find_spec(i) != before.find_spec(x)
            && before.find_spec(i) != before.find_spec(y) ==> #[trigger] after.find_spec(i) == before.find_spec(i),
{
    assert(after.find_spec(y) == after.find_spec(x));
}

/// Pointing `id` at its grandparent keeps the classes.
proof fn lemma_halve(before: &SimpleDisjointSet, after: &SimpleDisjointSet, id: int)
    requires
        before.wf(),
        0 <= id < before.0@.len(),
        before.parent(id) != id,
        after.0@ == before.0@.update(id, Entry { parent: before.0@[before.parent(id)].parent, size: before.0@[id].size }),
        after.1 == before.1,
        after.2 == before.2,
        after.3 == before.3,
    ensures
        after.wf(),
        after.same_classes(before),
{
    reveal(SimpleDisjointSet::wf);
    let n = before.0@.len();
    let next = before.parent(id);
    let gp = before.parent(next);
    assert(before.3@[next] > before.3@[id]);
    if gp != next {
        assert(before.3@[gp] > before.3@[next]);
    }
    assert(gp != id);
    assert forall|i: int| 0 <= i < n && i != id implies #[trigger] after.parent(i) == before.parent(i) by {
    }
    assert(after.roots() =~= before.roots());
    assert forall|i: int| 0 <= i < n implies after.parent(#[trigger] after.2@[i]) == after.2@[i] by {
        assert(before.parent(before.2@[i]) == before.2@[i]);
    }
    assert forall|i: int| 0 <= i < n implies after.2@[after.parent(i)] == #[trigger] after.2@[i] by {
        assert(before.2@[before.parent(i)] == before.2@[i]);
    }
    assert forall|i: int| 0 <= i < n && #[trigger] after.parent(i) != i implies after.3@[after.parent(i)] > after.3@[i] by {
        if i != id {
            assert(before.parent(i) != i);
        }
    }
    assert forall|i: int| 0 <= i < n && #[trigger] after.parent(i) == i implies after.0@[i] == before.0@[i] by {
    }
    assert forall|i: int| 0 <= i < n && #[trigger] after.parent(i) == i implies after.2@[i] == i by {
        assert(before.parent(i) == i);
    }
    assert forall|i: int| 0 <= i < n && #[trigger] after.parent(i) == i implies after.0@[i].size == class_of(after.2@, i).len() by {
        assert(before.parent(i) == i);
    }
}

/// The two classes being merged fit together in `0..n`.
proof fn lemma_link_sizes(s: &SimpleDisjointSet, child: int, root: int)
    requires
        s.wf(),
        0 <= child < s.0@.len(),
        0 <= root < s.0@.len(),
        child != root,
        s.parent(child) == child,
        s.parent(root) == root,
    ensures
        s.0@[child].size + s.0@[root].size <= s.0@.len(),
        s.1 >= 1,
{
    reveal(SimpleDisjointSet::wf);
    let n = s.0@.len();
    s.lemma_class_finite(root);
    s.lemma_class_finite(child);
    s.lemma_roots_finite();
    let cr = class_of(s.2@, root);
    let cc = class_of(s.2@, child);
    assert(cr.disjoint(cc));
    vstd::set_lib::lemma_set_disjoint_lens(cr, cc);
    vstd::set_lib::lemma_int_range(0, n as int);
    assert((cr + cc).subset_of(vstd::set_lib::set_int_range(0, n as int)));
    vstd::set_lib::lemma_len_subset(cr + cc, vstd::set_lib::set_int_range(0, n as int));
    assert(s.roots().contains(child));
}

/// Hanging the root `child` below the root `root` merges their classes.
#[verifier::spinoff_prover]
#[verifier::rlimit(60)]
proof fn lemma_link(before: &SimpleDisjointSet, after: &SimpleDisjointSet, child: int, root: int)
    requires
        before.wf(),
        0 <= child < before.0@.len(),
        0 <= root < before.0@.len(),
        child != root,
        before.parent(child) == child,
        before.parent(root) == root,
        after.0@ == before.0@.update(child, Entry { parent: root as usize, size: before.0@[child].size }).update(
            root,
            Entry { parent: root as usize, size: (before.0@[root].size + before.0@[child].size) as usize },
        ),
        before.0@[root].size + before.0@[child].size <= usize::MAX,
        after.1 == before.1 - 1,
        after.2@ == Seq::new(before.0@.len(), |i: int| if before.2@[i] == child { root } else { before.2@[i] }),
        after.3@ == before.3@.update(root, if before.3@[root] > before.3@[child] { before.3@[root] } else {
            (before.3@[child] + 1) as nat
        }),
    ensures
        after.wf(),
        after.universe() == before.universe(),
        after.class_count() + 1 == before.class_count(),
        forall|i: int| 0 <= i < before.universe() ==> #[trigger] after.find_spec(i) == if before.find_spec(i) == child {
            root
        } else {
            before.find_spec(i)
        },
        after.class(root) == before.class(root).union(before.class(child)),
        forall|r: int| r != root && r != child ==> #[trigger] after.class(r) == before.class(r),
{
    reveal(SimpleDisjointSet::wf);
    let n = before.0@.len();
    before.lemma_roots_finite();
    assert forall|i: int| 0 <= i < n && i != child && i != root implies #[trigger] after.parent(i) == before.parent(i) by {
    }
    assert(after.roots() =~= before.roots().remove(child));
    assert(before.roots().contains(child));
    assert forall|r: int| r != root && r != child implies #[trigger] after.class(r) == before.class(r) by {
        assert(class_of(after.2@, r) =~= class_of(before.2@, r));
    }
    assert(class_of(after.2@, root) =~= class_of(before.2@, root).union(class_of(before.2@, child)));
    before.lemma_class_finite(root);
    before.lemma_class_finite(child);
    vstd::set_lib::lemma_set_disjoint_lens(class_of(before.2@, root), class_of(before.2@, child));
    assert(class_of(before.2@, root) + class_of(before.2@, child) == class_of(before.2@, root).union(class_of(before.2@, child)));
    assert forall|i: int| 0 <= i < n implies after.2@[after.parent(i)] == #[trigger] after.2@[i] by {
        assert(before.2@[before.parent(i)] == before.2@[i]);
        assert(before.2@[root] == root);
    }
    assert forall|i: int| 0 <= i < n implies after.parent(#[trigger] after.2@[i]) == after.2@[i] by {
        assert(before.parent(before.2@[i]) == before.2@[i]);
    }
    assert forall|i: int| 0 <= i < n && #[trigger] after.parent(i) == i implies after.2@[i] == i by {
        assert(before.parent(i) == i);
    }
    assert forall|i: int| 0 <= i < n && #[trigger] after.parent(i) != i implies after.3@[after.parent(i)] > after.3@[i] by {
        if i != child {
            assert(before.parent(i) != i);
        }
    }
    assert forall|i: int| 0 <= i < n implies #[trigger] after.3@[i] + after.roots().len() <= n by {
        assert(before.3@[i] + before.roots().len() <= n);
        assert(before.3@[child] + before.roots().len() <= n);
    }
    assert forall|i: int| 0 <= i < n && #[trigger] after.parent(i) == i implies after.0@[i].size == class_of(after.2@, i).len() by {
        if i != root {
            assert(before.parent(i) == i);
            assert(class_of(after.2@, i) =~= class_of(before.2@, i));
        }
    }
}

} // verus!
