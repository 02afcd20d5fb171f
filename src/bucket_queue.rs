//! A monotone priority queue for small integer priorities, kept as a deque
//! of bags, one per priority from the current front upwards.

use std::collections::VecDeque;
use vstd::multiset::Multiset;
use vstd::prelude::*;

verus! {

broadcast use vstd::seq_lib::group_to_multiset_ensures, vstd::std_specs::vecdeque::group_vec_dequeue_axioms,
    vstd::multiset::group_multiset_axioms, vstd::multiset::group_multiset_properties;

/// A collection that holds items in no order that its users rely on.
pub trait Bag: Sized {
    type Item;

    /// The items held, with multiplicity.
    spec fn contents(&self) -> Multiset<Self::Item>;

    /// A bag that holds nothing.
    fn empty() -> (r: Self)
        ensures
            r.contents() =~= Multiset::empty(),
    ;

    /// Whether the bag holds nothing.
    fn is_empty(&self) -> (r: bool)
        ensures
            r == (self.contents().len() == 0),
    ;

    /// Removes every item.
    fn clear(&mut self)
        ensures
            final(self).contents() =~= Multiset::empty(),
    ;

    /// Adds `x`.
    fn push(&mut self, x: Self::Item)
        ensures
            final(self).contents() =~= old(self).contents().insert(x),
    ;

    /// Removes and returns some item, or `None` when the bag is empty.
    fn pop(&mut self) -> (r: Option<Self::Item>)
        ensures
            r is None ==> old(self).contents().len() == 0 && final(self).contents()
                =~= old(self).contents(),
            r matches Some(x) ==> old(self).contents().count(x) > 0 && final(self).contents()
                =~= old(self).contents().remove(x),
    ;
}

/// A stack: the last item pushed is the first to come out.
impl<T> Bag for Vec<T> {
    type Item = T;

    open spec fn contents(&self) -> Multiset<T> {
        self@.to_multiset()
    }

    fn empty() -> (r: Self) {
        Vec::new()
    }

    fn is_empty(&self) -> (r: bool) {
        self.len() == 0
    }

    fn clear(&mut self) {
        self.clear();
    }

    fn push(&mut self, x: T) {
        self.push(x);
        assert(old(self)@.push(x) == final(self)@);
    }

    fn pop(&mut self) -> (r: Option<T>) {
        let r = self.pop();
        proof {
            if r is Some {
                assert(old(self)@ == final(self)@.push(r.unwrap()));
                assert(old(self)@.to_multiset().count(r.unwrap()) > 0);
            }
        }
        r
    }
}

/// A queue: the first item pushed is the first to come out.
impl<T> Bag for VecDeque<T> {
    type Item = T;

    open spec fn contents(&self) -> Multiset<T> {
        self@.to_multiset()
    }

    fn empty() -> (r: Self) {
        VecDeque::new()
    }

    fn is_empty(&self) -> (r: bool) {
        self.len() == 0
    }

    fn clear(&mut self) {
        self.clear();
    }

    fn push(&mut self, x: T) {
        self.push_back(x);
        assert(old(self)@.push(x) == final(self)@);
    }

    fn pop(&mut self) -> (r: Option<T>) {
        let r = self.pop_front();
        proof {
            if r is Some {
                assert(old(self)@ == seq![r.unwrap()] + final(self)@);
                vstd::seq_lib::lemma_multiset_commutative(seq![r.unwrap()], final(self)@);
                assert(seq![r.unwrap()].to_multiset() =~= Multiset::singleton(r.unwrap())) by {
                    assert(seq![r.unwrap()] == Seq::<T>::empty().push(r.unwrap()));
                }
            }
        }
        r
    }
}

/// A priority queue whose priorities never fall below `front`: bag `k` of
/// `data` holds the items of priority `front + k`.
pub struct CustomBucketQueue<B: Bag> {
    data: VecDeque<B>,
    front: usize,
    entries: Ghost<Multiset<(int, B::Item)>>,
}

/// A bucket queue whose buckets are stacks.
pub type BucketQueue<T> = CustomBucketQueue<Vec<T>>;

impl<B: Bag> CustomBucketQueue<B> {
    /// The lowest priority that may still be pushed.
    pub closed spec fn floor(&self) -> int {
        self.front as int
    }

    /// The items held at priority `p`.
    pub closed spec fn bucket(&self, p: int) -> Multiset<B::Item> {
        if self.front <= p < self.front + self.data@.len() {
            self.data@[p - self.front].contents()
        } else {
            Multiset::empty()
        }
    }

    /// The pairs `(priority, item)` held, with multiplicity.
    pub closed spec fn items(&self) -> Multiset<(int, B::Item)> {
        self.entries@
    }

    /// The queue holds no item.
    pub closed spec fn is_drained(&self) -> bool {
        forall|p: int| #[trigger] self.bucket(p).len() == 0
    }

    /// Every priority held fits in a `usize` and lies at or above the floor.
    pub closed spec fn wf(&self) -> bool {
        &&& 0 <= self.floor()
        &&& forall|p: int| #[trigger] self.bucket(p).len() > 0 ==> self.floor() <= p <= usize::MAX
        &&& forall|px: (int, B::Item)| #[trigger] self.entries@.count(px) == self.bucket(px.0).count(px.1)
    }

    proof fn lemma_drained(&self)
        requires
            self.wf(),
        ensures
            self.is_drained() <==> self.items().len() == 0,
    {
        if self.items().len() > 0 {
            let px = self.items().choose();
            assert(self.items().count(px) > 0);
            assert(self.entries@.count(px) == self.bucket(px.0).count(px.1));
            assert(self.bucket(px.0).count(px.1) > 0);
            assert(self.bucket(px.0).count(px.1) <= self.bucket(px.0).len());
        }
        if !self.is_drained() {
            let p = choose|p: int| #[trigger] self.bucket(p).len() > 0;
            let x = self.bucket(p).choose();
            assert(self.bucket(p).count(x) > 0);
            assert(self.entries@.count((p, x)) == self.bucket((p, x).0).count((p, x).1));
            assert(self.items().count((p, x)) > 0);
            assert(self.items().count((p, x)) <= self.items().len());
        }
    }

    /// An empty queue with floor 0.
    pub fn new() -> (q: Self)
        ensures
            q.wf(),
            q.floor() == 0,
            q.items() =~= Multiset::empty(),
    {
        CustomBucketQueue { data: VecDeque::new(), front: 0, entries: Ghost(Multiset::empty()) }
    }

    /// Empties every bucket and resets the floor to 0; the buckets are kept
    /// for reuse.
    pub fn clear(&mut self)
        ensures
            final(self).wf(),
            final(self).floor() == 0,
            final(self).items() =~= Multiset::empty(),
    {
        let n = self.data.len();
        let mut k: usize = 0;
        while k < n
            invariant
                n == self.data@.len(),
                k <= n,
                forall|i: int| n - k <= i < n ==> (#[trigger] self.data@[i]).contents().len() == 0,
            decreases n - k,
        {
            let ghost before = self.data@;
            let mut b = self.data.pop_front().unwrap();
            b.clear();
            self.data.push_back(b);
            assert forall|i: int| n - (k + 1) <= i < n implies (#[trigger] self.data@[i]).contents().len() == 0 by {
                if i < n - 1 {
                    assert(self.data@[i] == before[i + 1]);
                }
            }
            k = k + 1;
        }
        self.front = 0;
        self.entries = Ghost(Multiset::empty());
        assert forall|p: int| #[trigger] self.bucket(p).len() == 0 by {
            if 0 <= p < n {
                assert(self.data@[p].contents().len() == 0);
            }
        }
    }

    /// Inserts `extra` at priority `priority`, which may not lie below the
    /// floor.
    pub fn push(&mut self, priority: usize, extra: B::Item)
        requires
            old(self).wf(),
            priority >= old(self).floor(),
        ensures
            final(self).wf(),
            final(self).floor() == old(self).floor(),
            final(self).items() =~= old(self).items().insert((priority as int, extra)),
    {
        let delta = priority - self.front;
        let mut len = self.data.len();
        while len <= delta
            invariant
                len == self.data@.len(),
                self.front == old(self).front,
                self.entries == old(self).entries,
                delta == priority - self.front,
                forall|p: int| #[trigger] self.bucket(p) == old(self).bucket(p),
            decreases delta + 1 - len,
        {
            let ghost before = *self;
            self.data.push_back(B::empty());
            assert forall|p: int| #[trigger] self.bucket(p) == before.bucket(p) by {
                if self.front <= p < self.front + before.data@.len() {
                    assert(self.data@[p - self.front] == before.data@[p - self.front]);
                }
            }
            len = self.data.len();
        }
        let ghost before = *self;
        let mut b = self.data.remove(delta).unwrap();
        let ghost b0 = b;
        b.push(extra);
        self.data.insert(delta, b);
        assert forall|p: int| p != priority implies #[trigger] self.bucket(p) == before.bucket(p) by {
            if self.front <= p < self.front + before.data@.len() {
                assert(self.data@[p - self.front] == before.data@[p - self.front]);
            }
        }
        assert(self.data@[delta as int] == b);
        assert(self.bucket(priority as int) == b.contents());
        assert(before.bucket(priority as int) == b0.contents());
        self.entries = Ghost(self.entries@.insert((priority as int, extra)));
        assert forall|p: int| p != priority implies #[trigger] self.bucket(p) == old(self).bucket(p) by {
            assert(self.bucket(p) == before.bucket(p));
            assert(before.bucket(p) == old(self).bucket(p));
        }
        assert forall|px: (int, B::Item)| #[trigger] self.entries@.count(px) == self.bucket(px.0).count(px.1) by {
            assert(old(self).entries@.count(px) == old(self).bucket(px.0).count(px.1));
            if px.0 != priority {
                assert(self.bucket(px.0) == old(self).bucket(px.0));
            } else {
                assert(self.bucket(priority as int) =~= old(self).bucket(priority as int).insert(extra));
                if px.1 == extra {
                    assert(px == (priority as int, extra));
                    assert(self.entries@.count(px) == old(self).entries@.count(px) + 1);
                    assert(self.bucket(px.0).count(px.1) == old(self).bucket(px.0).count(px.1) + 1);
                } else {
                    assert(px != (priority as int, extra));
                }
            }
        }
        assert forall|p: int| #[trigger] self.bucket(p).len() > 0 implies self.floor() <= p <= usize::MAX by {
            if p != priority {
                assert(old(self).bucket(p).len() > 0);
            }
        }
    }

    /// Removes and returns an item of the lowest priority held, with that
    /// priority, which becomes the floor; returns `None` when the queue is
    /// empty.
    pub fn pop(&mut self) -> (r: Option<(usize, B::Item)>)
        requires
            old(self).wf(),
        ensures
            final(self).wf(),
            r is None ==> old(self).items().len() == 0 && final(self).floor() == old(self).floor()
                && final(self).items() == old(self).items(),
            r matches Some(px) ==> {
                let (p, x) = px;
                &&& old(self).floor() <= p
                &&& old(self).items().count((p as int, x)) > 0
                &&& forall|qy: (int, B::Item)| #[trigger] old(self).items().count(qy) > 0 ==> p <= qy.0
                &&& final(self).floor() == p
                &&& final(self).items() =~= old(self).items().remove((p as int, x))
            },
    {
        let n = self.data.len();
        let mut k: usize = 0;
        while k < n && self.data[k].is_empty()
            invariant
                n == self.data@.len(),
                k <= n,
                forall|i: int| 0 <= i < k ==> (#[trigger] self.data@[i]).contents().len() == 0,
            decreases n - k,
        {
            k = k + 1;
        }
        if k == n {
            assert forall|p: int| #[trigger] self.bucket(p).len() == 0 by {
                if self.front <= p < self.front + n {
                    assert(self.data@[p - self.front].contents().len() == 0);
                }
            }
            proof {
                self.lemma_drained();
            }
            return None;
        }
        proof {
            assert(self.bucket(self.front + k).len() > 0);
        }
        for t in 0..k
            invariant
                n == self.data@.len(),
                k < n,
                self.front == old(self).front + t,
                self.entries == old(self).entries,
                forall|p: int| #[trigger] self.bucket(p) == old(self).bucket(p),
                forall|i: int| 0 <= i < k - t ==> (#[trigger] self.data@[i]).contents().len() == 0,
                old(self).wf(),
                old(self).bucket(old(self).front + k).len() > 0,
        {
            let ghost before = *self;
            let b = self.data.pop_front().unwrap();
            self.data.push_back(b);
            self.front = self.front + 1;
            assert forall|p: int| #[trigger] self.bucket(p) == before.bucket(p) by {
                if self.front <= p < self.front + n - 1 {
                    assert(self.data@[p - self.front] == before.data@[p - before.front]);
                } else if p == self.front + n - 1 {
                    assert(self.data@[n - 1] == before.data@[0]);
                }
            }
            assert forall|i: int| 0 <= i < k - (t + 1) implies (#[trigger] self.data@[i]).contents().len() == 0 by {
                assert(self.data@[i] == before.data@[i + 1]);
            }
        }
        assert(self.front == old(self).front + k);
        assert(self.bucket(self.front as int).len() > 0);
        assert(self.data@[0].contents().len() > 0);
        let ghost before = *self;
        let mut b = self.data.pop_front().unwrap();
        let ghost b0 = b;
        let x = b.pop().unwrap();
        self.data.push_front(b);
        proof {
            assert forall|q: int| q != self.front implies #[trigger] self.bucket(q) == before.bucket(q) by {
                if self.front <= q < self.front + n {
                    assert(self.data@[q - self.front] == before.data@[q - self.front]);
                }
            }
            assert(self.data@[0] == b);
            assert forall|q: int| q < self.front implies #[trigger] old(self).bucket(q).len() == 0 by {
                if old(self).front <= q {
                    assert(old(self).data@[q - old(self).front].contents().len() == 0);
                }
            }
            assert forall|qy: (int, B::Item)| #[trigger] old(self).items().count(qy) > 0 implies self.front <= qy.0 by {
                assert(old(self).bucket(qy.0).count(qy.1) > 0);
            }
        }
        self.entries = Ghost(self.entries@.remove((self.front as int, x)));
        proof {
            let f = self.front as int;
            assert(before.bucket(f) == b0.contents());
            assert(self.bucket(f) == b.contents());
            assert(self.bucket(f) =~= old(self).bucket(f).remove(x));
            assert forall|q: int| q != f implies #[trigger] self.bucket(q) == old(self).bucket(q) by {
                assert(self.bucket(q) == before.bucket(q));
            }
            assert forall|px: (int, B::Item)| #[trigger] self.entries@.count(px) == self.bucket(px.0).count(px.1) by {
                assert(old(self).entries@.count(px) == old(self).bucket(px.0).count(px.1));
                if px.0 != f {
                    assert(self.bucket(px.0) == old(self).bucket(px.0));
                } else if px.1 == x {
                    assert(px == (f, x));
                } else {
                    assert(px != (f, x));
                }
            }
            assert forall|p: int| #[trigger] self.bucket(p).len() > 0 implies self.floor() <= p <= usize::MAX by {
                if p != f {
                    assert(self.bucket(p) == old(self).bucket(p));
                    assert(old(self).bucket(p).len() > 0);
                }
            }
            assert(old(self).items().count((f, x)) == old(self).bucket(f).count(x));
            assert(self.front >= old(self).front);
        }
        Some((self.front, x))
    }
}

impl<B: Bag> CustomBucketQueue<B> {
    /// Pushes every `(priority, item)` of `items`.
    pub fn extend(&mut self, items: Vec<(usize, B::Item)>)
        requires
            old(self).wf(),
            forall|k: int| 0 <= k < items@.len() ==> old(self).floor() <= #[trigger] items@[k].0,
        ensures
            final(self).wf(),
            final(self).floor() == old(self).floor(),
            final(self).items() =~= old(self).items().add(as_entries(items@).to_multiset()),
    {
        let ghost target = old(self).items().add(as_entries(items@).to_multiset());
        let mut items = items;
        while items.len() > 0
            invariant
                self.wf(),
                self.floor() == old(self).floor(),
                forall|k: int| 0 <= k < items@.len() ==> self.floor() <= #[trigger] items@[k].0,
                self.items().add(as_entries(items@).to_multiset()) =~= target,
            decreases items@.len(),
        {
            let ghost before = items@;
            let (p, x) = items.pop().unwrap();
            self.push(p, x);
            proof {
                assert(before == items@.push((p, x)));
                assert(as_entries(before) =~= as_entries(items@).push((p as int, x)));
            }
        }
        assert(as_entries(items@).to_multiset() =~= Multiset::empty());
    }
}

/// The pairs of `items`, with their priorities as integers.
pub open spec fn as_entries<T>(items: Seq<(usize, T)>) -> Seq<(int, T)> {
    items.map_values(|px: (usize, T)| (px.0 as int, px.1))
}

impl<B: Bag> Default for CustomBucketQueue<B> {
    fn default() -> (q: Self)
        ensures
            q.wf(),
            q.floor() == 0,
            q.items() =~= Multiset::empty(),
    {
        Self::new()
    }
}

/// One operation on a queue: a push of `(p, x)` when `push` holds, else a
/// pop that returned `(p, x)`.
pub struct QueueOp<T> {
    pub push: bool,
    pub p: int,
    pub x: T,
}

/// `after` is `before` after `op`, as `push` and `pop` state it: a push
/// keeps the floor and may not go below it; a pop returns an item of the
/// least priority held and raises the floor to that priority.
pub open spec fn queue_step<B: Bag>(
    before: CustomBucketQueue<B>,
    after: CustomBucketQueue<B>,
    op: QueueOp<B::Item>,
) -> bool {
    if op.push {
        &&& after.items() == before.items().insert((op.p, op.x))
        &&& before.floor() <= op.p
        &&& after.floor() == before.floor()
    } else {
        &&& before.items().count((op.p, op.x)) > 0
        &&& forall|qy: (int, B::Item)| #[trigger] before.items().count(qy) > 0 ==> op.p <= qy.0
        &&& after.items() == before.items().remove((op.p, op.x))
        &&& after.floor() == op.p
        &&& before.floor() <= op.p
    }
}

/// `qs` is a run of the queue through the operations `ops`.
pub open spec fn is_run<B: Bag>(qs: Seq<CustomBucketQueue<B>>, ops: Seq<QueueOp<B::Item>>) -> bool {
    &&& qs.len() == ops.len() + 1
    &&& forall|k: int| 0 <= k < ops.len() ==> queue_step(#[trigger] qs[k], qs[k + 1], ops[k])
}

/// The entries that the operations `ops` push (when `push` holds) or pop.
pub open spec fn moved<T>(ops: Seq<QueueOp<T>>, push: bool) -> Multiset<(int, T)>
    decreases ops.len(),
{
    if ops.len() == 0 {
        Multiset::empty()
    } else if ops.last().push == push {
        moved(ops.drop_last(), push).insert((ops.last().p, ops.last().x))
    } else {
        moved(ops.drop_last(), push)
    }
}

/// Over any run of pushes and pops, the floor never falls, so the
/// priorities that pops return never decrease.
pub proof fn lemma_floor_never_falls<B: Bag>(qs: Seq<CustomBucketQueue<B>>, ops: Seq<QueueOp<B::Item>>, i: int, j: int)
    requires
        is_run(qs, ops),
        0 <= i <= j < qs.len(),
    ensures
        qs[i].floor() <= qs[j].floor(),
    decreases j - i,
{
    if i < j {
        lemma_floor_never_falls(qs, ops, i, j - 1);
        assert(queue_step(qs[j - 1], qs[j], ops[j - 1]));
    }
}

/// Over any run of pushes and pops, what was held at the start and pushed
/// since is exactly what is held at the end and popped since: no item is
/// lost or made up. In particular a run from an empty queue to an empty one
/// pops the multiset it pushed.
pub proof fn lemma_items_conserved<B: Bag>(qs: Seq<CustomBucketQueue<B>>, ops: Seq<QueueOp<B::Item>>)
    requires
        is_run(qs, ops),
    ensures
        qs.last().items().add(moved(ops, false)) =~= qs[0].items().add(moved(ops, true)),
    decreases ops.len(),
{
    if ops.len() > 0 {
        let qs0 = qs.drop_last();
        let ops0 = ops.drop_last();
        assert forall|k: int| 0 <= k < ops0.len() implies queue_step(#[trigger] qs0[k], qs0[k + 1], ops0[k]) by {
            assert(queue_step(qs[k], qs[k + 1], ops[k]));
        }
        lemma_items_conserved(qs0, ops0);
        let k = ops.len() - 1;
        assert(queue_step(qs[k], qs[k + 1], ops[k]));
        assert(qs0.last() == qs[k]);
        let e = (ops[k].p, ops[k].x);
        let a = qs[k].items();
        let pushed0 = moved(ops0, true);
        let popped0 = moved(ops0, false);
        assert(a.add(popped0) =~= qs[0].items().add(pushed0));
        if ops[k].push {
            assert(moved(ops, true) == pushed0.insert(e));
            assert(moved(ops, false) == popped0);
            assert(qs.last().items() == a.insert(e));
            assert forall|v: (int, B::Item)| #[trigger] qs.last().items().add(moved(ops, false)).count(v)
                == qs[0].items().add(moved(ops, true)).count(v) by {
                assert(a.add(popped0).count(v) == qs[0].items().add(pushed0).count(v));
            }
        } else {
            assert(moved(ops, true) == pushed0);
            assert(moved(ops, false) == popped0.insert(e));
            assert(qs.last().items() == a.remove(e));
            assert forall|v: (int, B::Item)| #[trigger] qs.last().items().add(moved(ops, false)).count(v)
                == qs[0].items().add(moved(ops, true)).count(v) by {
                assert(a.add(popped0).count(v) == qs[0].items().add(pushed0).count(v));
            }
        }
    }
}

} // verus!
