//! A minimum priority queue.
//!
//! The queue is modelled as the sequence of its items in the order in which
//! they will leave: ascending by weight, and among items of equal weight the
//! one that entered first leaves first.  That makes every operation a function
//! of the queue's contents, so two runs over the same pushes agree item by
//! item.
use vstd::prelude::*;

verus! {

/// Something that a [`MinHeap`] can order: it has a weight.
pub trait Weighted {
    /// The weight the queue orders by.
    spec fn weight(&self) -> nat;

    /// The weight, computed.
    fn weight_value(&self) -> (w: u64)
        ensures
            w == self.weight(),
    ;
}

/// No item is lighter than one before it.
pub open spec fn ascending<T: Weighted>(q: Seq<T>) -> bool {
    forall|i: int, j: int| 0 <= i <= j < q.len() ==> q[i].weight() <= q[j].weight()
}

/// Where an item of weight `w` enters `q`: behind every item that is not
/// heavier, that is at the first position holding a heavier item.
pub open spec fn entry_position<T: Weighted>(q: Seq<T>, w: nat) -> nat
    decreases q.len(),
{
    if q.len() == 0 || q[0].weight() > w {
        0
    } else {
        1 + entry_position(q.drop_first(), w)
    }
}

/// The queue `q` after `item` has entered it.
pub open spec fn enqueue<T: Weighted>(q: Seq<T>, item: T) -> Seq<T> {
    q.insert(entry_position(q, item.weight()) as int, item)
}

/// The queue that holds the items of `items`, entered from first to last.
pub open spec fn enqueue_all<T: Weighted>(items: Seq<T>) -> Seq<T>
    decreases items.len(),
{
    if items.len() == 0 {
        Seq::empty()
    } else {
        enqueue(enqueue_all(items.drop_last()), items.last())
    }
}

/// An item enters a queue at a position within it.
pub proof fn lemma_entry_position_bound<T: Weighted>(q: Seq<T>, w: nat)
    ensures
        entry_position(q, w) <= q.len(),
    decreases q.len(),
{
    if q.len() > 0 {
        lemma_entry_position_bound(q.drop_first(), w);
    }
}

/// The entry position is `p` when everything before `p` is not heavier than
/// `w` and the item at `p`, if there is one, is heavier.
pub proof fn lemma_entry_position<T: Weighted>(q: Seq<T>, w: nat, p: int)
    requires
        0 <= p <= q.len(),
        forall|i: int| 0 <= i < p ==> q[i].weight() <= w,
        p < q.len() ==> q[p].weight() > w,
    ensures
        entry_position(q, w) == p,
    decreases q.len(),
{
    if p > 0 {
        let rest = q.drop_first();
        assert forall|i: int| 0 <= i < p - 1 implies rest[i].weight() <= w by {
            assert(rest[i] == q[i + 1]);
        }
        lemma_entry_position(rest, w, p - 1);
    }
}

/// The entry position lies within the queue, splits it by weight, and keeps
/// an ascending queue ascending.
pub proof fn lemma_enqueue_ascending<T: Weighted>(q: Seq<T>, item: T)
    requires
        ascending(q),
    ensures
        entry_position(q, item.weight()) <= q.len(),
        forall|i: int|
            0 <= i < entry_position(q, item.weight()) ==> (#[trigger] q[i]).weight()
                <= item.weight(),
        forall|i: int|
            entry_position(q, item.weight()) <= i < q.len() ==> (#[trigger] q[i]).weight()
                > item.weight(),
        ascending(enqueue(q, item)),
        enqueue(q, item).len() == q.len() + 1,
    decreases q.len(),
{
    let w = item.weight();
    if q.len() == 0 || q[0].weight() > w {
    } else {
        let rest = q.drop_first();
        assert forall|i: int, j: int| 0 <= i <= j < rest.len() implies rest[i].weight()
            <= rest[j].weight() by {
            assert(rest[i] == q[i + 1] && rest[j] == q[j + 1]);
        }
        lemma_enqueue_ascending(rest, item);
        let p = entry_position(q, w) as int;
        assert forall|i: int| 0 <= i < p implies (#[trigger] q[i]).weight() <= w by {
            if i > 0 {
                assert(q[i] == rest[i - 1]);
            }
        }
        assert forall|i: int| p <= i < q.len() implies (#[trigger] q[i]).weight() > w by {
            assert(q[i] == rest[i - 1]);
        }
    }
    let p = entry_position(q, w) as int;
    let r = enqueue(q, item);
    assert forall|i: int, j: int| 0 <= i <= j < r.len() implies r[i].weight()
        <= r[j].weight() by {
        if i < p {
            assert(r[i] == q[i]);
        } else if i > p {
            assert(r[i] == q[i - 1]);
        }
        if j < p {
            assert(r[j] == q[j]);
        } else if j > p {
            assert(r[j] == q[j - 1]);
        }
    }
}

/// Entering items one by one gives an ascending queue of as many items.
pub proof fn lemma_enqueue_all_ascending<T: Weighted>(items: Seq<T>)
    ensures
        ascending(enqueue_all(items)),
        enqueue_all(items).len() == items.len(),
    decreases items.len(),
{
    if items.len() > 0 {
        lemma_enqueue_all_ascending(items.drop_last());
        lemma_enqueue_ascending(enqueue_all(items.drop_last()), items.last());
    }
}

/// A minimum priority queue over weighted items.
pub struct MinHeap<T: Weighted> {
    items: Vec<T>,
}

impl<T: Weighted> View for MinHeap<T> {
    type V = Seq<T>;

    /// The items in the order in which they will leave the queue.
    closed spec fn view(&self) -> Seq<T> {
        self.items@
    }
}

impl<T: Weighted> MinHeap<T> {
    /// The queue's invariant: its items stand ascending by weight.
    pub open spec fn wf(&self) -> bool {
        ascending(self@)
    }

    /// An empty queue.
    pub fn new() -> (heap: Self)
        ensures
            heap.wf(),
            heap@ == Seq::<T>::empty(),
    {
        MinHeap { items: Vec::new() }
    }

    /// Enters `value` behind every item that is not heavier.
    pub fn push(&mut self, value: T)
        requires
            old(self).wf(),
        ensures
            final(self).wf(),
            final(self)@ == enqueue(old(self)@, value),
    {
        let w = value.weight_value();
        let mut p: usize = 0;
        while p < self.items.len() && self.items[p].weight_value() <= w
            invariant
                p <= self.items@.len(),
                self.items@ == old(self).items@,
                forall|i: int| 0 <= i < p ==> self.items@[i].weight() <= w,
            decreases self.items@.len() - p,
        {
            p += 1;
        }
        proof {
            lemma_entry_position(self.items@, w as nat, p as int);
            lemma_enqueue_ascending(self.items@, value);
        }
        self.items.insert(p, value);
    }

    /// Takes out the lightest item, the earliest of them where several weigh
    /// the same; `None` when the queue is empty.
    pub fn pop(&mut self) -> (lightest: Option<T>)
        requires
            old(self).wf(),
        ensures
            final(self).wf(),
            old(self)@.len() == 0 ==> lightest.is_none() && final(self)@ == old(self)@,
            old(self)@.len() > 0 ==> lightest == Some(old(self)@[0]) && final(self)@ == old(
                self,
            )@.drop_first(),
            forall|i: int|
                0 <= i < final(self)@.len() ==> lightest.unwrap().weight() <= (
                #[trigger] final(self)@[i]).weight(),
    {
        if self.items.len() == 0 {
            None
        } else {
            let ghost before = self.items@;
            let first = self.items.remove(0);
            proof {
                assert(self.items@ == before.drop_first());
                assert forall|i: int, j: int| 0 <= i <= j < self.items@.len() implies self.items@[i].weight()
                    <= self.items@[j].weight() by {
                    assert(self.items@[i] == before[i + 1] && self.items@[j] == before[j + 1]);
                }
                assert forall|i: int| 0 <= i < self.items@.len() implies first.weight() <= (
                #[trigger] self.items@[i]).weight() by {
                    assert(self.items@[i] == before[i + 1]);
                }
            }
            Some(first)
        }
    }

    /// The lightest item, which `pop` would take out.
    pub fn peek(&self) -> (lightest: Option<&T>)
        requires
            self.wf(),
        ensures
            self@.len() == 0 ==> lightest.is_none(),
            self@.len() > 0 ==> lightest == Some(&self@[0]),
            forall|i: int|
                0 <= i < self@.len() ==> lightest.unwrap().weight() <= (#[trigger] self@[i]).weight(),
    {
        if self.items.len() == 0 {
            None
        } else {
            Some(&self.items[0])
        }
    }

    /// Whether the queue holds no item.
    pub fn is_empty(&self) -> (empty: bool)
        ensures
            empty == (self@.len() == 0),
    {
        self.items.len() == 0
    }

    /// The number of items held.
    pub fn len(&self) -> (n: usize)
        ensures
            n == self@.len(),
    {
        self.items.len()
    }

    /// The queue that the items of `vec` form when entered from first to last.
    pub fn from_vec(vec: Vec<T>) -> (heap: Self)
        ensures
            heap.wf(),
            heap@ == enqueue_all(vec@),
    {
        let mut heap = MinHeap::new();
        let mut rest = vec;
        let ghost all = rest@;
        while rest.len() > 0
            invariant
                rest@.len() <= all.len(),
                rest@ == all.skip(all.len() - rest@.len()),
                heap.wf(),
                heap@ == enqueue_all(all.take(all.len() - rest@.len())),
            decreases rest@.len(),
        {
            let ghost k = all.len() - rest@.len();
            let item = rest.remove(0);
            heap.push(item);
            proof {
                assert(item == all[k]);
                assert(all.take(k + 1).drop_last() == all.take(k));
                assert(rest@ == all.skip(k + 1));
            }
        }
        proof {
            assert(all.take(all.len() as int) == all);
        }
        heap
    }
}

} // verus!
