//! A fixed-capacity circular queue with overwrite-oldest overflow.
//!
//! The queue is generic over its element type: the pipeline stores raw
//! audio samples in one instance and finished spectra in another. Pushing
//! into a full queue silently discards the oldest elements, so a slow
//! consumer costs data, never memory or blocking.

use vstd::prelude::*;

verus! {

/// One overwrite-oldest push on abstract contents `v` with capacity `cap`:
/// append `x`, discarding the oldest element first when `v` is full.
pub open spec fn push_one<T>(v: Seq<T>, x: T, cap: nat) -> Seq<T> {
    if v.len() < cap {
        v.push(x)
    } else {
        v.drop_first().push(x)
    }
}

/// Repeated overwrite-oldest pushes of `items`, oldest first.
pub open spec fn push_all<T>(v: Seq<T>, items: Seq<T>, cap: nat) -> Seq<T>
    decreases items.len(),
{
    if items.len() == 0 {
        v
    } else {
        push_all(push_one(v, items[0], cap), items.drop_first(), cap)
    }
}

/// One pop of the oldest element of abstract contents `v`.
pub open spec fn pop_one<T>(v: Seq<T>) -> (Option<T>, Seq<T>) {
    if v.len() == 0 {
        (None, v)
    } else {
        (Some(v[0]), v.drop_first())
    }
}

/// Up to `n` repeated pops: the elements taken, oldest first, and what
/// remains.
pub open spec fn pop_all<T>(v: Seq<T>, n: nat) -> (Seq<T>, Seq<T>)
    decreases n,
{
    if n == 0 || v.len() == 0 {
        (Seq::empty(), v)
    } else {
        let rest = pop_all(v.drop_first(), (n - 1) as nat);
        (seq![v[0]] + rest.0, rest.1)
    }
}

/// Repeated overwrite-oldest pushes keep exactly the last `cap` of the
/// combined stream: the result is `v + items` with just enough of its
/// oldest elements discarded to fit. In particular a batched push that
/// meets this shape behaves identically to repeated single pushes.
pub proof fn lemma_push_all_keeps_last<T>(v: Seq<T>, items: Seq<T>, cap: nat)
    requires
        cap >= 1,
        v.len() <= cap,
    ensures
        v.len() + items.len() <= cap ==> push_all(v, items, cap) == (v + items),
        v.len() + items.len() > cap ==> push_all(v, items, cap) == (v + items).subrange(
            v.len() + items.len() - cap,
            (v.len() + items.len()) as int,
        ),
    decreases items.len(),
{
    if items.len() == 0 {
        assert(push_all(v, items, cap) =~= v + items);
    } else {
        let x = items[0];
        let v1 = push_one(v, x, cap);
        lemma_push_all_keeps_last(v1, items.drop_first(), cap);
        if v.len() < cap {
            assert(v1 + items.drop_first() =~= v + items);
        } else {
            assert(v1 + items.drop_first() =~= (v + items).subrange(1, (v.len() + items.len()) as int));
            let total = v.len() + items.len();
            if v1.len() + items.len() - 1 > cap {
                assert((v + items).subrange(1, total as int).subrange(
                    total - 1 - cap,
                    (total - 1) as int,
                ) =~= (v + items).subrange(total - cap, total as int));
            } else {
                assert((v + items).subrange(1, total as int) =~= (v + items).subrange(
                    total - cap,
                    total as int,
                ));
            }
        }
    }
}

/// FIFO order: pushes that fit within the capacity append in order and
/// discard nothing.
pub proof fn lemma_push_all_no_overflow<T>(v: Seq<T>, items: Seq<T>, cap: nat)
    requires
        cap >= 1,
        v.len() + items.len() <= cap,
    ensures
        push_all(v, items, cap) == v + items,
{
    lemma_push_all_keeps_last(v, items, cap);
}

/// Overflow: pushing `cap + k` elements one by one into an empty queue
/// leaves exactly the last `cap` of them, in order.
pub proof fn lemma_push_all_overflow<T>(items: Seq<T>, cap: nat)
    requires
        cap >= 1,
        items.len() >= cap,
    ensures
        push_all(Seq::empty(), items, cap) == items.subrange(
            items.len() - cap,
            items.len() as int,
        ),
{
    lemma_push_all_keeps_last(Seq::empty(), items, cap);
    if items.len() == cap {
        assert(Seq::empty() + items =~= items);
        assert(push_all(Seq::<T>::empty(), items, cap) =~= items.subrange(
            items.len() - cap,
            items.len() as int,
        ));
    } else {
        assert((Seq::empty() + items).subrange(items.len() - cap, items.len() as int) =~= items
            .subrange(items.len() - cap, items.len() as int));
    }
}

/// Extending a push sequence by one more element is one more single push.
pub proof fn lemma_push_all_snoc<T>(v: Seq<T>, items: Seq<T>, x: T, cap: nat)
    ensures
        push_all(v, items.push(x), cap) == push_one(push_all(v, items, cap), x, cap),
    decreases items.len(),
{
    if items.len() == 0 {
        assert(items.push(x).drop_first() =~= Seq::<T>::empty());
        assert(push_all(v, items.push(x), cap) == push_all(push_one(v, x, cap), Seq::empty(), cap));
    } else {
        assert(items.push(x).drop_first() =~= items.drop_first().push(x));
        lemma_push_all_snoc(push_one(v, items[0], cap), items.drop_first(), x, cap);
    }
}

/// Batch/single equivalence for taking: `n` repeated pops take the first
/// `min(n, len)` elements in order and leave the rest.
pub proof fn lemma_pop_all_prefix<T>(v: Seq<T>, n: nat)
    ensures
        pop_all(v, n).0 == v.subrange(0, if n <= v.len() { n as int } else { v.len() as int }),
        pop_all(v, n).1 == v.subrange(
            if n <= v.len() { n as int } else { v.len() as int },
            v.len() as int,
        ),
    decreases n,
{
    let k: int = if n <= v.len() { n as int } else { v.len() as int };
    if n == 0 || v.len() == 0 {
        assert(pop_all(v, n).0 =~= v.subrange(0, k));
        assert(pop_all(v, n).1 =~= v.subrange(k, v.len() as int));
    } else {
        lemma_pop_all_prefix(v.drop_first(), (n - 1) as nat);
        assert(seq![v[0]] + v.drop_first().subrange(0, k - 1) =~= v.subrange(0, k));
        assert(v.drop_first().subrange(k - 1, v.len() - 1) =~= v.subrange(k, v.len() as int));
    }
}

/// A bounded FIFO queue. When an element is pushed while the queue is
/// full, the oldest element is discarded to make room.
///
/// Storage is a fixed vector of `Option` slots; `tail` is the index of
/// the oldest element and `count` the number of elements held, so the
/// live elements occupy `count` slots starting at `tail`, wrapping at
/// the end of the vector.
pub struct Ring<T> {
    data: Vec<Option<T>>,
    tail: usize,
    count: usize,
}

impl<T> Ring<T> {
    /// Index of the `i`-th oldest element within `data`.
    pub closed spec fn slot(self, i: int) -> int {
        if self.tail + i < self.data.len() {
            self.tail + i
        } else {
            self.tail + i - self.data.len()
        }
    }

    /// Structural invariant: the capacity is positive, `tail` is a valid
    /// index, at most `capacity` elements are held, and every live slot
    /// is occupied.
    pub closed spec fn wf(self) -> bool {
        &&& self.data.len() >= 1
        &&& self.tail < self.data.len()
        &&& self.count <= self.data.len()
        &&& forall|i: int| 0 <= i < self.count ==> (#[trigger] self.data@[self.slot(i)]) is Some
    }

    /// The fixed number of elements the queue can hold.
    pub closed spec fn capacity(self) -> nat {
        self.data.len() as nat
    }

    /// Create a new, empty queue holding up to `size` elements.
    pub fn new(size: usize) -> (r: Self)
        requires
            size >= 1,
        ensures
            r.wf(),
            r.capacity() == size,
            r@ =~= Seq::<T>::empty(),
    {
        let mut data: Vec<Option<T>> = Vec::new();
        let mut i: usize = 0;
        while i < size
            invariant
                i <= size,
                data@.len() == i,
            decreases size - i,
        {
            data.push(None);
            i += 1;
        }
        Ring { data, tail: 0, count: 0 }
    }

    /// Return the number of elements currently held.
    pub fn len(&self) -> (r: usize)
        requires
            self.wf(),
        ensures
            r == self@.len(),
    {
        self.count
    }

    /// Read the `i`-th oldest element without removing it, so a reader
    /// can walk the current contents oldest first.
    pub fn get(&self, i: usize) -> (r: Option<&T>)
        requires
            self.wf(),
        ensures
            match r {
                Some(v) => i < self@.len() && *v == self@[i as int],
                None => i >= self@.len(),
            },
    {
        if i < self.count {
            let n = self.data.len();
            let idx = if i >= n - self.tail {
                i - (n - self.tail)
            } else {
                self.tail + i
            };
            assert(idx == self.slot(i as int));
            match &self.data[idx] {
                Some(v) => Some(v),
                None => None,
            }
        } else {
            None
        }
    }

    /// Take the oldest element, if any.
    pub fn recv(&mut self) -> (r: Option<T>)
        requires
            old(self).wf(),
        ensures
            final(self).wf(),
            final(self).capacity() == old(self).capacity(),
            match r {
                None => old(self)@.len() == 0 && final(self)@ == old(self)@,
                Some(v) => {
                    &&& old(self)@.len() > 0
                    &&& v == old(self)@[0]
                    &&& final(self)@ == old(self)@.drop_first()
                },
            },
            r == pop_one(old(self)@).0,
            final(self)@ == pop_one(old(self)@).1,
    {
        if self.count == 0 {
            None
        } else {
            let ghost pre = *self;
            let mut taken: Option<T> = None;
            core::mem::swap(&mut self.data[self.tail], &mut taken);
            self.tail = if self.tail + 1 == self.data.len() { 0 } else { self.tail + 1 };
            self.count = self.count - 1;
            proof {
                assert forall|i: int| 0 <= i < self.count implies self.data@[self.slot(i)] == pre.data@[pre.slot(i + 1)] by {
                    assert(self.slot(i) == pre.slot(i + 1));
                    assert(pre.slot(i + 1) != pre.tail);
                }
                assert(self@ =~= pre@.drop_first());
                assert(taken == Some(pre@[0]));
            }
            taken
        }
    }

    /// Discard the oldest element. Returns whether one was discarded.
    pub fn drop_one(&mut self) -> (dropped: bool)
        requires
            old(self).wf(),
        ensures
            final(self).wf(),
            final(self).capacity() == old(self).capacity(),
            dropped == (old(self)@.len() > 0),
            dropped ==> final(self)@ == old(self)@.drop_first(),
            !dropped ==> final(self)@ == old(self)@,
    {
        match self.recv() {
            Some(_) => true,
            None => false,
        }
    }

    /// Append one element, discarding the oldest first if the queue is
    /// full. Returns whether an element was discarded.
    pub fn send(&mut self, v: T) -> (dropped: bool)
        requires
            old(self).wf(),
        ensures
            final(self).wf(),
            final(self).capacity() == old(self).capacity(),
            final(self)@.len() <= final(self).capacity(),
            dropped == (old(self)@.len() == old(self).capacity()),
            dropped ==> final(self)@ == old(self)@.drop_first().push(v),
            !dropped ==> final(self)@ == old(self)@.push(v),
            final(self)@ == push_one(old(self)@, v, old(self).capacity()),
    {
        let ghost pre = *self;
        let n = self.data.len();
        let head = if self.count >= n - self.tail {
            self.count - (n - self.tail)
        } else {
            self.tail + self.count
        };
        assert(head == pre.slot(pre.count as int));
        if self.count == n {
            // Full: overwrite the oldest slot (which is where the head
            // has wrapped to) and advance the tail past it.
            self.data[head] = Some(v);
            self.tail = if self.tail + 1 == n { 0 } else { self.tail + 1 };
            proof {
                assert forall|i: int| 0 <= i < self.count - 1 implies self.data@[self.slot(i)] == pre.data@[pre.slot(i + 1)] by {
                    assert(self.slot(i) == pre.slot(i + 1));
                    assert(pre.slot(i + 1) != pre.tail);
                }
                assert(self.slot(self.count - 1) == pre.tail);
                assert forall|i: int| 0 <= i < self.count implies (#[trigger] self.data@[self.slot(i)]) is Some by {
                    if i < self.count - 1 {
                        assert(self.data@[self.slot(i)] == pre.data@[pre.slot(i + 1)]);
                    } else {
                        assert(self.slot(i) == pre.tail);
                    }
                }
                assert(self@ =~= pre@.drop_first().push(v));
            }
            true
        } else {
            self.data[head] = Some(v);
            self.count = self.count + 1;
            proof {
                assert forall|i: int| 0 <= i < self.count - 1 implies self.data@[self.slot(i)] == pre.data@[pre.slot(i)] by {
                    assert(self.slot(i) != pre.slot(pre.count as int));
                }
                assert forall|i: int| 0 <= i < self.count implies (#[trigger] self.data@[self.slot(i)]) is Some by {
                    if i < self.count - 1 {
                        assert(self.data@[self.slot(i)] == pre.data@[pre.slot(i)]);
                    } else {
                        assert(self.slot(i) == pre.slot(pre.count as int));
                    }
                }
                assert(self@ =~= pre@.push(v));
            }
            false
        }
    }

    /// Take up to `requested` oldest elements at once, oldest first.
    /// Returns fewer when the queue holds fewer; never fails.
    pub fn recv_many(&mut self, requested: usize) -> (r: Vec<T>)
        requires
            old(self).wf(),
        ensures
            final(self).wf(),
            final(self).capacity() == old(self).capacity(),
            r@.len() == if requested <= old(self)@.len() {
                requested as int
            } else {
                old(self)@.len() as int
            },
            r@ == old(self)@.subrange(0, r@.len() as int),
            final(self)@ == old(self)@.subrange(r@.len() as int, old(self)@.len() as int),
            r@ == pop_all(old(self)@, requested as nat).0,
            final(self)@ == pop_all(old(self)@, requested as nat).1,
    {
        let ghost pre = *self;
        let k = if requested <= self.count {
            requested
        } else {
            self.count
        };
        let mut r: Vec<T> = Vec::new();
        let mut i: usize = 0;
        while i < k
            invariant
                i <= k,
                k <= pre@.len(),
                self.wf(),
                self.capacity() == pre.capacity(),
                r@.len() == i,
                r@ == pre@.subrange(0, i as int),
                self@ == pre@.subrange(i as int, pre@.len() as int),
            decreases k - i,
        {
            let ghost before = self@;
            let v = self.recv().unwrap();
            r.push(v);
            i += 1;
            proof {
                assert(before.drop_first() =~= pre@.subrange(i as int, pre@.len() as int));
                assert(r@ =~= pre@.subrange(0, i as int));
            }
        }
        proof {
            lemma_pop_all_prefix(pre@, requested as nat);
        }
        r
    }

    /// Discard up to `requested` oldest elements at once. Returns how
    /// many were discarded.
    pub fn drop_many(&mut self, requested: usize) -> (dropped: usize)
        requires
            old(self).wf(),
        ensures
            final(self).wf(),
            final(self).capacity() == old(self).capacity(),
            dropped == if requested <= old(self)@.len() {
                requested as int
            } else {
                old(self)@.len() as int
            },
            final(self)@ == old(self)@.subrange(dropped as int, old(self)@.len() as int),
            final(self)@ == pop_all(old(self)@, requested as nat).1,
    {
        let ghost pre = *self;
        let k = if requested <= self.count {
            requested
        } else {
            self.count
        };
        let mut i: usize = 0;
        while i < k
            invariant
                i <= k,
                k <= pre@.len(),
                self.wf(),
                self.capacity() == pre.capacity(),
                self@ == pre@.subrange(i as int, pre@.len() as int),
            decreases k - i,
        {
            let ghost before = self@;
            self.drop_one();
            i += 1;
            proof {
                assert(before.drop_first() =~= pre@.subrange(i as int, pre@.len() as int));
            }
        }
        proof {
            lemma_pop_all_prefix(pre@, requested as nat);
        }
        k
    }

    /// Append a whole batch, oldest first, discarding just enough of the
    /// oldest elements (already held or at the front of the batch) to
    /// respect the capacity. Returns how many elements were discarded.
    ///
    /// Behaves identically to pushing the batch one element at a time
    /// with [`Ring::send`]: both leave the last `capacity` elements of
    /// the combined stream.
    pub fn send_many(&mut self, vs: Vec<T>) -> (dropped: usize)
        requires
            old(self).wf(),
        ensures
            final(self).wf(),
            final(self).capacity() == old(self).capacity(),
            final(self)@.len() <= final(self).capacity(),
            dropped == if old(self)@.len() + vs@.len() > old(self).capacity() {
                old(self)@.len() + vs@.len() - old(self).capacity()
            } else {
                0
            },
            final(self)@ == (old(self)@ + vs@).subrange(
                dropped as int,
                old(self)@.len() + vs@.len() as int,
            ),
            final(self)@ == push_all(old(self)@, vs@, old(self).capacity()),
    {
        let ghost pre = *self;
        let ghost vs0 = vs@;
        let mut vs = vs;
        let mut rev: Vec<T> = Vec::new();
        // Reverse the batch so the oldest element comes off the end first.
        while vs.len() > 0
            invariant
                vs@.len() + rev@.len() == vs0.len(),
                vs@ == vs0.subrange(0, vs@.len() as int),
                forall|i: int| 0 <= i < rev@.len() ==> rev@[i] == vs0[vs0.len() - 1 - i],
            decreases vs.len(),
        {
            let ghost vlen = vs@.len() as int;
            let x = vs.pop().unwrap();
            proof {
                assert(x == vs0[vlen - 1]);
                assert(vs@ =~= vs0.subrange(0, vs@.len() as int));
            }
            rev.push(x);
        }
        proof {
            vstd::std_specs::vec::axiom_spec_len(&rev);
        }
        let mut dropped: usize = 0;
        while rev.len() > 0
            invariant
                vs0.len() <= usize::MAX,
                rev@.len() <= vs0.len(),
                forall|i: int| 0 <= i < rev@.len() ==> rev@[i] == vs0[vs0.len() - 1 - i],
                self.wf(),
                self.capacity() == pre.capacity(),
                self@ == push_all(pre@, vs0.subrange(0, vs0.len() - rev@.len()), pre.capacity()),
                self@.len() + dropped == pre@.len() + vs0.len() - rev@.len(),
                dropped <= vs0.len() - rev@.len(),
            decreases rev.len(),
        {
            let ghost j = vs0.len() - rev@.len();
            let ghost held = self@;
            let x = rev.pop().unwrap();
            proof {
                assert(x == vs0[j]);
            }
            let d = self.send(x);
            if d {
                dropped += 1;
            }
            proof {
                assert(self.capacity() >= 1);
                assert(held.len() <= pre.capacity()) by {
                    lemma_push_all_keeps_last(pre@, vs0.subrange(0, j), pre.capacity());
                }
                lemma_push_all_snoc(pre@, vs0.subrange(0, j), x, pre.capacity());
                assert(vs0.subrange(0, j).push(x) =~= vs0.subrange(0, j + 1));
                assert(self@ == push_one(held, x, pre.capacity()));
            }
        }
        proof {
            assert(vs0.subrange(0, vs0.len() as int) =~= vs0);
            lemma_push_all_keeps_last(pre@, vs0, pre.capacity());
            if pre@.len() + vs0.len() <= pre.capacity() {
                assert(self@ =~= (pre@ + vs0).subrange(0, pre@.len() + vs0.len() as int));
            }
        }
        dropped
    }
}

impl<T> View for Ring<T> {
    type V = Seq<T>;

    /// The queue's contents, oldest first.
    closed spec fn view(&self) -> Seq<T> {
        Seq::new(self.count as nat, |i: int| self.data@[self.slot(i)]->Some_0)
    }
}

} // verus!
