//! A minimum-priority queue of 64-bit keys, kept as a descending list so
//! that the smallest key is always at the tail.

use vstd::prelude::*;
use vstd::multiset::Multiset;

verus! {

/// A min-heap of `u64` keys. `pop` and `peek` always yield a smallest
/// key still held.
#[derive(Debug)]
pub struct MinHeap {
    pub heap: Vec<u64>,
}

impl MinHeap {
    /// The keys currently held, without order.
    pub open spec fn mset(self) -> Multiset<u64> {
        self.heap@.to_multiset()
    }

    /// The backing list is sorted descending, so the minimum is last.
    pub open spec fn wf(self) -> bool {
        forall|i: int, j: int| 0 <= i < j < self.heap@.len() ==> self.heap@[i] >= self.heap@[j]
    }

    /// An empty heap.
    pub fn new() -> (r: Self)
        ensures
            r.wf(),
            r.mset() == Multiset::<u64>::empty(),
            r.heap@.len() == 0,
    {
        let r = MinHeap { heap: Vec::new() };
        proof {
            broadcast use vstd::seq_lib::group_to_multiset_ensures;

            assert(r.heap@.to_multiset().len() == 0);
            assert(r.mset() =~= Multiset::<u64>::empty());
        }
        r
    }

    /// Number of keys held.
    pub fn len(&self) -> (r: usize)
        ensures
            r == self.mset().len(),
    {
        proof {
            broadcast use vstd::seq_lib::group_to_multiset_ensures;
        }
        self.heap.len()
    }

    /// Add a key.
    pub fn push(&mut self, item: u64)
        requires
            old(self).wf(),
        ensures
            final(self).wf(),
            final(self).mset() == old(self).mset().insert(item),
    {
        broadcast use vstd::seq_lib::group_to_multiset_ensures;

        let ghost s0 = self.heap@;
        let mut k: usize = 0;
        while k < self.heap.len() && self.heap[k] >= item
            invariant
                s0 == self.heap@,
                k <= s0.len(),
                forall|i: int| 0 <= i < k ==> s0[i] >= item,
            decreases s0.len() - k,
        {
            k = k + 1;
        }
        self.heap.insert(k, item);
        proof {
            assert(self.heap@ =~= s0.take(k as int).push(item) + s0.skip(k as int));
            assert(s0 =~= s0.take(k as int) + s0.skip(k as int));
            vstd::seq_lib::lemma_multiset_commutative(s0.take(k as int).push(item), s0.skip(k as int));
            vstd::seq_lib::lemma_multiset_commutative(s0.take(k as int), s0.skip(k as int));
            assert(s0.take(k as int).push(item).to_multiset() =~= s0.take(
                k as int,
            ).to_multiset().insert(item));
            assert(self.mset() =~= s0.to_multiset().insert(item));
            assert forall|i: int, j: int|
                0 <= i < j < self.heap@.len() implies self.heap@[i] >= self.heap@[j] by {
                if i < k && j > k {
                    assert(self.heap@[i] == s0[i] && self.heap@[j] == s0[j - 1]);
                } else if i == k && j > k {
                    assert(self.heap@[j] == s0[j - 1]);
                    assert(s0[j - 1] <= item) by {
                        if k < s0.len() {
                            assert(s0[k as int] < item || !(k < s0.len()));
                            if j - 1 > k {
                                assert(s0[k as int] >= s0[j - 1]);
                            }
                        }
                    }
                } else if j == k {
                    assert(self.heap@[i] == s0[i]);
                }
            }
        }
    }

    /// Remove and return a smallest key, or `None` if the heap is empty.
    pub fn pop(&mut self) -> (r: Option<u64>)
        requires
            old(self).wf(),
        ensures
            final(self).wf(),
            old(self).mset().len() == 0 ==> r is None && final(self).mset() == old(self).mset(),
            old(self).mset().len() > 0 ==> ({
                &&& r is Some
                &&& old(self).mset().contains(r.unwrap())
                &&& final(self).mset() == old(self).mset().remove(r.unwrap())
                &&& forall|x: u64| old(self).mset().contains(x) ==> r.unwrap() <= x
            }),
    {
        broadcast use vstd::seq_lib::group_to_multiset_ensures;

        let ghost s0 = self.heap@;
        let r = self.heap.pop();
        proof {
            if s0.len() > 0 {
                let m = s0[s0.len() - 1];
                assert(self.heap@ =~= s0.remove(s0.len() - 1));
                assert(self.heap@.to_multiset() =~= s0.to_multiset().remove(m));
                assert forall|x: u64| s0.to_multiset().contains(x) implies m <= x by {
                    assert(s0.contains(x));
                    let i = choose|i: int| 0 <= i < s0.len() && s0[i] == x;
                    if i < s0.len() - 1 {
                        assert(s0[i] >= s0[s0.len() - 1]);
                    }
                }
            }
        }
        r
    }

    /// A smallest key still held, or `None` if the heap is empty.
    pub fn peek(&self) -> (r: Option<u64>)
        requires
            self.wf(),
        ensures
            self.mset().len() == 0 ==> r is None,
            self.mset().len() > 0 ==> ({
                &&& r is Some
                &&& self.mset().contains(r.unwrap())
                &&& forall|x: u64| self.mset().contains(x) ==> r.unwrap() <= x
            }),
    {
        broadcast use vstd::seq_lib::group_to_multiset_ensures;

        if self.heap.len() == 0 {
            None
        } else {
            let m = self.heap[self.heap.len() - 1];
            proof {
                let s0 = self.heap@;
                assert(s0.contains(s0[s0.len() - 1]));
                assert forall|x: u64| self.mset().contains(x) implies m <= x by {
                    assert(s0.contains(x));
                    let i = choose|i: int| 0 <= i < s0.len() && s0[i] == x;
                    if i < s0.len() - 1 {
                        assert(s0[i] >= s0[s0.len() - 1]);
                    }
                }
            }
            Some(m)
        }
    }
}

} // verus!
