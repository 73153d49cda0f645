//! A double-ended, arbitrary-position variant of the growable array: a
//! circular slot array in which insertion and removal shift whichever side
//! of the target position is shorter, with amortized-doubling resize.

use vstd::prelude::*;
use vstd::pervasive::VecAdditionalExecFns;
use crate::IndexOutOfRange;
use crate::array::allocate_heap;
use crate::list::selist::bdeque::slot;
use crate::list::selist::bdeque::ring;

verus! {

/// Backing slots `a`, element count `n`, start offset `j`.
pub struct ArrayDeque<T> {
    a: Vec<Option<T>>,
    n: usize,
    j: usize,
}

impl<T> View for ArrayDeque<T> {
    type V = Seq<T>;

    closed spec fn view(&self) -> Seq<T> {
        ring(self.a@, self.j as int, self.n as int)
    }
}

impl<T: Copy> ArrayDeque<T> {
    /// Length of the backing array (the capacity, not the element count).
    pub closed spec fn capacity(&self) -> nat {
        self.a@.len()
    }

    /// Start offset into the slot array.
    pub closed spec fn start(&self) -> nat {
        self.j as nat
    }

    /// The offset is in range, the deque is not over-full, and every
    /// occupied slot really holds a value.
    pub closed spec fn wf(&self) -> bool {
        &&& self.a@.len() <= usize::MAX / 2
        &&& (self.a@.len() == 0 ==> self.n == 0 && self.j == 0)
        &&& (self.a@.len() > 0 ==> (self.j as int) < self.a@.len() && self.n <= self.a@.len())
        &&& forall|k: int|
            0 <= k < self.n ==> self.a@[slot(self.j as int, k, self.a@.len() as int)] is Some
    }

    pub fn new(n: usize) -> (s: Self)
        requires
            n <= usize::MAX / 2,
        ensures
            s.wf(),
            s@ == Seq::<T>::empty(),
            s.capacity() == n,
    {
        let s = Self { a: allocate_heap(n), n: 0, j: 0 };
        proof {
            assert(s@ =~= Seq::<T>::empty());
        }
        s
    }

    /// The storage slot of logical index `i`: `(j + i) mod capacity`.
    pub fn mod_index(&self, i: usize) -> (r: usize)
        requires
            1 <= self.capacity() <= usize::MAX / 2,
            self.start() < self.capacity(),
            i <= self.capacity(),
        ensures
            r as int == slot(self.start() as int, i as int, self.capacity() as int),
            r < self.capacity(),
    {
        let c = self.a.len();
        if self.j + i < c {
            self.j + i
        } else {
            self.j + i - c
        }
    }

    /// Length of the backing array.
    pub fn len(&self) -> (r: usize)
        ensures
            r == self.capacity(),
    {
        self.a.len()
    }

    /// Number of elements held.
    pub fn size(&self) -> (r: usize)
        ensures
            r == self@.len(),
    {
        self.n
    }

    /// Replaces the backing array by one of length `max(2 * size, 1)`,
    /// keeping the elements and resetting the start offset.
    pub fn resize(&mut self)
        requires
            old(self).wf(),
            old(self)@.len() <= usize::MAX / 4,
        ensures
            final(self).wf(),
            final(self)@ == old(self)@,
            final(self).capacity() == if old(self)@.len() == 0 { 1nat } else {
                2 * old(self)@.len()
            },
    {
        let new_length: usize = if self.n == 0 { 1 } else { 2 * self.n };
        let mut b = allocate_heap(new_length);
        let ghost a0 = self.a@;
        let ghost j0 = self.j as int;
        let ghost n0 = self.n as int;
        let ghost c = self.a@.len() as int;
        let mut k: usize = 0;
        while k < self.n
            invariant
                0 <= k <= n0,
                self.n == n0,
                self.j == j0,
                self.a@ == a0,
                a0.len() == c,
                n0 <= new_length,
                (n0 > 0 ==> 1 <= c <= usize::MAX / 2 && j0 < c && n0 <= c),
                b@.len() == new_length,
                forall|p: int| 0 <= p < n0 ==> a0[slot(j0, p, c)] is Some,
                forall|p: int| 0 <= p < k ==> b@[p] == a0[slot(j0, p, c)],
            decreases n0 - k,
        {
            let s = self.mod_index(k);
            let v = self.a[s];
            b.set(k, v);
            k += 1;
        }
        self.a = b;
        self.j = 0;
        proof {
            assert(self@ =~= old(self)@);
        }
    }

    /// Inserts `x` before position `i`, shifting whichever side is shorter;
    /// rejects an `i` beyond the current size.
    #[verifier::rlimit(60)]
    pub fn add(&mut self, i: usize, x: T) -> (r: Result<(), IndexOutOfRange>)
        requires
            old(self).wf(),
            old(self)@.len() < usize::MAX / 4,
        ensures
            final(self).wf(),
            i <= old(self)@.len() ==> r is Ok && final(self)@ == old(self)@.insert(
                i as int,
                x,
            ),
            i > old(self)@.len() ==> r is Err && final(self)@ == old(self)@,
    {
        if i > self.n {
            return Err(IndexOutOfRange);
        }
        if self.n + 1 >= self.a.len() {
            self.resize();
        }
        let ghost a0 = self.a@;
        let ghost j0 = self.j as int;
        let ghost n0 = self.n as int;
        let ghost c = self.a@.len() as int;
        let cap = self.a.len();
        let index = i;
        if index < self.n / 2 {
            // shift the front one slot toward lower offsets
            self.j = if self.j == 0 {
                cap - 1
            } else {
                self.j - 1
            };
            let ghost j2 = self.j as int;
            let mut k: usize = 0;
            while k < index
                invariant
                    0 <= k <= index,
                    index < n0,
                    n0 < c <= usize::MAX / 2,
                    self.n == n0,
                    self.a@.len() == c,
                    a0.len() == c,
                    self.j == j2,
                    j2 == slot(j0, c - 1, c),
                    0 <= j0 < c,
                    0 <= j2 < c,
                    forall|p: int| 0 <= p < n0 ==> a0[slot(j0, p, c)] is Some,
                    forall|p: int| 0 <= p < k ==> self.a@[slot(j2, p, c)] == a0[slot(j0, p, c)],
                    forall|p: int|
                        k <= p <= n0 ==> self.a@[slot(j2, p, c)] == a0[slot(j2, p, c)],
                decreases index - k,
            {
                let src = self.mod_index(k + 1);
                let dst = self.mod_index(k);
                let v = self.a[src];
                proof {
                    assert(slot(j2, k + 1, c) == slot(j0, k as int, c));
                }
                self.a.set(dst, v);
                proof {
                    assert forall|p: int| k + 1 <= p <= n0 implies self.a@[slot(j2, p, c)]
                        == a0[slot(j2, p, c)] by {
                        assert(slot(j2, p, c) != slot(j2, k as int, c));
                    }
                }
                k += 1;
            }
            let dst = self.mod_index(index);
            self.a.set(dst, Some(x));
            self.n += 1;
            proof {
                assert forall|p: int| 0 <= p < self.n implies self.a@[slot(j2, p, c)]
                    is Some by {
                    if p < index {
                        assert(self.a@[slot(j2, p, c)] == a0[slot(j0, p, c)]);
                    } else if p > index {
                        assert(slot(j2, p, c) == slot(j0, p - 1, c));
                    }
                }
                assert(self@ =~= old(self)@.insert(index as int, x)) by {
                    assert forall|p: int| 0 <= p <= n0 implies self@[p] == old(self)@.insert(
                        index as int,
                        x,
                    )[p] by {
                        if p < index {
                            assert(self.a@[slot(j2, p, c)] == a0[slot(j0, p, c)]);
                        } else if p > index {
                            assert(slot(j2, p, c) == slot(j0, p - 1, c));
                        }
                    }
                }
            }
        } else {
            // shift the back one slot toward higher offsets
            let mut k: usize = self.n;
            while k > index
                invariant
                    index <= k <= n0,
                    index <= n0,
                    n0 < c <= usize::MAX / 2,
                    self.n == n0,
                    self.a@.len() == c,
                    a0.len() == c,
                    self.j == j0,
                    0 <= j0 < c,
                    forall|p: int| 0 <= p < n0 ==> a0[slot(j0, p, c)] is Some,
                    forall|p: int| 0 <= p <= k ==> self.a@[slot(j0, p, c)] == a0[slot(j0, p, c)],
                    forall|p: int|
                        k < p <= n0 ==> self.a@[slot(j0, p, c)] == a0[slot(j0, p - 1, c)],
                decreases k,
            {
                let src = self.mod_index(k - 1);
                let dst = self.mod_index(k);
                let v = self.a[src];
                self.a.set(dst, v);
                k -= 1;
            }
            let dst = self.mod_index(index);
            self.a.set(dst, Some(x));
            self.n += 1;
            proof {
                assert forall|p: int| 0 <= p < self.n implies self.a@[slot(j0, p, c)]
                    is Some by {
                    if p < index {
                        assert(self.a@[slot(j0, p, c)] == a0[slot(j0, p, c)]);
                    } else if p > index {
                        assert(self.a@[slot(j0, p, c)] == a0[slot(j0, p - 1, c)]);
                    }
                }
                assert(self@ =~= old(self)@.insert(index as int, x));
            }
        }
        Ok(())
    }

    /// Removes and returns the element at position `i`, shifting whichever
    /// side is shorter; rejects an `i` at or beyond the current size.
    pub fn remove(&mut self, i: usize) -> (r: Result<T, IndexOutOfRange>)
        requires
            old(self).wf(),
        ensures
            final(self).wf(),
            i < old(self)@.len() ==> r == Ok::<T, IndexOutOfRange>(old(self)@[i as int])
                && final(self)@ == old(self)@.remove(i as int),
            i >= old(self)@.len() ==> r is Err && final(self)@ == old(self)@,
    {
        if i >= self.n {
            return Err(IndexOutOfRange);
        }
        let ghost a0 = self.a@;
        let ghost j0 = self.j as int;
        let ghost n0 = self.n as int;
        let ghost c = self.a@.len() as int;
        let index = i;
        let src = self.mod_index(index);
        let x = self.a[src].unwrap();
        if index < self.n / 2 {
            // shift the front one slot toward higher offsets
            let mut k: usize = index;
            while k > 0
                invariant
                    0 <= k <= index,
                    index < n0,
                    n0 <= c <= usize::MAX / 2,
                    self.n == n0,
                    self.a@.len() == c,
                    a0.len() == c,
                    self.j == j0,
                    0 <= j0 < c,
                    forall|p: int| 0 <= p < n0 ==> a0[slot(j0, p, c)] is Some,
                    forall|p: int| 0 <= p <= k ==> self.a@[slot(j0, p, c)] == a0[slot(j0, p, c)],
                    forall|p: int|
                        k < p <= index ==> self.a@[slot(j0, p, c)] == a0[slot(j0, p - 1, c)],
                    forall|p: int|
                        index < p < n0 ==> self.a@[slot(j0, p, c)] == a0[slot(j0, p, c)],
                decreases k,
            {
                let src2 = self.mod_index(k - 1);
                let dst = self.mod_index(k);
                let v = self.a[src2];
                self.a.set(dst, v);
                k -= 1;
            }
            let cap = self.a.len();
            self.j = if self.j + 1 == cap {
                0
            } else {
                self.j + 1
            };
            self.n -= 1;
            let ghost j2 = self.j as int;
            proof {
                assert(j2 == slot(j0, 1, c));
                assert forall|p: int| 0 <= p < self.n implies self.a@[slot(j2, p, c)]
                    is Some && self.a@[slot(j2, p, c)] == if p < index {
                    a0[slot(j0, p, c)]
                } else {
                    a0[slot(j0, p + 1, c)]
                } by {
                    assert(slot(j2, p, c) == slot(j0, p + 1, c));
                }
                assert(self@ =~= old(self)@.remove(index as int));
            }
        } else {
            // shift the back one slot toward lower offsets
            let mut k: usize = index;
            while k + 1 < self.n
                invariant
                    index <= k < n0,
                    n0 <= c <= usize::MAX / 2,
                    self.n == n0,
                    self.a@.len() == c,
                    a0.len() == c,
                    self.j == j0,
                    0 <= j0 < c,
                    forall|p: int| 0 <= p < n0 ==> a0[slot(j0, p, c)] is Some,
                    forall|p: int| 0 <= p < index ==> self.a@[slot(j0, p, c)] == a0[slot(j0, p, c)],
                    forall|p: int|
                        index <= p < k ==> self.a@[slot(j0, p, c)] == a0[slot(j0, p + 1, c)],
                    forall|p: int|
                        k <= p < n0 ==> self.a@[slot(j0, p, c)] == a0[slot(j0, p, c)],
                decreases n0 - k,
            {
                let src2 = self.mod_index(k + 1);
                let dst = self.mod_index(k);
                let v = self.a[src2];
                self.a.set(dst, v);
                k += 1;
            }
            self.n -= 1;
            proof {
                assert forall|p: int| 0 <= p < self.n implies self.a@[slot(j0, p, c)]
                    is Some by {
                    if index <= p {
                        assert(self.a@[slot(j0, p, c)] == a0[slot(j0, p + 1, c)] || self.a@[slot(
                            j0,
                            p,
                            c,
                        )] == a0[slot(j0, p, c)]);
                    }
                }
                assert(self@ =~= old(self)@.remove(index as int));
            }
        }
        if self.a.len() / 3 >= self.n {
            self.resize();
        }
        Ok(x)
    }
}

} // verus!
