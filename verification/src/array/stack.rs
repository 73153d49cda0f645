//! A growable array stack: the same amortized-doubling slot array as the
//! top-level array container, with a `remove` that hands the removed element
//! back to the caller.

use vstd::prelude::*;
use vstd::pervasive::VecAdditionalExecFns;
use crate::IndexOutOfRange;
use crate::array::allocate_heap;

verus! {

/// A growable array: backing slots `a` and the count `n` of slots in use.
pub struct ArrayStack<T> {
    a: Vec<Option<T>>,
    n: usize,
}

impl<T> View for ArrayStack<T> {
    type V = Seq<T>;

    closed spec fn view(&self) -> Seq<T> {
        Seq::new(self.n as nat, |k: int| self.a@[k].unwrap())
    }
}

impl<T: Copy> ArrayStack<T> {
    /// The occupied slots all really hold a value.
    pub closed spec fn wf(&self) -> bool {
        &&& self.n <= self.a@.len()
        &&& forall|k: int| 0 <= k < self.n ==> self.a@[k] is Some
    }

    /// Length of the backing array (the capacity, not the element count).
    pub closed spec fn capacity(&self) -> nat {
        self.a@.len()
    }

    pub fn new(n: usize) -> (s: Self)
        ensures
            s.wf(),
            s@ == Seq::<T>::empty(),
            s.capacity() == n,
    {
        let s = Self { a: allocate_heap(n), n: 0 };
        proof {
            assert(s@ =~= Seq::<T>::empty());
        }
        s
    }

    /// Length of the backing array.
    pub fn len(&self) -> (r: usize)
        ensures
            r == self.capacity(),
    {
        self.a.len()
    }

    /// Number of elements held.
    pub fn size(&self) -> (r: usize)
        ensures
            r == self@.len(),
    {
        self.n
    }

    /// Replaces the backing array by one of length `max(2 * size, 1)`,
    /// keeping the elements.
    pub fn resize(&mut self)
        requires
            old(self).wf(),
            old(self)@.len() <= usize::MAX / 2,
        ensures
            final(self).wf(),
            final(self)@ == old(self)@,
            final(self).capacity() == if old(self)@.len() == 0 { 1nat } else {
                2 * old(self)@.len()
            },
    {
        let new_length: usize = if self.n == 0 { 1 } else { 2 * self.n };
        let mut b = allocate_heap(new_length);
        let mut i: usize = 0;
        while i < self.n
            invariant
                old(self).wf(),
                self == old(self),
                i <= self.n,
                b@.len() == new_length,
                self.n <= new_length,
                forall|k: int| 0 <= k < i ==> b@[k] == self.a@[k],
            decreases self.n - i,
        {
            let v = self.a[i];
            b.set(i, v);
            i += 1;
        }
        self.a = b;
        proof {
            assert(self@ =~= old(self)@);
        }
    }

    /// Inserts `x` before position `i`, shifting positions `i ..` up by one;
    /// rejects an `i` beyond the current size.
    pub fn add(&mut self, i: usize, x: T) -> (r: Result<(), IndexOutOfRange>)
        requires
            old(self).wf(),
            old(self)@.len() < usize::MAX / 2,
        ensures
            final(self).wf(),
            i <= old(self)@.len() ==> r is Ok && final(self)@ == old(self)@.insert(
                i as int,
                x,
            ),
            i > old(self)@.len() ==> r is Err && final(self)@ == old(self)@,
    {
        if i > self.n {
            return Err(IndexOutOfRange);
        }
        if self.n + 1 >= self.a.len() {
            self.resize();
        }
        let ghost a0 = self.a@;
        let ghost n0 = self.n as int;
        let mut k: usize = self.n;
        while k > i
            invariant
                i <= k <= n0,
                self.n == n0,
                n0 < self.a@.len(),
                self.a@.len() == a0.len(),
                forall|p: int| 0 <= p < n0 ==> a0[p] is Some,
                forall|p: int| 0 <= p <= k ==> self.a@[p] == a0[p],
                forall|p: int| k < p <= n0 ==> self.a@[p] == a0[p - 1],
            decreases k,
        {
            let v = self.a[k - 1];
            self.a.set(k, v);
            k -= 1;
        }
        self.a.set(i, Some(x));
        self.n += 1;
        proof {
            assert forall|p: int| 0 <= p < self.n implies self.a@[p] is Some by {
                if p < i {
                    assert(self.a@[p] == a0[p]);
                } else if p > i {
                    assert(self.a@[p] == a0[p - 1]);
                }
            }
            assert(self@ =~= old(self)@.insert(i as int, x));
        }
        Ok(())
    }

    /// Removes and returns the element at position `i`, shifting positions
    /// `i + 1 ..` down by one; rejects an `i` at or beyond the current size.
    pub fn remove(&mut self, i: usize) -> (r: Result<T, IndexOutOfRange>)
        requires
            old(self).wf(),
        ensures
            final(self).wf(),
            i < old(self)@.len() ==> r == Ok::<T, IndexOutOfRange>(old(self)@[i as int])
                && final(self)@ == old(self)@.remove(i as int),
            i >= old(self)@.len() ==> r is Err && final(self)@ == old(self)@,
    {
        if i >= self.n {
            return Err(IndexOutOfRange);
        }
        let x = self.a[i].unwrap();
        let ghost a0 = self.a@;
        let ghost n0 = self.n as int;
        let mut k: usize = i;
        while k + 1 < self.n
            invariant
                i <= k <= n0 - 1,
                self.n == n0,
                n0 <= self.a@.len(),
                self.a@.len() == a0.len(),
                forall|p: int| 0 <= p < n0 ==> a0[p] is Some,
                forall|p: int| 0 <= p < i ==> self.a@[p] == a0[p],
                forall|p: int| i <= p < k ==> self.a@[p] == a0[p + 1],
                forall|p: int| k <= p < n0 ==> self.a@[p] == a0[p],
            decreases n0 - k,
        {
            let v = self.a[k + 1];
            self.a.set(k, v);
            k += 1;
        }
        self.n -= 1;
        proof {
            assert forall|p: int| 0 <= p < self.n implies self.a@[p] is Some by {
                if p < i {
                    assert(self.a@[p] == a0[p]);
                } else {
                    assert(self.a@[p] == a0[p + 1] || self.a@[p] == a0[p]);
                }
            }
            assert(self@ =~= old(self)@.remove(i as int));
        }
        if self.a.len() / 3 >= self.n {
            self.resize();
        }
        Ok(x)
    }

    /// The element at position `i`; rejects an `i` at or beyond the size.
    pub fn get(&self, i: usize) -> (r: Result<T, IndexOutOfRange>)
        requires
            self.wf(),
        ensures
            i < self@.len() ==> r == Ok::<T, IndexOutOfRange>(self@[i as int]),
            i >= self@.len() ==> r is Err,
    {
        if i >= self.n {
            return Err(IndexOutOfRange);
        }
        Ok(self.a[i].unwrap())
    }

    /// Replaces the element at position `i` by `x`; rejects an `i` at or
    /// beyond the size.
    pub fn set(&mut self, i: usize, x: T) -> (r: Result<(), IndexOutOfRange>)
        requires
            old(self).wf(),
        ensures
            final(self).wf(),
            i < old(self)@.len() ==> r is Ok && final(self)@ == old(self)@.update(
                i as int,
                x,
            ),
            i >= old(self)@.len() ==> r is Err && final(self)@ == old(self)@,
    {
        if i >= self.n {
            return Err(IndexOutOfRange);
        }
        self.a.set(i, Some(x));
        proof {
            assert(self@ =~= old(self)@.update(i as int, x));
        }
        Ok(())
    }
}

} // verus!
