//! A FIFO queue over a circular slot array: `j` is the position of the
//! oldest element, elements are appended after the newest one, and the
//! backing array is resized by amortized doubling.

use vstd::prelude::*;
use vstd::pervasive::VecAdditionalExecFns;
use crate::IndexOutOfRange;
use crate::array::allocate_heap;
use crate::list::selist::bdeque::slot;
use crate::list::selist::bdeque::ring;

verus! {

/// Backing slots `a`, element count `n`, start offset `j`.
pub struct ArrayQueue<T> {
    a: Vec<Option<T>>,
    n: usize,
    j: usize,
}

impl<T> View for ArrayQueue<T> {
    type V = Seq<T>;

    closed spec fn view(&self) -> Seq<T> {
        ring(self.a@, self.j as int, self.n as int)
    }
}

impl<T: Copy> ArrayQueue<T> {
    /// Length of the backing array (the capacity, not the element count).
    pub closed spec fn capacity(&self) -> nat {
        self.a@.len()
    }

    /// The offset is in range, the queue is not over-full, and every
    /// occupied slot really holds a value.
    pub closed spec fn wf(&self) -> bool {
        &&& self.a@.len() <= usize::MAX / 2
        &&& (self.a@.len() == 0 ==> self.n == 0 && self.j == 0)
        &&& (self.a@.len() > 0 ==> (self.j as int) < self.a@.len() && self.n <= self.a@.len())
        &&& forall|k: int|
            0 <= k < self.n ==> self.a@[slot(self.j as int, k, self.a@.len() as int)] is Some
    }

    pub fn new(n: usize) -> (s: Self)
        requires
            n <= usize::MAX / 2,
        ensures
            s.wf(),
            s@ == Seq::<T>::empty(),
            s.capacity() == n,
    {
        let s = Self { a: allocate_heap(n), n: 0, j: 0 };
        proof {
            assert(s@ =~= Seq::<T>::empty());
        }
        s
    }

    /// The storage slot of logical index `i`.
    fn phys(&self, i: usize) -> (r: usize)
        requires
            1 <= self.capacity() <= usize::MAX / 2,
            (self.j as int) < self.capacity(),
            i <= self.capacity(),
        ensures
            r as int == slot(self.j as int, i as int, self.capacity() as int),
            r < self.capacity(),
    {
        let c = self.a.len();
        if self.j + i < c {
            self.j + i
        } else {
            self.j + i - c
        }
    }

    /// Length of the backing array.
    pub fn len(&self) -> (r: usize)
        ensures
            r == self.capacity(),
    {
        self.a.len()
    }

    /// Number of elements held.
    pub fn size(&self) -> (r: usize)
        ensures
            r == self@.len(),
    {
        self.n
    }

    /// Replaces the backing array by one of length `max(2 * size, 1)`,
    /// keeping the elements and resetting the start offset.
    pub fn resize(&mut self)
        requires
            old(self).wf(),
            old(self)@.len() <= usize::MAX / 4,
        ensures
            final(self).wf(),
            final(self)@ == old(self)@,
            final(self).capacity() == if old(self)@.len() == 0 { 1nat } else {
                2 * old(self)@.len()
            },
    {
        let new_length: usize = if self.n == 0 { 1 } else { 2 * self.n };
        let mut b = allocate_heap(new_length);
        let ghost a0 = self.a@;
        let ghost j0 = self.j as int;
        let ghost n0 = self.n as int;
        let ghost c = self.a@.len() as int;
        let mut k: usize = 0;
        while k < self.n
            invariant
                0 <= k <= n0,
                self.n == n0,
                self.j == j0,
                self.a@ == a0,
                a0.len() == c,
                n0 <= new_length,
                (n0 > 0 ==> 1 <= c <= usize::MAX / 2 && j0 < c && n0 <= c),
                b@.len() == new_length,
                forall|p: int| 0 <= p < n0 ==> a0[slot(j0, p, c)] is Some,
                forall|p: int| 0 <= p < k ==> b@[p] == a0[slot(j0, p, c)],
            decreases n0 - k,
        {
            let s = self.phys(k);
            let v = self.a[s];
            b.set(k, v);
            k += 1;
        }
        self.a = b;
        self.j = 0;
        proof {
            assert(self@ =~= old(self)@);
        }
    }

    /// Appends `x` after the newest element; always succeeds.
    pub fn add(&mut self, x: T) -> (r: bool)
        requires
            old(self).wf(),
            old(self)@.len() < usize::MAX / 4,
        ensures
            final(self).wf(),
            r == true,
            final(self)@ == old(self)@.push(x),
    {
        if self.n + 1 >= self.a.len() {
            self.resize();
        }
        let ghost a0 = self.a@;
        let ghost j0 = self.j as int;
        let ghost n0 = self.n as int;
        let ghost c = self.a@.len() as int;
        let s = self.phys(self.n);
        self.a.set(s, Some(x));
        self.n += 1;
        proof {
            assert forall|p: int| 0 <= p < self.n implies self.a@[slot(j0, p, c)] is Some by {
                if p < n0 {
                    assert(self.a@[slot(j0, p, c)] == a0[slot(j0, p, c)]);
                }
            }
            assert(self@ =~= old(self)@.push(x));
        }
        true
    }

    /// Removes and returns the oldest element.
    pub fn remove(&mut self) -> (r: Result<T, IndexOutOfRange>)
        requires
            old(self).wf(),
        ensures
            final(self).wf(),
            old(self)@.len() > 0 ==> r == Ok::<T, IndexOutOfRange>(old(self)@[0])
                && final(self)@ == old(self)@.drop_first(),
            old(self)@.len() == 0 ==> r is Err && final(self)@ == old(self)@,
    {
        if self.n == 0 {
            return Err(IndexOutOfRange);
        }
        let ghost a0 = self.a@;
        let ghost j0 = self.j as int;
        let ghost n0 = self.n as int;
        let ghost c = self.a@.len() as int;
        proof {
            assert(slot(j0, 0, c) == j0);
        }
        let x = self.a[self.j].unwrap();
        let cap = self.a.len();
        self.j = if self.j + 1 == cap {
            0
        } else {
            self.j + 1
        };
        self.n -= 1;
        proof {
            let j2 = self.j as int;
            assert(j2 == slot(j0, 1, c));
            assert forall|p: int| 0 <= p < self.n implies self.a@[slot(j2, p, c)] is Some
                && self.a@[slot(j2, p, c)] == a0[slot(j0, p + 1, c)] by {
                assert(slot(j2, p, c) == slot(j0, p + 1, c));
            }
            assert(self@ =~= old(self)@.drop_first());
        }
        if self.a.len() / 3 >= self.n {
            self.resize();
        }
        Ok(x)
    }
}

} // verus!
