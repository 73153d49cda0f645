//! A bounded block: a fixed-capacity circular buffer of `b + 1` slots.
//!
//! Logical index `k` lives in storage slot `(j + k) mod capacity`, where `j`
//! is the start offset. Insertion and removal at an arbitrary offset shift
//! the shorter of the two sides, so the cost is proportional to the distance
//! from the nearer end.

use vstd::prelude::*;
use vstd::pervasive::VecAdditionalExecFns;
use crate::IndexOutOfRange;

verus! {

/// The storage slot of logical index `k` in a buffer of capacity `c` that
/// starts at offset `j`: `(j + k) mod c`, written without `%` since
/// `j + k < 2 * c` always holds where it is used.
pub open spec fn slot(j: int, k: int, c: int) -> int {
    if j + k < c {
        j + k
    } else {
        j + k - c
    }
}

/// The logical contents of a circular buffer: `n` elements starting at
/// offset `j` of the slot array `a`.
pub(crate) open spec fn ring<T>(a: Seq<Option<T>>, j: int, n: int) -> Seq<T> {
    Seq::new(n as nat, |k: int| a[slot(j, k, a.len() as int)].unwrap())
}

/// `slot` computes `(j + k) mod c` on the range it is used on.
proof fn lemma_slot_is_mod(j: int, k: int, c: int)
    requires
        0 < c,
        0 <= j < c,
        0 <= k <= c,
    ensures
        slot(j, k, c) == (j + k) % c,
{
    if j + k < c {
        vstd::arithmetic::div_mod::lemma_small_mod((j + k) as nat, c as nat);
    } else {
        vstd::arithmetic::div_mod::lemma_mod_sub_multiples_vanish(j + k, c);
        vstd::arithmetic::div_mod::lemma_small_mod((j + k - c) as nat, c as nat);
    }
}

/// A fixed-capacity circular buffer: slot array `a` (its length never
/// changes after construction), element count `n`, start offset `j`.
#[derive(Debug)]
pub struct BDeque<T> {
    a: Vec<Option<T>>,
    n: usize,
    j: usize,
}

impl<T> View for BDeque<T> {
    type V = Seq<T>;

    closed spec fn view(&self) -> Seq<T> {
        ring(self.a@, self.j as int, self.n as int)
    }
}

impl<T> BDeque<T> {
    /// Capacity: the fixed length of the slot array.
    pub closed spec fn capacity(&self) -> nat {
        self.a@.len()
    }

    /// Start offset into the slot array.
    pub closed spec fn start(&self) -> nat {
        self.j as nat
    }

    /// Structural invariant: the offset is in range, the buffer is not
    /// over-full, and every occupied slot really holds a value.
    pub closed spec fn wf(&self) -> bool {
        &&& 1 <= self.a@.len() <= usize::MAX / 2
        &&& (self.j as int) < self.a@.len()
        &&& self.n <= self.a@.len()
        &&& forall|k: int|
            0 <= k < self.n ==> self.a@[slot(self.j as int, k, self.a@.len() as int)] is Some
    }
}

impl<T: Copy> BDeque<T> {
    /// An empty block of capacity `b + 1`.
    pub fn new(b: usize) -> (s: Self)
        requires
            b < usize::MAX / 2,
        ensures
            s.wf(),
            s@ == Seq::<T>::empty(),
            s.capacity() == b + 1,
    {
        let s = Self { a: crate::array::allocate_heap(b + 1), n: 0, j: 0 };
        proof {
            assert(s@ =~= Seq::<T>::empty());
        }
        s
    }

    /// Number of elements held.
    pub fn size(&self) -> (r: usize)
        ensures
            r == self@.len(),
    {
        self.n
    }

    /// The storage slot of logical index `index`: `(j + index) mod capacity`.
    pub fn mod_index(&self, index: usize) -> (r: usize)
        requires
            1 <= self.capacity() <= usize::MAX / 2,
            self.start() < self.capacity(),
            index <= self.capacity(),
        ensures
            r as int == (self.start() + index) % (self.capacity() as int),
            r as int == slot(self.start() as int, index as int, self.capacity() as int),
            r < self.capacity(),
    {
        proof {
            lemma_slot_is_mod(self.j as int, index as int, self.a@.len() as int);
        }
        let c = self.a.len();
        if self.j + index < c {
            self.j + index
        } else {
            self.j + index - c
        }
    }

    /// Inserts `x` before offset `index`, shifting whichever side of the
    /// block is shorter. Requires room for one more element.
    pub fn add(&mut self, index: usize, x: T)
        requires
            old(self).wf(),
            index <= old(self)@.len(),
            old(self)@.len() < old(self).capacity(),
        ensures
            final(self).wf(),
            final(self)@ == old(self)@.insert(index as int, x),
            final(self).capacity() == old(self).capacity(),
    {
        let ghost a0 = self.a@;
        let ghost j0 = self.j as int;
        let ghost n0 = self.n as int;
        let ghost c = self.a@.len() as int;
        let cap = self.a.len();
        if index < self.n / 2 {
            // shift the front one slot toward lower offsets
            self.j = if self.j == 0 {
                cap - 1
            } else {
                self.j - 1
            };
            let ghost j2 = self.j as int;
            let mut k: usize = 0;
            while k < index
                invariant
                    0 <= k <= index,
                    index < n0,
                    n0 < c <= usize::MAX / 2,
                    self.n == n0,
                    self.a@.len() == c,
                    a0.len() == c,
                    self.j == j2,
                    j2 == slot(j0, c - 1, c),
                    0 <= j0 < c,
                    0 <= j2 < c,
                    forall|p: int| 0 <= p < n0 ==> a0[slot(j0, p, c)] is Some,
                    forall|p: int| 0 <= p < k ==> self.a@[slot(j2, p, c)] == a0[slot(j0, p, c)],
                    forall|p: int|
                        k <= p <= n0 ==> self.a@[slot(j2, p, c)] == a0[slot(j2, p, c)],
                decreases index - k,
            {
                let src = self.mod_index(k + 1);
                let dst = self.mod_index(k);
                let v = self.a[src];
                proof {
                    assert(slot(j2, k + 1, c) == slot(j0, k as int, c));
                }
                self.a.set(dst, v);
                proof {
                    assert forall|p: int| k + 1 <= p <= n0 implies self.a@[slot(j2, p, c)]
                        == a0[slot(j2, p, c)] by {
                        assert(slot(j2, p, c) != slot(j2, k as int, c));
                    }
                }
                k += 1;
            }
            let dst = self.mod_index(index);
            self.a.set(dst, Some(x));
            self.n += 1;
            proof {
                assert forall|p: int| 0 <= p < self.n implies self.a@[slot(j2, p, c)]
                    is Some by {
                    if p < index {
                        assert(self.a@[slot(j2, p, c)] == a0[slot(j0, p, c)]);
                    } else if p > index {
                        assert(slot(j2, p, c) == slot(j0, p - 1, c));
                    }
                }
                assert(self@ =~= old(self)@.insert(index as int, x)) by {
                    assert forall|p: int| 0 <= p <= n0 implies self@[p] == old(self)@.insert(
                        index as int,
                        x,
                    )[p] by {
                        if p < index {
                            assert(self.a@[slot(j2, p, c)] == a0[slot(j0, p, c)]);
                        } else if p > index {
                            assert(slot(j2, p, c) == slot(j0, p - 1, c));
                        }
                    }
                }
            }
        } else {
            // shift the back one slot toward higher offsets
            let mut k: usize = self.n;
            while k > index
                invariant
                    index <= k <= n0,
                    index <= n0,
                    n0 < c <= usize::MAX / 2,
                    self.n == n0,
                    self.a@.len() == c,
                    a0.len() == c,
                    self.j == j0,
                    0 <= j0 < c,
                    forall|p: int| 0 <= p < n0 ==> a0[slot(j0, p, c)] is Some,
                    forall|p: int| 0 <= p <= k ==> self.a@[slot(j0, p, c)] == a0[slot(j0, p, c)],
                    forall|p: int|
                        k < p <= n0 ==> self.a@[slot(j0, p, c)] == a0[slot(j0, p - 1, c)],
                decreases k,
            {
                let src = self.mod_index(k - 1);
                let dst = self.mod_index(k);
                let v = self.a[src];
                self.a.set(dst, v);
                k -= 1;
            }
            let dst = self.mod_index(index);
            self.a.set(dst, Some(x));
            self.n += 1;
            proof {
                assert forall|p: int| 0 <= p < self.n implies self.a@[slot(j0, p, c)]
                    is Some by {
                    if p < index {
                        assert(self.a@[slot(j0, p, c)] == a0[slot(j0, p, c)]);
                    } else if p > index {
                        assert(self.a@[slot(j0, p, c)] == a0[slot(j0, p - 1, c)]);
                    }
                }
                assert(self@ =~= old(self)@.insert(index as int, x));
            }
        }
    }

    /// Removes and returns the element at offset `index`, shifting whichever
    /// side of the block is shorter.
    pub fn remove(&mut self, index: usize) -> (r: T)
        requires
            old(self).wf(),
            index < old(self)@.len(),
        ensures
            final(self).wf(),
            r == old(self)@[index as int],
            final(self)@ == old(self)@.remove(index as int),
            final(self).capacity() == old(self).capacity(),
    {
        let ghost a0 = self.a@;
        let ghost j0 = self.j as int;
        let ghost n0 = self.n as int;
        let ghost c = self.a@.len() as int;
        let src = self.mod_index(index);
        let x = self.a[src].unwrap();
        if index < self.n / 2 {
            // shift the front one slot toward higher offsets
            let mut k: usize = index;
            while k > 0
                invariant
                    0 <= k <= index,
                    index < n0,
                    n0 <= c <= usize::MAX / 2,
                    self.n == n0,
                    self.a@.len() == c,
                    a0.len() == c,
                    self.j == j0,
                    0 <= j0 < c,
                    forall|p: int| 0 <= p < n0 ==> a0[slot(j0, p, c)] is Some,
                    forall|p: int| 0 <= p <= k ==> self.a@[slot(j0, p, c)] == a0[slot(j0, p, c)],
                    forall|p: int|
                        k < p <= index ==> self.a@[slot(j0, p, c)] == a0[slot(j0, p - 1, c)],
                    forall|p: int|
                        index < p < n0 ==> self.a@[slot(j0, p, c)] == a0[slot(j0, p, c)],
                decreases k,
            {
                let src2 = self.mod_index(k - 1);
                let dst = self.mod_index(k);
                let v = self.a[src2];
                self.a.set(dst, v);
                k -= 1;
            }
            let cap = self.a.len();
            self.j = if self.j + 1 == cap {
                0
            } else {
                self.j + 1
            };
            self.n -= 1;
            let ghost j2 = self.j as int;
            proof {
                assert(j2 == slot(j0, 1, c));
                assert forall|p: int| 0 <= p < self.n implies self.a@[slot(j2, p, c)]
                    is Some && self.a@[slot(j2, p, c)] == if p < index {
                    a0[slot(j0, p, c)]
                } else {
                    a0[slot(j0, p + 1, c)]
                } by {
                    assert(slot(j2, p, c) == slot(j0, p + 1, c));
                }
                assert(self@ =~= old(self)@.remove(index as int));
            }
        } else {
            // shift the back one slot toward lower offsets
            let mut k: usize = index;
            while k + 1 < self.n
                invariant
                    index <= k < n0,
                    n0 <= c <= usize::MAX / 2,
                    self.n == n0,
                    self.a@.len() == c,
                    a0.len() == c,
                    self.j == j0,
                    0 <= j0 < c,
                    forall|p: int| 0 <= p < n0 ==> a0[slot(j0, p, c)] is Some,
                    forall|p: int| 0 <= p < index ==> self.a@[slot(j0, p, c)] == a0[slot(j0, p, c)],
                    forall|p: int|
                        index <= p < k ==> self.a@[slot(j0, p, c)] == a0[slot(j0, p + 1, c)],
                    forall|p: int|
                        k <= p < n0 ==> self.a@[slot(j0, p, c)] == a0[slot(j0, p, c)],
                decreases n0 - k,
            {
                let src2 = self.mod_index(k + 1);
                let dst = self.mod_index(k);
                let v = self.a[src2];
                self.a.set(dst, v);
                k += 1;
            }
            self.n -= 1;
            proof {
                assert forall|p: int| 0 <= p < self.n implies self.a@[slot(j0, p, c)]
                    is Some by {
                    if index <= p {
                        assert(self.a@[slot(j0, p, c)] == a0[slot(j0, p + 1, c)] || self.a@[slot(
                            j0,
                            p,
                            c,
                        )] == a0[slot(j0, p, c)]);
                    }
                }
                assert(self@ =~= old(self)@.remove(index as int));
            }
        }
        x
    }

    /// Appends `x` after the last element. Requires room for one more.
    pub fn push_back(&mut self, x: T)
        requires
            old(self).wf(),
            old(self)@.len() < old(self).capacity(),
        ensures
            final(self).wf(),
            final(self)@ == old(self)@.push(x),
            final(self).capacity() == old(self).capacity(),
    {
        let n = self.n;
        self.add(n, x);
        proof {
            assert(old(self)@.insert(old(self)@.len() as int, x) =~= old(self)@.push(x));
        }
    }

    /// The element at offset `index`; rejects an `index` at or beyond the
    /// element count.
    pub fn get(&self, index: usize) -> (r: Result<T, IndexOutOfRange>)
        requires
            self.wf(),
        ensures
            index < self@.len() ==> r == Ok::<T, IndexOutOfRange>(self@[index as int]),
            index >= self@.len() ==> r is Err,
    {
        if index >= self.n {
            return Err(IndexOutOfRange);
        }
        let s = self.mod_index(index);
        Ok(self.a[s].unwrap())
    }

    /// Replaces the element at offset `index` by `x`; rejects an `index` at
    /// or beyond the element count.
    pub fn set(&mut self, index: usize, x: T) -> (r: Result<(), IndexOutOfRange>)
        requires
            old(self).wf(),
        ensures
            final(self).wf(),
            final(self).capacity() == old(self).capacity(),
            index < old(self)@.len() ==> r is Ok && final(self)@ == old(self)@.update(
                index as int,
                x,
            ),
            index >= old(self)@.len() ==> r is Err && final(self)@ == old(self)@,
    {
        if index >= self.n {
            return Err(IndexOutOfRange);
        }
        let s = self.mod_index(index);
        self.a.set(s, Some(x));
        proof {
            assert(self@ =~= old(self)@.update(index as int, x));
        }
        Ok(())
    }
}

} // verus!
