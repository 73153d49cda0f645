//! A double-ended array built from two growable array stacks: the front
//! stack holds positions `0 .. front.size()` in reverse order, the back
//! stack holds the rest in order, and a rebalancing step keeps the two
//! halves within a factor of three of each other.

use vstd::prelude::*;
use crate::IndexOutOfRange;
use crate::array::stack::ArrayStack;

verus! {

/// The front half (reversed) and the back half (in order).
pub struct DualArrayDeque<T> {
    front: ArrayStack<T>,
    back: ArrayStack<T>,
}

impl<T: Copy> View for DualArrayDeque<T> {
    type V = Seq<T>;

    closed spec fn view(&self) -> Seq<T> {
        Seq::new(
            self.front@.len() + self.back@.len(),
            |i: int|
                if i < self.front@.len() {
                    self.front@[self.front@.len() - 1 - i]
                } else {
                    self.back@[i - self.front@.len()]
                },
        )
    }
}

impl<T: Copy> DualArrayDeque<T> {
    /// Both halves are well-formed and the total count leaves room for the
    /// halves to grow.
    pub closed spec fn wf(&self) -> bool {
        &&& self.front.wf()
        &&& self.back.wf()
        &&& self.front@.len() + self.back@.len() <= usize::MAX / 2
    }

    pub fn new() -> (s: Self)
        ensures
            s.wf(),
            s@ == Seq::<T>::empty(),
    {
        let s = Self { front: ArrayStack::new(0), back: ArrayStack::new(0) };
        proof {
            assert(s@ =~= Seq::<T>::empty());
        }
        s
    }

    /// Combined length of the two halves' backing arrays.
    pub closed spec fn capacity(&self) -> nat {
        self.front.capacity() + self.back.capacity()
    }

    /// Combined length of the two backing arrays, saturating at the machine
    /// limit.
    pub fn len(&self) -> (r: usize)
        ensures
            r as int == if self.capacity() <= usize::MAX {
                self.capacity()
            } else {
                usize::MAX as nat
            },
    {
        self.front.len().saturating_add(self.back.len())
    }

    /// Number of elements held.
    pub fn size(&self) -> (r: usize)
        requires
            self.wf(),
        ensures
            r == self@.len(),
    {
        self.front.size() + self.back.size()
    }

    /// The element at position `i`.
    fn at(&self, i: usize) -> (r: T)
        requires
            self.wf(),
            (i as int) < self@.len(),
        ensures
            r == self@[i as int],
    {
        let f = self.front.size();
        if i < f {
            self.front.get(f - i - 1).unwrap()
        } else {
            self.back.get(i - f).unwrap()
        }
    }

    /// The element at position `i`; rejects an `i` at or beyond the size.
    pub fn get(&self, i: usize) -> (r: Result<T, IndexOutOfRange>)
        requires
            self.wf(),
        ensures
            i < self@.len() ==> r == Ok::<T, IndexOutOfRange>(self@[i as int]),
            i >= self@.len() ==> r is Err,
    {
        let f = self.front.size();
        let bz = self.back.size();
        if i >= f + bz {
            return Err(IndexOutOfRange);
        }
        Ok(self.at(i))
    }

    /// Replaces the element at position `i` by `x`; rejects an `i` at or
    /// beyond the size.
    pub fn set(&mut self, i: usize, x: T) -> (r: Result<(), IndexOutOfRange>)
        requires
            old(self).wf(),
        ensures
            final(self).wf(),
            i < old(self)@.len() ==> r is Ok && final(self)@ == old(self)@.update(
                i as int,
                x,
            ),
            i >= old(self)@.len() ==> r is Err && final(self)@ == old(self)@,
    {
        let f = self.front.size();
        let bz = self.back.size();
        if i >= f + bz {
            return Err(IndexOutOfRange);
        }
        if i < f {
            let res = self.front.set(f - i - 1, x);
            proof {
                assert(self@ =~= old(self)@.update(i as int, x));
            }
        } else {
            let res = self.back.set(i - f, x);
            proof {
                assert(self@ =~= old(self)@.update(i as int, x));
            }
        }
        Ok(())
    }

    /// Rebuilds the two halves to equal size when one is more than three
    /// times the other; the contents are unchanged.
    fn balance(&mut self)
        requires
            old(self).wf(),
        ensures
            final(self).wf(),
            final(self)@ == old(self)@,
    {
        let f = self.front.size();
        let bz = self.back.size();
        if 3 * (f as u128) < (bz as u128) || 3 * (bz as u128) < (f as u128) {
            let n = f + bz;
            let nf = n / 2;
            let nb = n - nf;
            let ghost v0 = self@;
            let mut new_front: ArrayStack<T> = ArrayStack::new(if nf == 0 {
                1
            } else {
                2 * nf
            });
            let mut t: usize = 0;
            while t < nf
                invariant
                    self == old(self),
                    old(self).wf(),
                    t <= nf,
                    nf <= v0.len(),
                    v0 == self@,
                    v0.len() <= usize::MAX / 2,
                    new_front.wf(),
                    new_front@.len() == t,
                    forall|p: int| 0 <= p < t ==> new_front@[p] == v0[nf - 1 - p],
                decreases nf - t,
            {
                let v = self.at(nf - 1 - t);
                let res = new_front.add(t, v);
                t += 1;
            }
            let mut new_back: ArrayStack<T> = ArrayStack::new(if nb == 0 {
                1
            } else {
                2 * nb
            });
            let mut t2: usize = 0;
            while t2 < nb
                invariant
                    self == old(self),
                    old(self).wf(),
                    t2 <= nb,
                    nf + nb == v0.len(),
                    v0 == self@,
                    v0.len() <= usize::MAX / 2,
                    new_back.wf(),
                    new_back@.len() == t2,
                    forall|p: int| 0 <= p < t2 ==> new_back@[p] == v0[nf + p],
                decreases nb - t2,
            {
                let v = self.at(nf + t2);
                let res = new_back.add(t2, v);
                t2 += 1;
            }
            self.front = new_front;
            self.back = new_back;
            proof {
                assert(self@ =~= v0);
            }
        }
    }

    /// Inserts `x` before position `i`, into whichever half owns the
    /// position, then rebalances; rejects an `i` beyond the current size.
    #[verifier::rlimit(80)]
    pub fn add(&mut self, i: usize, x: T) -> (r: Result<(), IndexOutOfRange>)
        requires
            old(self).wf(),
            old(self)@.len() < usize::MAX / 2,
        ensures
            final(self).wf(),
            i <= old(self)@.len() ==> r is Ok && final(self)@ == old(self)@.insert(
                i as int,
                x,
            ),
            i > old(self)@.len() ==> r is Err && final(self)@ == old(self)@,
    {
        let f = self.front.size();
        let bz = self.back.size();
        if i > f + bz {
            return Err(IndexOutOfRange);
        }
        let ghost v0 = self@;
        if i < f {
            let res = self.front.add(f - i, x);
            proof {
                old(self).front@.insert_ensures(f - i, x);
                assert(self@ =~= v0.insert(i as int, x)) by {
                    v0.insert_ensures(i as int, x);
                }
            }
        } else {
            let res = self.back.add(i - f, x);
            proof {
                old(self).back@.insert_ensures(i - f, x);
                assert(self@ =~= v0.insert(i as int, x)) by {
                    v0.insert_ensures(i as int, x);
                }
            }
        }
        self.balance();
        Ok(())
    }

    /// Removes and returns the element at position `i` from whichever half
    /// owns it, then rebalances; rejects an `i` at or beyond the size.
    pub fn remove(&mut self, i: usize) -> (r: Result<T, IndexOutOfRange>)
        requires
            old(self).wf(),
        ensures
            final(self).wf(),
            i < old(self)@.len() ==> r == Ok::<T, IndexOutOfRange>(old(self)@[i as int])
                && final(self)@ == old(self)@.remove(i as int),
            i >= old(self)@.len() ==> r is Err && final(self)@ == old(self)@,
    {
        let f = self.front.size();
        let bz = self.back.size();
        if i >= f + bz {
            return Err(IndexOutOfRange);
        }
        let ghost v0 = self@;
        let x: T;
        if i < f {
            x = self.front.remove(f - i - 1).unwrap();
            proof {
                old(self).front@.remove_ensures(f - i - 1);
                assert(x == v0[i as int]);
                assert(self@ =~= v0.remove(i as int)) by {
                    v0.remove_ensures(i as int);
                }
            }
        } else {
            x = self.back.remove(i - f).unwrap();
            proof {
                old(self).back@.remove_ensures(i - f);
                assert(x == v0[i as int]);
                assert(self@ =~= v0.remove(i as int)) by {
                    v0.remove_ensures(i as int);
                }
            }
        }
        self.balance();
        Ok(x)
    }
}

} // verus!
