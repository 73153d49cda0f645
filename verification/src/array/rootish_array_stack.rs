//! A rootish array stack: element `i` lives in block `b` at offset
//! `i - b(b+1)/2`, where block `b` has length `b + 1`. With `r` blocks the
//! structure wastes O(sqrt(n)) space while keeping O(1) random access.

use vstd::prelude::*;
use vstd::pervasive::VecAdditionalExecFns;
use crate::IndexOutOfRange;
use crate::array::allocate_heap;

verus! {

/// The triangular number: total capacity of the first `b` blocks.
pub open spec fn tri(b: int) -> int
    decreases b,
{
    if b <= 0 {
        0
    } else {
        tri(b - 1) + b
    }
}

/// Triangular numbers grow monotonically.
proof fn lemma_tri_mono(a: int, b: int)
    requires
        0 <= a <= b,
    ensures
        tri(a) <= tri(b),
    decreases b,
{
    if a < b {
        lemma_tri_mono(a, b - 1);
    }
}

/// A block count never exceeds its capacity.
proof fn lemma_tri_ge(b: int)
    requires
        0 <= b,
    ensures
        b <= tri(b),
    decreases b,
{
    if b > 0 {
        lemma_tri_ge(b - 1);
    }
}

/// The decomposition of a global index into block and offset is unique.
proof fn lemma_tri_inj(b1: int, j1: int, b2: int, j2: int)
    requires
        0 <= j1 <= b1,
        0 <= j2 <= b2,
        tri(b1) + j1 == tri(b2) + j2,
    ensures
        b1 == b2 && j1 == j2,
{
    if b1 < b2 {
        lemma_tri_mono(b1 + 1, b2);
    } else if b2 < b1 {
        lemma_tri_mono(b2 + 1, b1);
    }
}

/// Blocks of growing length and the element count; the contents, as a
/// sequence, are carried alongside and tied to the blocks slot by slot.
pub struct RootishArrayStack<T> {
    blocks: Vec<Vec<Option<T>>>,
    n: usize,
    contents: Ghost<Seq<T>>,
}

impl<T> View for RootishArrayStack<T> {
    type V = Seq<T>;

    closed spec fn view(&self) -> Seq<T> {
        self.contents@
    }
}

impl<T: Copy> RootishArrayStack<T> {
    /// Number of blocks.
    pub closed spec fn block_count(&self) -> int {
        self.blocks@.len() as int
    }

    /// Block `b` has length `b + 1`, the blocks can hold the elements, and
    /// the total capacity stays within machine range.
    spec fn shape_ok(&self) -> bool {
        let r = self.blocks@.len() as int;
        &&& forall|bi: int| 0 <= bi < r ==> (#[trigger] self.blocks@[bi])@.len() == bi + 1
        &&& self.n <= tri(r)
        &&& tri(r) <= usize::MAX
        &&& self.n == self.contents@.len()
    }

    /// Slot `(bi, jj)` holds element `tri(bi) + jj` of the contents.
    spec fn tied(&self) -> bool {
        forall|bi: int, jj: int|
            0 <= bi < self.blocks@.len() && 0 <= jj <= bi && tri(bi) + jj < self.n
                ==> (#[trigger] self.blocks@[bi]@[jj]) == Some(self.contents@[tri(bi) + jj])
    }

    /// The whole structural invariant.
    pub closed spec fn wf(&self) -> bool {
        self.shape_ok() && self.tied()
    }

    pub fn new() -> (s: Self)
        ensures
            s.wf(),
            s@ == Seq::<T>::empty(),
    {
        RootishArrayStack { blocks: Vec::new(), n: 0, contents: Ghost(Seq::empty()) }
    }

    /// Number of blocks allocated.
    pub fn len(&self) -> (r: usize)
        ensures
            r as int == self.block_count(),
    {
        self.blocks.len()
    }

    /// Number of elements held.
    pub fn size(&self) -> (r: usize)
        requires
            self.wf(),
        ensures
            r == self@.len(),
    {
        self.n
    }

    /// The capacity of the first `b` blocks.
    fn tri_of(&self, b: usize) -> (t: usize)
        requires
            self.shape_ok(),
            b as int <= self.block_count(),
        ensures
            t as int == tri(b as int),
    {
        let mut t: usize = 0;
        let mut idx: usize = 0;
        while idx < b
            invariant
                self.shape_ok(),
                idx <= b,
                (b as int) <= self.block_count(),
                t as int == tri(idx as int),
            decreases b - idx,
        {
            proof {
                lemma_tri_mono(idx + 1, self.block_count());
            }
            t = t + (idx + 1);
            idx = idx + 1;
        }
        t
    }

    /// The block holding global index `i`.
    pub fn i2b(i: usize) -> (b: usize)
        ensures
            tri(b as int) <= i as int,
            (i as int) < tri(b as int) + b + 1,
    {
        let mut b: usize = 0;
        let mut t: usize = 0;
        while i - t > b
            invariant
                t as int == tri(b as int),
                t <= i,
                b <= t || b == 0,
            decreases i - t,
        {
            t = t + (b + 1);
            b = b + 1;
        }
        b
    }

    /// Splits global index `i` into block and offset.
    fn locate(&self, i: usize) -> (r: (usize, usize))
        requires
            self.shape_ok(),
            (i as int) < tri(self.block_count()),
        ensures
            0 <= r.1 <= r.0,
            (r.0 as int) < self.block_count(),
            tri(r.0 as int) + r.1 == i as int,
    {
        let mut b: usize = 0;
        let mut t: usize = 0;
        while i - t > b
            invariant
                t as int == tri(b as int),
                t <= i,
                b <= t || b == 0,
            decreases i - t,
        {
            t = t + (b + 1);
            b = b + 1;
        }
        proof {
            if b as int >= self.block_count() {
                lemma_tri_mono(self.block_count(), b as int);
            }
        }
        (b, i - t)
    }

    /// Reads the element at global index `i`.
    fn read(&self, i: usize) -> (r: T)
        requires
            self.wf(),
            (i as int) < self@.len(),
        ensures
            r == self@[i as int],
    {
        let (b, j) = self.locate(i);
        proof {
            assert(self.blocks@[b as int]@[j as int] == Some(self.contents@[tri(b as int) + j]));
        }
        self.blocks[b][j].unwrap()
    }

    /// Overwrites the element at global index `i` with `x`.
    fn write(&mut self, i: usize, x: T)
        requires
            old(self).wf(),
            (i as int) < old(self)@.len(),
        ensures
            final(self).wf(),
            final(self)@ == old(self)@.update(i as int, x),
            final(self).n == old(self).n,
            final(self).block_count() == old(self).block_count(),
    {
        let (b, j) = self.locate(i);
        let mut blk: Vec<Option<T>> = Vec::new();
        self.blocks.set_and_swap(b, &mut blk);
        blk.set(j, Some(x));
        let ghost blkg = blk@;
        self.blocks.set(b, blk);
        proof {
            self.contents@ = self.contents@.update(i as int, x);
        }
        proof {
            assert(self.contents@ == old(self).contents@.update(i as int, x));
            assert(self.blocks@[b as int]@ == blkg);
            assert(blkg == old(self).blocks@[b as int]@.update(j as int, Some(x)));
            assert forall|bi: int, jj: int|
                0 <= bi < self.blocks@.len() && 0 <= jj <= bi && tri(bi) + jj
                    < self.n implies (#[trigger] self.blocks@[bi]@[jj]) == Some(
                self.contents@[tri(bi) + jj],
            ) by {
                lemma_tri_ge(bi);
                if tri(bi) + jj == i as int {
                    lemma_tri_inj(bi, jj, b as int, j as int);
                    assert(self.blocks@[bi]@[jj] == Some(x));
                    assert(self.contents@[tri(bi) + jj] == x);
                } else {
                    assert(old(self).blocks@[bi]@[jj] == Some(old(self).contents@[tri(bi) + jj]));
                    assert(old(self).contents@.update(i as int, x)[tri(bi) + jj] == old(
                        self,
                    ).contents@[tri(bi) + jj]);
                    assert(self.contents@[tri(bi) + jj] == old(self).contents@[tri(bi) + jj]);
                    if bi == b as int {
                        assert(jj != j as int);
                        assert(self.blocks@[bi]@[jj] == old(self).blocks@[bi]@[jj]);
                    } else {
                        assert(self.blocks@[bi] == old(self).blocks@[bi]);
                    }
                }
            }
        }
    }

    /// Appends one block, growing the capacity by the new block's length.
    pub fn grow(&mut self)
        requires
            old(self).wf(),
            tri(old(self).block_count()) + old(self).block_count() + 1 <= usize::MAX,
        ensures
            final(self).wf(),
            final(self)@ == old(self)@,
            final(self).block_count() == old(self).block_count() + 1,
    {
        let r = self.blocks.len();
        let nb: Vec<Option<T>> = allocate_heap(r + 1);
        self.blocks.push(nb);
        proof {
            let r2 = self.blocks@.len() as int;
            assert(tri(r2) == tri(r2 - 1) + r2);
            assert forall|bi: int, jj: int|
                0 <= bi < self.blocks@.len() && 0 <= jj <= bi && tri(bi) + jj
                    < self.n implies (#[trigger] self.blocks@[bi]@[jj]) == Some(
                self.contents@[tri(bi) + jj],
            ) by {
                lemma_tri_ge(bi);
                if bi < r2 - 1 {
                    assert(old(self).blocks@[bi]@[jj] == Some(old(self).contents@[tri(bi) + jj]));
                } else {
                    lemma_tri_mono(r2 - 1, bi);
                }
            }
        }
    }

    /// Drops trailing blocks while two whole blocks lie beyond the elements.
    pub fn shrink(&mut self)
        requires
            old(self).wf(),
        ensures
            final(self).wf(),
            final(self)@ == old(self)@,
    {
        loop
            invariant
                self.wf(),
                self@ == old(self)@,
                self.n == old(self).n,
            decreases self.block_count(),
        {
            let r = self.blocks.len();
            if r < 2 {
                break ;
            }
            let t = self.tri_of(r - 2);
            if t < self.n {
                break ;
            }
            let ghost pre = *self;
            self.blocks.pop();
            proof {
                lemma_tri_mono((r - 2) as int, (r - 1) as int);
                lemma_tri_mono((r - 1) as int, r as int);
                assert forall|bi: int, jj: int|
                    0 <= bi < self.blocks@.len() && 0 <= jj <= bi && tri(bi) + jj
                        < self.n implies (#[trigger] self.blocks@[bi]@[jj]) == Some(
                    self.contents@[tri(bi) + jj],
                ) by {
                    assert(pre.blocks@[bi]@[jj] == Some(pre.contents@[tri(bi) + jj]));
                }
            }
        }
    }

    /// The element at global index `i`; rejects an `i` at or beyond the
    /// size.
    pub fn get(&self, i: usize) -> (r: Result<T, IndexOutOfRange>)
        requires
            self.wf(),
        ensures
            i < self@.len() ==> r == Ok::<T, IndexOutOfRange>(self@[i as int]),
            i >= self@.len() ==> r is Err,
    {
        if i >= self.n {
            return Err(IndexOutOfRange);
        }
        Ok(self.read(i))
    }

    /// Replaces the element at global index `i` by `x`; rejects an `i` at
    /// or beyond the size.
    pub fn set(&mut self, i: usize, x: T) -> (r: Result<(), IndexOutOfRange>)
        requires
            old(self).wf(),
        ensures
            final(self).wf(),
            i < old(self)@.len() ==> r is Ok && final(self)@ == old(self)@.update(
                i as int,
                x,
            ),
            i >= old(self)@.len() ==> r is Err && final(self)@ == old(self)@,
    {
        if i >= self.n {
            return Err(IndexOutOfRange);
        }
        self.write(i, x);
        Ok(())
    }

    /// Extends the contents by one slot holding `x`, growing a block first
    /// when all slots are full.
    fn append_slot(&mut self, x: T)
        requires
            old(self).wf(),
            old(self)@.len() < usize::MAX / 2,
        ensures
            final(self).wf(),
            final(self)@ == old(self)@.push(x),
            final(self).n == old(self).n + 1,
    {
        let r = self.blocks.len();
        let t = self.tri_of(r);
        if t <= self.n {
            proof {
                lemma_tri_ge(r as int);
            }
            self.grow();
        }
        let ghost pre = *self;
        let (b, j) = self.locate(self.n);
        let mut blk: Vec<Option<T>> = Vec::new();
        self.blocks.set_and_swap(b, &mut blk);
        blk.set(j, Some(x));
        let ghost blkg = blk@;
        self.blocks.set(b, blk);
        self.n += 1;
        proof {
            self.contents@ = self.contents@.push(x);
        }
        proof {
            assert(self.blocks@[b as int]@ == blkg);
            assert(blkg == pre.blocks@[b as int]@.update(j as int, Some(x)));
            assert forall|bi: int, jj: int|
                0 <= bi < self.blocks@.len() && 0 <= jj <= bi && tri(bi) + jj
                    < self.n implies (#[trigger] self.blocks@[bi]@[jj]) == Some(
                self.contents@[tri(bi) + jj],
            ) by {
                lemma_tri_ge(bi);
                if tri(bi) + jj == pre.n as int {
                    lemma_tri_inj(bi, jj, b as int, j as int);
                    assert(self.blocks@[bi]@[jj] == Some(x));
                    assert(self.contents@[tri(bi) + jj] == x);
                } else {
                    assert(pre.blocks@[bi]@[jj] == Some(pre.contents@[tri(bi) + jj]));
                    assert(self.contents@[tri(bi) + jj] == pre.contents@[tri(bi) + jj]);
                    if bi == b as int {
                        assert(jj != j as int);
                        assert(self.blocks@[bi]@[jj] == pre.blocks@[bi]@[jj]);
                    } else {
                        assert(self.blocks@[bi] == pre.blocks@[bi]);
                    }
                }
            }
            assert(self@ =~= pre@.push(x));
        }
    }

    /// Inserts `x` before global index `i`, shifting positions `i ..` up by
    /// one; rejects an `i` beyond the current size.
    pub fn add(&mut self, i: usize, x: T) -> (r: Result<(), IndexOutOfRange>)
        requires
            old(self).wf(),
            old(self)@.len() < usize::MAX / 2,
        ensures
            final(self).wf(),
            i <= old(self)@.len() ==> r is Ok && final(self)@ == old(self)@.insert(
                i as int,
                x,
            ),
            i > old(self)@.len() ==> r is Err && final(self)@ == old(self)@,
    {
        if i > self.n {
            return Err(IndexOutOfRange);
        }
        let ghost c0 = self@;
        let ghost n0 = self.n as int;
        self.append_slot(x);
        let mut k: usize = self.n - 1;
        while k > i
            invariant
                self.wf(),
                i <= k <= n0,
                self.n == n0 + 1,
                self@.len() == n0 + 1,
                c0.len() == n0,
                forall|p: int| 0 <= p <= k && p < n0 ==> self@[p] == c0[p],
                forall|p: int| k < p <= n0 ==> self@[p] == c0[p - 1],
            decreases k,
        {
            let v = self.read(k - 1);
            self.write(k, v);
            k -= 1;
        }
        self.write(i, x);
        proof {
            assert(self@ =~= c0.insert(i as int, x));
        }
        Ok(())
    }

    /// Removes and returns the element at global index `i`, shifting
    /// positions `i + 1 ..` down by one; rejects an `i` at or beyond the
    /// size.
    pub fn remove(&mut self, i: usize) -> (r: Result<T, IndexOutOfRange>)
        requires
            old(self).wf(),
        ensures
            final(self).wf(),
            i < old(self)@.len() ==> r == Ok::<T, IndexOutOfRange>(old(self)@[i as int])
                && final(self)@ == old(self)@.remove(i as int),
            i >= old(self)@.len() ==> r is Err && final(self)@ == old(self)@,
    {
        if i >= self.n {
            return Err(IndexOutOfRange);
        }
        let ghost c0 = self@;
        let ghost n0 = self.n as int;
        let x = self.read(i);
        let mut k: usize = i;
        while k + 1 < self.n
            invariant
                self.wf(),
                i <= k < n0,
                self.n == n0,
                self@.len() == n0,
                c0.len() == n0,
                forall|p: int| 0 <= p < i ==> self@[p] == c0[p],
                forall|p: int| i <= p < k ==> self@[p] == c0[p + 1],
                forall|p: int| k <= p < n0 ==> self@[p] == c0[p],
            decreases n0 - k,
        {
            let v = self.read(k + 1);
            self.write(k, v);
            k += 1;
        }
        // retire the last slot
        let ghost mid = *self;
        self.n -= 1;
        proof {
            self.contents@ = self.contents@.drop_last();
            assert forall|bi: int, jj: int|
                0 <= bi < self.blocks@.len() && 0 <= jj <= bi && tri(bi) + jj
                    < self.n implies (#[trigger] self.blocks@[bi]@[jj]) == Some(
                self.contents@[tri(bi) + jj],
            ) by {
                lemma_tri_ge(bi);
                assert(mid.blocks@[bi]@[jj] == Some(mid.contents@[tri(bi) + jj]));
                assert(self.contents@[tri(bi) + jj] == mid.contents@[tri(bi) + jj]);
            }
            assert(self@ =~= c0.remove(i as int));
        }
        self.shrink();
        Ok(x)
    }
}

} // verus!
