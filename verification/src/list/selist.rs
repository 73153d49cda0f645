//! The space-efficient list: a doubly linked chain of bounded circular
//! blocks, each holding between `b - 1` and `b + 1` elements (the tail block
//! between 1 and `b + 1`), giving array-like density with O(1)-amortized
//! arbitrary-position insert and delete through local redistribution
//! ("spread" on overflow, "gather" on underflow) instead of global shifting.
//!
//! The chain is an arena of nodes addressed by stable indices: `prev` and
//! `next` are optional handles into the arena, and removing a node returns
//! its slot to a free list, so no reference can dangle.

pub mod bdeque;

use vstd::prelude::*;
use vstd::pervasive::VecAdditionalExecFns;
use crate::IndexOutOfRange;
use crate::facts::lemma_insert_in_prefix;
use crate::facts::lemma_insert_in_suffix;
use crate::facts::lemma_remove_in_prefix;
use crate::facts::lemma_remove_in_suffix;
use crate::facts::lemma_update_in_prefix;
use crate::facts::lemma_update_in_suffix;
use crate::facts::lemma_insert_insert_commute;
use crate::facts::lemma_remove_insert_same;
use bdeque::BDeque;

verus! {

/// The concatenation of the blocks `bs[k..]`, front to back.
pub open spec fn cat<T>(bs: Seq<Seq<T>>, k: int) -> Seq<T>
    decreases bs.len() - k,
{
    if k < 0 || k >= bs.len() {
        Seq::empty()
    } else {
        bs[k] + cat(bs, k + 1)
    }
}

/// Blocks that agree from position `m` on have the same concatenation
/// from `m`.
proof fn lemma_cat_congruence<T>(bs1: Seq<Seq<T>>, bs2: Seq<Seq<T>>, m: int)
    requires
        bs1.len() == bs2.len(),
        forall|p: int| m <= p < bs1.len() ==> bs1[p] == bs2[p],
    ensures
        cat(bs1, m) == cat(bs2, m),
    decreases bs1.len() - m,
{
    if 0 <= m < bs1.len() {
        lemma_cat_congruence(bs1, bs2, m + 1);
    }
}

/// A later suffix of the concatenation is no longer than an earlier one.
proof fn lemma_cat_len_mono<T>(bs: Seq<Seq<T>>, m: int, k: int)
    requires
        0 <= m <= k,
    ensures
        cat(bs, k).len() <= cat(bs, m).len(),
    decreases k - m,
{
    if m < k {
        lemma_cat_len_mono(bs, m + 1, k);
    }
}

/// Where element `off` of block `k` stands in the concatenation from `m`.
proof fn lemma_cat_index<T>(bs: Seq<Seq<T>>, m: int, k: int, off: int)
    requires
        0 <= m <= k < bs.len(),
        0 <= off < bs[k].len(),
    ensures
        0 <= cat(bs, m).len() - cat(bs, k).len() + off < cat(bs, m).len(),
        cat(bs, m)[cat(bs, m).len() - cat(bs, k).len() + off] == bs[k][off],
    decreases k - m,
{
    if m < k {
        lemma_cat_index(bs, m + 1, k, off);
    }
}

/// Inserting within block `k` inserts within the concatenation, at the
/// position given by the preceding blocks' total length plus the offset.
proof fn lemma_cat_insert<T>(bs: Seq<Seq<T>>, m: int, k: int, off: int, x: T)
    requires
        0 <= m <= k < bs.len(),
        0 <= off <= bs[k].len(),
    ensures
        0 <= cat(bs, m).len() - cat(bs, k).len() + off <= cat(bs, m).len(),
        cat(bs.update(k, bs[k].insert(off, x)), m) == cat(bs, m).insert(
            cat(bs, m).len() - cat(bs, k).len() + off,
            x,
        ),
    decreases k - m,
{
    let bs2 = bs.update(k, bs[k].insert(off, x));
    if m == k {
        lemma_cat_congruence(bs2, bs, k + 1);
        lemma_insert_in_prefix(bs[k], cat(bs, k + 1), off, x);
    } else {
        lemma_cat_insert(bs, m + 1, k, off, x);
        lemma_cat_len_mono(bs, m + 1, k);
        let pos2 = cat(bs, m + 1).len() - cat(bs, k).len() + off;
        lemma_insert_in_suffix(bs[m], cat(bs, m + 1), pos2, x);
    }
}

/// Removing within block `k` removes from the concatenation, at the position
/// given by the preceding blocks' total length plus the offset.
proof fn lemma_cat_remove<T>(bs: Seq<Seq<T>>, m: int, k: int, off: int)
    requires
        0 <= m <= k < bs.len(),
        0 <= off < bs[k].len(),
    ensures
        0 <= cat(bs, m).len() - cat(bs, k).len() + off < cat(bs, m).len(),
        cat(bs, m)[cat(bs, m).len() - cat(bs, k).len() + off] == bs[k][off],
        cat(bs.update(k, bs[k].remove(off)), m) == cat(bs, m).remove(
            cat(bs, m).len() - cat(bs, k).len() + off,
        ),
    decreases k - m,
{
    lemma_cat_index(bs, m, k, off);
    let bs2 = bs.update(k, bs[k].remove(off));
    if m == k {
        lemma_cat_congruence(bs2, bs, k + 1);
        lemma_remove_in_prefix(bs[k], cat(bs, k + 1), off);
    } else {
        lemma_cat_remove(bs, m + 1, k, off);
        let pos2 = cat(bs, m + 1).len() - cat(bs, k).len() + off;
        lemma_remove_in_suffix(bs[m], cat(bs, m + 1), pos2);
    }
}

/// Updating within block `k` updates the concatenation, at the position
/// given by the preceding blocks' total length plus the offset.
proof fn lemma_cat_update<T>(bs: Seq<Seq<T>>, m: int, k: int, off: int, x: T)
    requires
        0 <= m <= k < bs.len(),
        0 <= off < bs[k].len(),
    ensures
        0 <= cat(bs, m).len() - cat(bs, k).len() + off < cat(bs, m).len(),
        cat(bs.update(k, bs[k].update(off, x)), m) == cat(bs, m).update(
            cat(bs, m).len() - cat(bs, k).len() + off,
            x,
        ),
    decreases k - m,
{
    lemma_cat_index(bs, m, k, off);
    let bs2 = bs.update(k, bs[k].update(off, x));
    if m == k {
        lemma_cat_congruence(bs2, bs, k + 1);
        lemma_update_in_prefix(bs[k], cat(bs, k + 1), off, x);
    } else {
        lemma_cat_update(bs, m + 1, k, off, x);
        let pos2 = cat(bs, m + 1).len() - cat(bs, k).len() + off;
        lemma_update_in_suffix(bs[m], cat(bs, m + 1), pos2, x);
    }
}

/// Appending a block appends its contents to the concatenation.
proof fn lemma_cat_push<T>(bs: Seq<Seq<T>>, nb: Seq<T>, m: int)
    requires
        0 <= m <= bs.len(),
    ensures
        cat(bs.push(nb), m) == cat(bs, m) + nb,
    decreases bs.len() - m,
{
    if m == bs.len() {
        assert(cat(bs, m) =~= Seq::<T>::empty());
        assert(cat(bs.push(nb), m + 1) =~= Seq::<T>::empty());
        assert(cat(bs.push(nb), m) =~= cat(bs, m) + nb);
    } else {
        lemma_cat_push(bs, nb, m + 1);
        assert((bs[m] + cat(bs, m + 1)) + nb =~= bs[m] + (cat(bs, m + 1) + nb));
    }
}

/// Dropping an empty last block leaves the concatenation unchanged.
proof fn lemma_cat_drop_last<T>(bs: Seq<Seq<T>>, m: int)
    requires
        bs.len() > 0,
        bs.last().len() == 0,
        0 <= m <= bs.len() - 1,
    ensures
        cat(bs.drop_last(), m) == cat(bs, m),
    decreases bs.len() - m,
{
    if m == bs.len() - 1 {
        assert(cat(bs.drop_last(), m) =~= Seq::<T>::empty());
        assert(cat(bs, m + 1) =~= Seq::<T>::empty());
        assert(cat(bs, m) =~= bs[m] + cat(bs, m + 1));
        assert(cat(bs, m) =~= Seq::<T>::empty());
    } else {
        lemma_cat_drop_last(bs, m + 1);
    }
}

/// The concatenation splits at any block boundary.
proof fn lemma_cat_split<T>(bs: Seq<Seq<T>>, k: int)
    requires
        0 <= k <= bs.len(),
    ensures
        cat(bs, 0) == cat(bs.take(k), 0) + cat(bs, k),
    decreases k,
{
    if k == 0 {
        assert(cat(bs, 0) =~= cat(bs.take(0), 0) + cat(bs, 0));
    } else {
        lemma_cat_split(bs, k - 1);
        // peel block k - 1 off the suffix and append it to the prefix
        let pre = bs.take(k - 1);
        let pre2 = bs.take(k);
        lemma_cat_push(pre, bs[k - 1], 0);
        assert(pre.push(bs[k - 1]) =~= pre2);
        assert(cat(bs, k - 1) == bs[k - 1] + cat(bs, k));
        assert((cat(pre, 0) + bs[k - 1]) + cat(bs, k) =~= cat(pre, 0) + (bs[k - 1] + cat(bs, k)));
    }
}

/// Equal concatenations with equal leading blocks have equal suffixes.
proof fn lemma_cat_cancel<T>(bs1: Seq<Seq<T>>, bs2: Seq<Seq<T>>, k: int)
    requires
        0 <= k <= bs1.len(),
        k <= bs2.len(),
        forall|p: int| 0 <= p < k ==> bs1[p] == bs2[p],
        cat(bs1, 0) == cat(bs2, 0),
    ensures
        cat(bs1, k) == cat(bs2, k),
{
    lemma_cat_split(bs1, k);
    lemma_cat_split(bs2, k);
    assert(bs1.take(k) =~= bs2.take(k));
    let pre = cat(bs1.take(k), 0);
    let s1 = cat(bs1, k);
    let s2 = cat(bs2, k);
    assert(cat(bs2, 0) == pre + s2);
    assert((pre + s1).len() == pre.len() + s1.len());
    assert((pre + s2).len() == pre.len() + s2.len());
    assert(s1.len() == s2.len());
    assert forall|i: int| 0 <= i < s1.len() implies s1[i] == s2[i] by {
        assert((pre + s1)[pre.len() + i] == s1[i]);
        assert((pre + s2)[pre.len() + i] == s2[i]);
    }
    assert(s1 =~= s2);
}

/// One link of the chain: a block of elements plus its two neighbour
/// relations, stored as stable arena handles.
pub struct Node<T> {
    d: BDeque<T>,
    prev: Option<usize>,
    next: Option<usize>,
}

impl<T> Node<T> {
    /// The block's contents.
    pub closed spec fn contents(&self) -> Seq<T> {
        self.d@
    }
}

impl<T: Copy> Node<T> {
    /// A fresh unlinked node whose block has capacity `b + 1`.
    pub fn new(b: usize) -> (s: Self)
        requires
            b < usize::MAX / 2,
        ensures
            s.contents() == Seq::<T>::empty(),
    {
        Node { d: BDeque::new(b), prev: None, next: None }
    }
}

/// A transient locator: the arena handle of the node owning a sought global
/// index, and the offset of that index within the node's block. It is
/// computed by one operation and never outlives it.
pub struct Cursor {
    node: usize,
    j: usize,
    pos: Ghost<int>,
}

impl Cursor {
    /// The arena handle of the located node.
    pub closed spec fn spec_node(&self) -> usize {
        self.node
    }

    /// The arena handle of the located node.
    pub fn node_ptr(&self) -> (r: usize)
        ensures
            r == self.spec_node(),
    {
        self.node
    }
}

/// The space-efficient list: an arena of chain nodes, the handles of the
/// first and last node, the element count `n`, the block parameter `b`, and
/// the node count.
pub struct SEList<T> {
    nodes: Vec<Option<Node<T>>>,
    free: Vec<usize>,
    head: Option<usize>,
    tail: Option<usize>,
    n: usize,
    b: usize,
    node_size: usize,
    order: Ghost<Seq<usize>>,
}

impl<T> View for SEList<T> {
    type V = Seq<T>;

    closed spec fn view(&self) -> Seq<T> {
        cat(self.blocks(), 0)
    }
}

impl<T> SEList<T> {
    /// The chain order: arena handles from head to tail.
    spec fn ord(&self) -> Seq<usize> {
        self.order@
    }

    /// The node at chain position `k`.
    spec fn node_at(&self, k: int) -> Node<T> {
        self.nodes@[self.ord()[k] as int].unwrap()
    }

    /// The blocks' contents in chain order.
    spec fn blocks(&self) -> Seq<Seq<T>> {
        Seq::new(self.ord().len(), |k: int| self.node_at(k).d@)
    }

    /// Number of blocks in the chain.
    pub closed spec fn block_count(&self) -> int {
        self.ord().len() as int
    }

    /// Element count of the block at chain position `k`.
    pub closed spec fn block_len(&self, k: int) -> int {
        self.blocks()[k].len() as int
    }

    /// The block-capacity parameter `b`.
    pub closed spec fn param(&self) -> int {
        self.b as int
    }

    /// Chain-structure invariant: the order is a duplicate-free list of live
    /// arena slots whose `prev`/`next` handles link consecutive positions,
    /// `head` and `tail` name its ends, every block is a well-formed buffer
    /// of capacity `b + 1`, and the free list names exactly unused slots.
    spec fn links_ok(&self) -> bool {
        let len = self.ord().len() as int;
        &&& 1 <= self.b < usize::MAX / 2
        &&& self.node_size == len
        &&& forall|k: int|
            0 <= k < len ==> (#[trigger] self.ord()[k] as int) < self.nodes@.len()
                && self.nodes@[self.ord()[k] as int] is Some
        &&& forall|k1: int, k2: int|
            0 <= k1 < k2 < len ==> self.ord()[k1] != self.ord()[k2]
        &&& forall|k: int|
            0 <= k < len ==> (#[trigger] self.node_at(k)).d.wf() && self.node_at(k).d.capacity()
                == self.b + 1
        &&& forall|k: int|
            0 <= k < len - 1 ==> (#[trigger] self.node_at(k)).next == Some(self.ord()[k + 1])
        &&& forall|k: int|
            1 <= k < len ==> (#[trigger] self.node_at(k)).prev == Some(self.ord()[k - 1])
        &&& (len > 0 ==> self.node_at(0).prev is None && self.node_at(len - 1).next is None)
        &&& self.head == (if len == 0 {
            None
        } else {
            Some(self.ord()[0])
        })
        &&& self.tail == (if len == 0 {
            None
        } else {
            Some(self.ord()[len - 1])
        })
        &&& forall|i: int|
            0 <= i < self.free@.len() ==> (#[trigger] self.free@[i] as int) < self.nodes@.len()
                && self.nodes@[self.free@[i] as int] is None
        &&& forall|i1: int, i2: int|
            0 <= i1 < i2 < self.free@.len() ==> self.free@[i1] != self.free@[i2]
        &&& self.node_size + self.free@.len() <= self.nodes@.len()
    }

    /// Size invariant: every non-tail block holds between `b - 1` and
    /// `b + 1` elements, the tail block is nonempty (and at most `b + 1`),
    /// and `n` is the total element count.
    spec fn sizes_ok(&self) -> bool {
        let len = self.block_count();
        &&& forall|k: int|
            0 <= k < len - 1 ==> self.param() - 1 <= #[trigger] self.block_len(k) <= self.param()
                + 1
        &&& (len > 0 ==> 1 <= self.block_len(len - 1) <= self.param() + 1)
        &&& self.n == self@.len()
    }

    /// The whole structural invariant; every public operation preserves it.
    pub closed spec fn wf(&self) -> bool {
        self.links_ok() && self.sizes_ok()
    }
}

impl<T: Copy> SEList<T> {
    /// A borrowed view of the node in arena slot `i`.
    fn node_ref(&self, i: usize) -> (r: &Node<T>)
        requires
            (i as int) < self.nodes@.len(),
            self.nodes@[i as int] is Some,
        ensures
            *r == self.nodes@[i as int].unwrap(),
    {
        self.nodes[i].as_ref().unwrap()
    }

    /// Moves the node out of arena slot `i`, leaving the slot empty.
    fn take_node(&mut self, i: usize) -> (nd: Node<T>)
        requires
            (i as int) < old(self).nodes@.len(),
            old(self).nodes@[i as int] is Some,
        ensures
            nd == old(self).nodes@[i as int].unwrap(),
            final(self).nodes@ == old(self).nodes@.update(i as int, None),
            final(self).free == old(self).free,
            final(self).head == old(self).head,
            final(self).tail == old(self).tail,
            final(self).n == old(self).n,
            final(self).b == old(self).b,
            final(self).node_size == old(self).node_size,
            final(self).order == old(self).order,
    {
        let mut slot: Option<Node<T>> = None;
        self.nodes.set_and_swap(i, &mut slot);
        slot.unwrap()
    }

    /// Puts a node into arena slot `i`.
    fn put_node(&mut self, i: usize, nd: Node<T>)
        requires
            (i as int) < old(self).nodes@.len(),
        ensures
            final(self).nodes@ == old(self).nodes@.update(i as int, Some(nd)),
            final(self).free == old(self).free,
            final(self).head == old(self).head,
            final(self).tail == old(self).tail,
            final(self).n == old(self).n,
            final(self).b == old(self).b,
            final(self).node_size == old(self).node_size,
            final(self).order == old(self).order,
    {
        self.nodes.set(i, Some(nd));
    }

    /// Exchanging the block contents of the node at chain position `k` --
    /// links, order, ends and free list untouched -- preserves the chain
    /// structure and updates exactly block `k`.
    proof fn lemma_block_update(pre: Self, post: Self, k: int)
        requires
            pre.links_ok(),
            0 <= k < pre.ord().len(),
            post.nodes@ == pre.nodes@.update(
                pre.ord()[k] as int,
                post.nodes@[pre.ord()[k] as int],
            ),
            post.nodes@[pre.ord()[k] as int] is Some,
            post.nodes@[pre.ord()[k] as int].unwrap().prev == pre.node_at(k).prev,
            post.nodes@[pre.ord()[k] as int].unwrap().next == pre.node_at(k).next,
            post.nodes@[pre.ord()[k] as int].unwrap().d.wf(),
            post.nodes@[pre.ord()[k] as int].unwrap().d.capacity() == pre.b + 1,
            post.order == pre.order,
            post.free == pre.free,
            post.head == pre.head,
            post.tail == pre.tail,
            post.b == pre.b,
            post.node_size == pre.node_size,
        ensures
            post.links_ok(),
            post.blocks() == pre.blocks().update(k, post.node_at(k).d@),
            forall|m: int| 0 <= m < pre.ord().len() && m != k ==> post.node_at(m)
                == pre.node_at(m),
    {
        let len = pre.ord().len() as int;
        let u = pre.ord()[k] as int;
        assert forall|m: int| 0 <= m < len && m != k implies post.node_at(m) == pre.node_at(
            m,
        ) by {
            assert(pre.ord()[m] != pre.ord()[k]);
        }
        assert(post.node_at(k) == post.nodes@[u].unwrap());
        assert(post.blocks() =~= pre.blocks().update(k, post.node_at(k).d@));
    }

    /// An empty list with block parameter `b`.
    pub fn new(b: usize) -> (s: Self)
        requires
            1 <= b,
            b < usize::MAX / 2,
        ensures
            s.wf(),
            s@ == Seq::<T>::empty(),
            s.param() == b,
    {
        let s = SEList {
            nodes: Vec::new(),
            free: Vec::new(),
            head: None,
            tail: None,
            n: 0,
            b,
            node_size: 0,
            order: Ghost(Seq::empty()),
        };
        proof {
            assert(s.blocks() =~= Seq::<Seq<T>>::empty());
            assert(s@ =~= Seq::<T>::empty());
        }
        s
    }

    /// Number of elements held.
    pub fn size(&self) -> (r: usize)
        requires
            self.wf(),
        ensures
            r == self@.len(),
    {
        self.n
    }

    /// Translates the global index `i` into the owning node and the offset
    /// within its block, walking the chain and subtracting each visited
    /// block's size until the target falls within the current block.
    fn get_location(&self, i: usize) -> (cur: Cursor)
        requires
            self.wf(),
            (i as int) < self@.len(),
        ensures
            ({
                let k = cur.pos@;
                &&& 0 <= k < self.block_count()
                &&& cur.node == self.ord()[k]
                &&& (cur.j as int) < self.blocks()[k].len()
                &&& i as int == self@.len() - cat(self.blocks(), k).len() + cur.j
            }),
    {
        proof {
            if self.ord().len() == 0 {
                assert(self@ =~= Seq::<T>::empty());
            }
        }
        let mut u = self.head.unwrap();
        let ghost mut k: int = 0;
        let mut rem = i;
        loop
            invariant
                self.wf(),
                (i as int) < self@.len(),
                0 <= k < self.block_count(),
                u == self.ord()[k],
                rem as int == i as int - (self@.len() - cat(self.blocks(), k).len()),
                (rem as int) < cat(self.blocks(), k).len(),
            decreases self.block_count() - k,
        {
            let nd = self.node_ref(u);
            let sz = nd.d.size();
            proof {
                assert(*nd == self.node_at(k));
                assert(self.blocks()[k] == self.node_at(k).d@);
                assert(cat(self.blocks(), k) == self.blocks()[k] + cat(self.blocks(), k + 1));
            }
            if rem < sz {
                return Cursor { node: u, j: rem, pos: Ghost(k) };
            }
            let nx = nd.next;
            proof {
                if k + 1 >= self.block_count() {
                    assert(cat(self.blocks(), k + 1) =~= Seq::<T>::empty());
                }
            }
            u = nx.unwrap();
            rem = rem - sz;
            proof {
                k = k + 1;
            }
        }
    }

    /// The element at global index `i`; rejects an `i` at or beyond the
    /// size.
    pub fn get(&self, i: usize) -> (r: Result<T, IndexOutOfRange>)
        requires
            self.wf(),
        ensures
            (i as int) < self@.len() ==> r == Ok::<T, IndexOutOfRange>(self@[i as int]),
            (i as int) >= self@.len() ==> r is Err,
    {
        if i >= self.n {
            return Err(IndexOutOfRange);
        }
        let loc = self.get_location(i);
        let ghost k = loc.pos@;
        let nd = self.node_ref(loc.node);
        proof {
            assert(*nd == self.node_at(k));
            lemma_cat_index(self.blocks(), 0, k, loc.j as int);
        }
        match nd.d.get(loc.j) {
            Ok(v) => Ok(v),
            Err(e) => Err(e),
        }
    }

    /// Replaces the element at global index `i` by `x`; rejects an `i` at or
    /// beyond the size.
    pub fn set(&mut self, i: usize, x: T) -> (r: Result<(), IndexOutOfRange>)
        requires
            old(self).wf(),
        ensures
            final(self).wf(),
            (i as int) < old(self)@.len() ==> r is Ok && final(self)@ == old(self)@.update(
                i as int,
                x,
            ),
            (i as int) >= old(self)@.len() ==> r is Err && final(self)@ == old(self)@,
    {
        if i >= self.n {
            return Err(IndexOutOfRange);
        }
        let loc = self.get_location(i);
        let ghost pre = *self;
        let ghost k = loc.pos@;
        let mut nd = self.take_node(loc.node);
        proof {
            assert(nd == pre.node_at(k));
        }
        let res = nd.d.set(loc.j, x);
        let ghost ndg = nd;
        self.put_node(loc.node, nd);
        proof {
            assert(self.nodes@ =~= pre.nodes@.update(pre.ord()[k] as int, Some(ndg)));
            Self::lemma_block_update(pre, *self, k);
            lemma_cat_update(pre.blocks(), 0, k, loc.j as int, x);
            assert(self@ == pre@.update(i as int, x));
            assert(self@.len() == pre@.len());
            assert forall|m: int| 0 <= m < self.block_count() implies self.block_len(m)
                == pre.block_len(m) by {}
            assert(self.block_count() == pre.block_count());
            assert(self.param() == pre.param());
            assert forall|m: int| 0 <= m < self.block_count() - 1 implies self.param() - 1
                <= #[trigger] self.block_len(m) <= self.param() + 1 by {
                assert(self.block_len(m) == pre.block_len(m));
                assert(pre.param() - 1 <= pre.block_len(m) <= pre.param() + 1);
            }
            if self.block_count() > 0 {
                assert(self.block_len(self.block_count() - 1) == pre.block_len(
                    pre.block_count() - 1,
                ));
            }
            assert(self.n == self@.len());
            assert(self.sizes_ok());
        }
        Ok(())
    }

    /// Appends a fresh empty block as the new tail, reusing a free arena
    /// slot when one exists. The old tail, which becomes a non-tail block,
    /// must already satisfy the non-tail floor.
    fn push_back_node(&mut self)
        requires
            old(self).links_ok(),
            old(self).block_count() > 0 ==> old(self).block_len(old(self).block_count() - 1)
                >= old(self).param() - 1,
        ensures
            final(self).links_ok(),
            final(self).blocks() == old(self).blocks().push(Seq::<T>::empty()),
            final(self).block_count() == old(self).block_count() + 1,
            forall|m: int|
                0 <= m < old(self).block_count() ==> final(self).ord()[m] == old(self).ord()[m],
            final(self)@ == old(self)@,
            final(self).n == old(self).n,
            final(self).param() == old(self).param(),
            final(self).tail == Some(final(self).ord()[final(self).block_count() - 1]),
    {
        let ghost pre = *self;
        let ghost len = pre.ord().len() as int;
        let nd = Node { d: BDeque::new(self.b), prev: self.tail, next: None };
        let ghost ndg = nd;
        let idx: usize;
        match self.free.pop() {
            Some(i2) => {
                idx = i2;
                proof {
                    assert(pre.free@[pre.free@.len() - 1] == i2);
                }
                self.nodes.set(idx, Some(nd));
            },
            None => {
                idx = self.nodes.len();
                self.nodes.push(Some(nd));
            },
        }
        proof {
            vstd::std_specs::vec::axiom_spec_len(&self.nodes);
            // the new slot is no live chain position and no remaining free slot
            assert forall|k: int| 0 <= k < len implies pre.ord()[k] != idx by {
                assert(pre.nodes@[pre.ord()[k] as int] is Some);
            }
        }
        match self.tail {
            Some(t) => {
                proof {
                    assert(pre.ord()[len - 1] == t);
                    assert(t != idx);
                }
                let mut tn = self.take_node(t);
                tn.next = Some(idx);
                self.put_node(t, tn);
            },
            None => {
                self.head = Some(idx);
            },
        }
        self.tail = Some(idx);
        self.node_size = self.node_size + 1;
        proof {
            self.order@ = self.order@.push(idx);
        }
        proof {
            let post = *self;
            let ords = post.ord();
            assert(ords == pre.ord().push(idx));
            assert(ords.len() == len + 1);
            // every chain slot is live, the new one included
            assert forall|k: int| 0 <= k < len + 1 implies (#[trigger] ords[k] as int)
                < post.nodes@.len() && post.nodes@[ords[k] as int] is Some by {
                if k < len {
                    assert(pre.nodes@[pre.ord()[k] as int] is Some);
                }
            }
            // the chain positions stay pairwise distinct
            assert forall|k1: int, k2: int| 0 <= k1 < k2 < len + 1 implies ords[k1]
                != ords[k2] by {
                if k2 < len {
                    assert(pre.ord()[k1] != pre.ord()[k2]);
                } else {
                    assert(pre.ord()[k1] != idx);
                }
            }
            // each node keeps (or gets) a well-formed block and its links
            assert forall|k: int| 0 <= k < len && ords[k] != pre.ord()[len - 1] implies
                post.node_at(k) == pre.node_at(k) by {}
            if len > 0 {
                assert(post.node_at(len - 1).d == pre.node_at(len - 1).d);
                assert(post.node_at(len - 1).prev == pre.node_at(len - 1).prev);
                assert(post.node_at(len - 1).next == Some(idx));
            }
            assert(post.node_at(len) == ndg);
            assert forall|k: int| 0 <= k < len + 1 implies (#[trigger] post.node_at(k)).d.wf()
                && post.node_at(k).d.capacity() == post.b + 1 by {
                if k < len {
                    if pre.ord()[k] == pre.ord()[len - 1] {
                    } else {
                    }
                }
            }
            assert forall|k: int| 0 <= k < len implies (#[trigger] post.node_at(k)).next == Some(
                ords[k + 1],
            ) by {
                if k < len - 1 {
                    assert(pre.ord()[k] != pre.ord()[len - 1]);
                    assert(post.node_at(k) == pre.node_at(k));
                }
            }
            assert forall|k: int| 1 <= k < len + 1 implies (#[trigger] post.node_at(k)).prev
                == Some(ords[k - 1]) by {
                if k < len {
                    if pre.ord()[k] == pre.ord()[len - 1] {
                        assert(k == len - 1);
                    }
                }
            }
            if len > 0 {
                assert(post.node_at(0).prev == pre.node_at(0).prev);
            }
            assert(post.links_ok());
            assert(post.blocks() =~= pre.blocks().push(Seq::<T>::empty()));
            lemma_cat_push(pre.blocks(), Seq::<T>::empty(), 0);
            assert(pre@ + Seq::<T>::empty() =~= pre@);
        }
    }

    /// Appends `x` after the last element, growing the chain by a new tail
    /// block first when the tail is absent or full.
    pub fn push_back(&mut self, x: T)
        requires
            old(self).wf(),
            old(self)@.len() < usize::MAX,
        ensures
            final(self).wf(),
            final(self)@ == old(self)@.push(x),
    {
        let need_new = match self.tail {
            None => true,
            Some(t) => {
                proof {
                    assert(self.ord()[self.block_count() - 1] == t);
                }
                let sz = self.node_ref(t).d.size();
                sz == self.b + 1
            },
        };
        if need_new {
            self.push_back_node();
        }
        let ghost pre = *self;
        let ghost len = pre.ord().len() as int;
        let t = self.tail.unwrap();
        proof {
            assert(pre.ord()[len - 1] == t);
            assert((pre.blocks()[len - 1].len() as int) < pre.param() + 1);
        }
        let mut nd = self.take_node(t);
        proof {
            assert(nd == pre.node_at(len - 1));
        }
        nd.d.push_back(x);
        let ghost ndg = nd;
        self.put_node(t, nd);
        self.n += 1;
        proof {
            assert(self.nodes@ =~= pre.nodes@.update(pre.ord()[len - 1] as int, Some(ndg)));
            Self::lemma_block_update(pre, *self, len - 1);
            let blk = pre.blocks()[len - 1];
            assert(blk.push(x) =~= blk.insert(blk.len() as int, x)) by {
                blk.insert_ensures(blk.len() as int, x);
            }
            lemma_cat_insert(pre.blocks(), 0, len - 1, blk.len() as int, x);
            assert(cat(pre.blocks(), len - 1) == blk + cat(pre.blocks(), len));
            assert(cat(pre.blocks(), len) =~= Seq::<T>::empty());
            assert((blk + Seq::<T>::empty()).len() == blk.len());
            assert(self@ == pre@.insert(pre@.len() as int, x));
            assert(pre@.insert(pre@.len() as int, x) =~= pre@.push(x)) by {
                pre@.insert_ensures(pre@.len() as int, x);
            }
            // sizes: only the tail grew, by one
            assert forall|m: int| 0 <= m < self.block_count() - 1 implies self.param() - 1
                <= #[trigger] self.block_len(m) <= self.param() + 1 by {
                assert(self.block_len(m) == pre.block_len(m));
                if need_new {
                    assert(pre.blocks() == old(self).blocks().push(Seq::<T>::empty()));
                    assert(pre.block_len(m) == old(self).block_len(m));
                    if m == old(self).block_count() - 1 {
                        assert(old(self).block_len(m) == old(self).param() + 1);
                    }
                } else {
                    assert(pre.param() - 1 <= pre.block_len(m) <= pre.param() + 1);
                }
            }
            assert(self.block_len(len - 1) == pre.block_len(len - 1) + 1);
            assert(self@.len() == pre@.len() + 1);
            assert(self.sizes_ok());
        }
    }

    /// Relieves an overflow at chain position `k`: the full block there
    /// gives up its last element, which is carried forward through the run
    /// of full blocks (each passing its own last element on while taking the
    /// carried one in front) until a block with spare room absorbs it; a
    /// fresh tail block is appended when the run reaches the end of the
    /// chain. The list's contents as a whole are unchanged.
    fn spread(&mut self, u: usize, Ghost(k): Ghost<int>)
        requires
            old(self).wf(),
            0 <= k < old(self).block_count(),
            u == old(self).ord()[k],
            old(self).block_len(k) == old(self).param() + 1,
        ensures
            final(self).wf(),
            final(self)@ == old(self)@,
            forall|m: int|
                0 <= m <= k ==> final(self).ord()[m] == old(self).ord()[m],
            final(self).block_count() >= old(self).block_count(),
            final(self).block_len(k) == old(self).param(),
            cat(final(self).blocks(), k) == cat(old(self).blocks(), k),
            forall|m: int| 0 <= m < k ==> final(self).blocks()[m] == old(self).blocks()[m],
            final(self).param() == old(self).param(),
    {
        let ghost pre0 = *self;
        let ghost view0 = self@;
        let ghost bs0 = self.blocks();
        let ghost len0 = self.ord().len() as int;
        let ghost ord0 = self.ord();
        let b = self.b;
        // take the last element out of the full block at position k
        let mut nd = self.take_node(u);
        proof {
            assert(nd == pre0.node_at(k));
        }
        let mut carry = nd.d.remove(b);
        let nxt0 = nd.next;
        let ghost ndg0 = nd;
        self.put_node(u, nd);
        proof {
            assert(self.nodes@ =~= pre0.nodes@.update(pre0.ord()[k] as int, Some(ndg0)));
            Self::lemma_block_update(pre0, *self, k);
            lemma_cat_remove(bs0, 0, k, b as int);
            let pos0 = view0.len() - cat(bs0, k).len() + b;
            lemma_remove_insert_same(view0, pos0);
            lemma_cat_congruence(self.blocks(), bs0, k + 1);
            assert(cat(bs0, k) == bs0[k] + cat(bs0, k + 1));
            assert(view0 == self@.insert(self@.len() - cat(self.blocks(), k + 1).len(), carry));
            assert forall|p: int| 0 <= p < len0 - 1 implies b - 1 <= (
            #[trigger] self.blocks()[p]).len() <= b + 1 by {
                if p != k {
                    assert(self.blocks()[p] == bs0[p]);
                    assert(pre0.param() - 1 <= pre0.block_len(p) <= pre0.param() + 1);
                }
            }
            if k < len0 - 1 {
                assert(self.blocks()[len0 - 1] == bs0[len0 - 1]);
                assert(1 <= pre0.block_len(len0 - 1));
            }
        }
        let mut cur_opt = nxt0;
        let ghost mut m: int = k + 1;
        loop
            invariant
                self.links_ok(),
                self.b == b,
                1 <= b < usize::MAX / 2,
                self.n == pre0.n,
                self.ord() == ord0,
                self.ord().len() == len0,
                0 <= k < len0,
                view0 == old(self)@,
                bs0 == old(self).blocks(),
                ord0 == old(self).ord(),
                len0 == old(self).block_count(),
                bs0.len() == len0,
                view0 == cat(bs0, 0),
                u == ord0[k],
                bs0[k].len() == b + 1,
                old(self).param() == b,
                k < m <= len0,
                cur_opt == (if m < len0 {
                    Some(ord0[m])
                } else {
                    None::<usize>
                }),
                forall|p: int| 0 <= p < k ==> self.blocks()[p] == bs0[p],
                self.blocks()[k] == bs0[k].remove(b as int),
                self.blocks()[k].len() == b,
                forall|p: int| k < p < m ==> (#[trigger] self.blocks()[p]).len() == b + 1,
                forall|p: int| m <= p < len0 ==> self.blocks()[p] == bs0[p],
                forall|p: int|
                    0 <= p < len0 - 1 ==> b - 1 <= (#[trigger] self.blocks()[p]).len() <= b + 1,
                1 <= self.blocks()[len0 - 1].len() <= b + 1,
                view0 == self@.insert(self@.len() - cat(self.blocks(), m).len(), carry),
                self@.len() + 1 == view0.len(),
                self.n as int == view0.len(),
            decreases len0 - m,
        {
            let ghost pre1 = *self;
            let ghost bs1 = self.blocks();
            let ghost vv = self@;
            let ghost q = vv.len() - cat(bs1, m).len();
            match cur_opt {
                None => {
                    // the whole run to the tail was full: append a block
                    proof {
                        assert(m == len0);
                        if len0 - 1 == k {
                            assert(self.blocks()[len0 - 1].len() == b);
                        } else {
                            assert(self.blocks()[len0 - 1].len() == b + 1);
                        }
                    }
                    self.push_back_node();
                    let ghost mid = *self;
                    let t = self.tail.unwrap();
                    proof {
                        assert(t == mid.ord()[len0]);
                        assert(mid.nodes@[t as int] is Some);
                    }
                    let mut tn = self.take_node(t);
                    proof {
                        assert(tn == mid.node_at(len0));
                        assert(mid.blocks()[len0] == Seq::<T>::empty());
                        assert(tn.d@.len() == 0);
                        assert(tn.d.wf() && tn.d.capacity() == mid.b + 1);
                    }
                    tn.d.add(0, carry);
                    let ghost tng = tn;
                    self.put_node(t, tn);
                    proof {
                        assert(self.nodes@ =~= mid.nodes@.update(
                            mid.ord()[len0] as int,
                            Some(tng),
                        ));
                        Self::lemma_block_update(mid, *self, len0);
                        assert(mid.blocks()[len0] =~= Seq::<T>::empty());
                        lemma_cat_insert(mid.blocks(), 0, len0, 0, carry);
                        assert(cat(mid.blocks(), len0) == mid.blocks()[len0] + cat(
                            mid.blocks(),
                            len0 + 1,
                        ));
                        assert(cat(mid.blocks(), len0 + 1) =~= Seq::<T>::empty());
                        assert(cat(mid.blocks(), len0).len() == 0);
                        assert(cat(bs1, len0) =~= Seq::<T>::empty());
                        assert(self@ == mid@.insert(mid@.len() as int, carry));
                        assert(self@ == view0);
                        // the chain structure and the size bounds both hold again
                        assert forall|p: int| 0 <= p < self.block_count() - 1 implies b - 1
                            <= (#[trigger] self.blocks()[p]).len() <= b + 1 by {
                            if p < len0 {
                                assert(self.blocks()[p] == pre1.blocks()[p]);
                            }
                        }
                        assert(self.block_len(self.block_count() - 1) == 1);
                        assert(self.sizes_ok());
                        // suffix of the concatenation from k is unchanged
                        assert forall|p: int| 0 <= p < k implies self.blocks()[p] == bs0[p] by {
                            assert(self.blocks()[p] == pre1.blocks()[p]);
                        }
                        lemma_cat_cancel(self.blocks(), bs0, k);
                        assert forall|p: int| 0 <= p <= k implies self.ord()[p] == ord0[p] by {}
                        assert(self.blocks()[k] == bs1[k]);
                        assert(self.block_len(k) == b);
                    }
                    return ;
                },
                Some(cur) => {
                    proof {
                        assert(cur == ord0[m]);
                        assert(self.nodes@[cur as int] is Some);
                    }
                    let sz = self.node_ref(cur).d.size();
                    if sz == b + 1 {
                        // full: pass its last element on, take the carry in front
                        let mut cn = self.take_node(cur);
                        proof {
                            assert(cn == pre1.node_at(m));
                        }
                        let c2 = cn.d.remove(b);
                        cn.d.add(0, carry);
                        let nxt2 = cn.next;
                        let ghost cng = cn;
                        self.put_node(cur, cn);
                        proof {
                            let blk = bs1[m];
                            let bsr = bs1.update(m, blk.remove(b as int));
                            assert(self.nodes@ =~= pre1.nodes@.update(
                                pre1.ord()[m] as int,
                                Some(cng),
                            ));
                            Self::lemma_block_update(pre1, *self, m);
                            assert(cng.d@ == blk.remove(b as int).insert(0, carry));
                            assert(self.blocks() =~= bsr.update(m, bsr[m].insert(0, carry)));
                            lemma_cat_remove(bs1, 0, m, b as int);
                            lemma_cat_insert(bsr, 0, m, 0, carry);
                            let posb = vv.len() - cat(bs1, m).len() + b;
                            assert(cat(bs1, m) == blk + cat(bs1, m + 1));
                            lemma_cat_congruence(bsr, bs1, m + 1);
                            assert(cat(bsr, m) == bsr[m] + cat(bsr, m + 1));
                            assert(cat(bsr, m).len() == cat(bs1, m).len() - 1);
                            // the insertion lands exactly where the carry belongs
                            assert(self@ == vv.remove(posb).insert(q, carry));
                            let w = vv.remove(posb);
                            lemma_remove_insert_same(vv, posb);
                            lemma_insert_insert_commute(w, q, carry, posb, c2);
                            assert(view0 == vv.insert(q, carry));
                            assert(vv == w.insert(posb, c2));
                            assert(view0 == w.insert(q, carry).insert(posb + 1, c2));
                            lemma_cat_congruence(self.blocks(), bs1, m + 1);
                            assert(cat(self.blocks(), m + 1) == cat(bs1, m + 1));
                            assert(view0 == self@.insert(
                                self@.len() - cat(self.blocks(), m + 1).len(),
                                c2,
                            ));
                            m = m + 1;
                        }
                        carry = c2;
                        cur_opt = nxt2;
                    } else {
                        // spare room: the carry goes in front of this block
                        let mut cn = self.take_node(cur);
                        proof {
                            assert(cn == pre1.node_at(m));
                        }
                        cn.d.add(0, carry);
                        let ghost cng = cn;
                        self.put_node(cur, cn);
                        proof {
                            assert(self.nodes@ =~= pre1.nodes@.update(
                                pre1.ord()[m] as int,
                                Some(cng),
                            ));
                            Self::lemma_block_update(pre1, *self, m);
                            lemma_cat_insert(bs1, 0, m, 0, carry);
                            assert(cat(bs1, m) == bs1[m] + cat(bs1, m + 1));
                            assert(self@ == vv.insert(q, carry));
                            assert(self@ == view0);
                            assert forall|p: int| 0 <= p < self.block_count() - 1 implies b - 1
                                <= (#[trigger] self.blocks()[p]).len() <= b + 1 by {
                                if p != m {
                                    assert(self.blocks()[p] == pre1.blocks()[p]);
                                }
                            }
                            if m == len0 - 1 {
                                assert(self.block_len(len0 - 1) == sz + 1);
                            } else {
                                assert(self.blocks()[len0 - 1] == pre1.blocks()[len0 - 1]);
                            }
                            assert(self.sizes_ok());
                            assert forall|p: int| 0 <= p < k implies self.blocks()[p]
                                == bs0[p] by {
                                assert(self.blocks()[p] == pre1.blocks()[p]);
                            }
                            lemma_cat_cancel(self.blocks(), bs0, k);
                            assert(self.blocks()[k] == bs1[k]);
                            assert(self.block_len(k) == b);
                        }
                        return ;
                    }
                },
            }
        }
    }

    /// Inserts `x` before global index `i`, rebalancing ("spread") when the
    /// owning block is full; rejects an `i` beyond the current size.
    pub fn add(&mut self, i: usize, x: T) -> (r: Result<(), IndexOutOfRange>)
        requires
            old(self).wf(),
            old(self)@.len() < usize::MAX,
        ensures
            final(self).wf(),
            (i as int) <= old(self)@.len() ==> r is Ok && final(self)@ == old(self)@.insert(
                i as int,
                x,
            ),
            (i as int) > old(self)@.len() ==> r is Err && final(self)@ == old(self)@,
    {
        if i > self.n {
            return Err(IndexOutOfRange);
        }
        if i == self.n {
            self.push_back(x);
            return Ok(());
        }
        let loc = self.get_location(i);
        let ghost k = loc.pos@;
        let u = loc.node;
        proof {
            assert(self.nodes@[u as int] is Some);
        }
        let sz = self.node_ref(u).d.size();
        if sz == self.b + 1 {
            self.spread(u, Ghost(k));
        }
        let ghost pre = *self;
        proof {
            if sz == old(self).param() + 1 {
                assert(pre@ == old(self)@);
                assert(cat(pre.blocks(), k) == cat(old(self).blocks(), k));
            }
            assert((loc.j as int) <= pre.block_len(k));
            assert(pre.block_len(k) < pre.param() + 1);
            assert(i as int == pre@.len() - cat(pre.blocks(), k).len() + loc.j);
        }
        let mut nd = self.take_node(u);
        proof {
            assert(nd == pre.node_at(k));
        }
        nd.d.add(loc.j, x);
        let ghost ndg = nd;
        self.put_node(u, nd);
        self.n += 1;
        proof {
            assert(self.nodes@ =~= pre.nodes@.update(pre.ord()[k] as int, Some(ndg)));
            Self::lemma_block_update(pre, *self, k);
            lemma_cat_insert(pre.blocks(), 0, k, loc.j as int, x);
            assert(self@ == pre@.insert(i as int, x));
            assert(self@.len() == pre@.len() + 1) by {
                pre@.insert_ensures(i as int, x);
            }
            assert forall|p: int| 0 <= p < self.block_count() - 1 implies self.param() - 1
                <= #[trigger] self.block_len(p) <= self.param() + 1 by {
                if p != k {
                    assert(self.blocks()[p] == pre.blocks()[p]);
                    assert(pre.param() - 1 <= pre.block_len(p) <= pre.param() + 1);
                }
            }
            if k == self.block_count() - 1 {
                assert(self.block_len(k) == pre.block_len(k) + 1);
            } else {
                assert(self.blocks()[self.block_count() - 1] == pre.blocks()[pre.block_count()
                    - 1]);
            }
            assert(self.sizes_ok());
        }
        Ok(())
    }

    /// Unlinks the emptied tail block and returns its arena slot to the
    /// free list for reuse.
    fn unlink_last(&mut self)
        requires
            old(self).links_ok(),
            old(self).block_count() > 0,
            old(self).block_len(old(self).block_count() - 1) == 0,
        ensures
            final(self).links_ok(),
            final(self).blocks() == old(self).blocks().drop_last(),
            final(self).block_count() == old(self).block_count() - 1,
            forall|m: int|
                0 <= m < old(self).block_count() - 1 ==> final(self).ord()[m] == old(
                    self,
                ).ord()[m],
            final(self)@ == old(self)@,
            final(self).n == old(self).n,
            final(self).param() == old(self).param(),
    {
        let ghost pre = *self;
        let ghost len = pre.ord().len() as int;
        let t = self.tail.unwrap();
        proof {
            assert(t == pre.ord()[len - 1]);
            assert(self.nodes@[t as int] is Some);
        }
        let pv = self.node_ref(t).prev;
        match pv {
            Some(pi) => {
                proof {
                    assert(pi == pre.ord()[len - 2]);
                    assert(pre.ord()[len - 2] != pre.ord()[len - 1]);
                }
                let mut pn = self.take_node(pi);
                pn.next = None;
                self.put_node(pi, pn);
            },
            None => {
                proof {
                    assert(len == 1);
                }
                self.head = None;
            },
        }
        self.tail = pv;
        self.nodes.set(t, None);
        self.free.push(t);
        self.node_size = self.node_size - 1;
        proof {
            self.order@ = self.order@.drop_last();
        }
        proof {
            let post = *self;
            let ords = post.ord();
            assert(ords =~= pre.ord().take(len - 1));
            assert forall|m: int| 0 <= m < len - 1 implies ords[m] == pre.ord()[m] by {}
            assert forall|m: int| 0 <= m < len - 1 implies pre.ord()[m] != t by {}
            assert forall|k: int| 0 <= k < len - 1 implies (#[trigger] ords[k] as int)
                < post.nodes@.len() && post.nodes@[ords[k] as int] is Some by {
                assert(pre.nodes@[pre.ord()[k] as int] is Some);
            }
            assert forall|k: int| 0 <= k < len - 1 && (len < 2 || k != len - 2) implies
                post.node_at(k) == pre.node_at(k) by {
                if len >= 2 {
                    assert(pre.ord()[k] != pre.ord()[len - 2]);
                }
            }
            if len >= 2 {
                assert(post.node_at(len - 2).d == pre.node_at(len - 2).d);
                assert(post.node_at(len - 2).prev == pre.node_at(len - 2).prev);
                assert(post.node_at(len - 2).next is None);
            }
            assert forall|k: int| 0 <= k < len - 2 implies (#[trigger] post.node_at(k)).next
                == Some(ords[k + 1]) by {
                assert(pre.ord()[k] != pre.ord()[len - 2]);
                assert(post.node_at(k) == pre.node_at(k));
            }
            assert forall|i: int| 0 <= i < post.free@.len() implies (
            #[trigger] post.free@[i] as int) < post.nodes@.len()
                && post.nodes@[post.free@[i] as int] is None by {
                if i < pre.free@.len() {
                    assert(pre.nodes@[pre.free@[i] as int] is None);
                    assert(pre.free@[i] != t);
                    if len >= 2 {
                        assert(pre.free@[i] != pre.ord()[len - 2]);
                    }
                }
            }
            assert forall|i1: int, i2: int| 0 <= i1 < i2 < post.free@.len() implies post.free@[i1]
                != post.free@[i2] by {
                if i2 == pre.free@.len() {
                    assert(pre.nodes@[pre.free@[i1] as int] is None);
                }
            }
            assert(post.links_ok());
            assert(post.blocks() =~= pre.blocks().drop_last());
            lemma_cat_drop_last(pre.blocks(), 0);
        }
    }

    /// Unlinks empty tail blocks until the tail is nonempty or the chain is
    /// gone; the rest of the chain is untouched.
    fn trim_tails(&mut self)
        requires
            old(self).links_ok(),
            forall|p: int|
                0 <= p < old(self).block_count() - 1 ==> old(self).param() - 1 <= #[trigger] old(
                    self,
                ).block_len(p) <= old(self).param() + 1,
            old(self).block_count() > 0 ==> old(self).block_len(old(self).block_count() - 1)
                <= old(self).param() + 1,
            old(self).n == old(self)@.len(),
        ensures
            final(self).wf(),
            final(self)@ == old(self)@,
    {
        loop
            invariant
                self.links_ok(),
                forall|p: int|
                    0 <= p < self.block_count() - 1 ==> self.param() - 1 <= #[trigger] self.block_len(
                        p,
                    ) <= self.param() + 1,
                self.block_count() > 0 ==> self.block_len(self.block_count() - 1) <= self.param()
                    + 1,
                self.n == self@.len(),
                self@ == old(self)@,
            ensures
                self.links_ok(),
                forall|p: int|
                    0 <= p < self.block_count() - 1 ==> self.param() - 1 <= #[trigger] self.block_len(
                        p,
                    ) <= self.param() + 1,
                self.block_count() > 0 ==> 1 <= self.block_len(self.block_count() - 1)
                    <= self.param() + 1,
                self.n == self@.len(),
                self@ == old(self)@,
            decreases self.block_count(),
        {
            let t_opt = self.tail;
            match t_opt {
                None => { break ; },
                Some(t) => {
                    proof {
                        assert(t == self.ord()[self.block_count() - 1]);
                        assert(self.nodes@[t as int] is Some);
                    }
                    let sz = self.node_ref(t).d.size();
                    if sz > 0 {
                        break ;
                    }
                    let ghost pre1 = *self;
                    self.unlink_last();
                    proof {
                        assert forall|p: int| 0 <= p < self.block_count() - 1 implies self.param()
                            - 1 <= #[trigger] self.block_len(p) <= self.param() + 1 by {
                            assert(self.blocks()[p] == pre1.blocks()[p]);
                            assert(pre1.param() - 1 <= pre1.block_len(p) <= pre1.param() + 1);
                        }
                        if self.block_count() > 0 {
                            assert(self.blocks()[self.block_count() - 1] == pre1.blocks()[
                            self.block_count() - 1]);
                            assert(pre1.param() - 1 <= pre1.block_len(self.block_count() - 1)
                                <= pre1.param() + 1);
                        }
                    }
                },
            }
        }
        proof {
            assert(self.sizes_ok());
        }
    }

    /// Relieves an underflow at non-tail chain position `k`: the deficient
    /// block takes the first element of its successor, and the shortage
    /// cascades forward until a block can give an element without falling
    /// below the floor itself; a tail block emptied by the cascade is
    /// unlinked. The list's contents as a whole are unchanged.
    fn gather(&mut self, u: usize, Ghost(k): Ghost<int>)
        requires
            old(self).links_ok(),
            0 <= k < old(self).block_count() - 1,
            u == old(self).ord()[k],
            old(self).block_len(k) == old(self).param() - 2,
            2 <= old(self).param(),
            forall|p: int|
                0 <= p < old(self).block_count() - 1 && p != k ==> old(self).param() - 1
                    <= #[trigger] old(self).block_len(p) <= old(self).param() + 1,
            1 <= old(self).block_len(old(self).block_count() - 1) <= old(self).param() + 1,
            old(self).n == old(self)@.len(),
        ensures
            final(self).wf(),
            final(self)@ == old(self)@,
    {
        let b = self.b;
        let mut cur = u;
        let ghost mut m: int = k;
        loop
            invariant
                self.links_ok(),
                self.b == b,
                2 <= b < usize::MAX / 2,
                self@ == old(self)@,
                self.n == self@.len(),
                0 <= m < self.block_count() - 1,
                cur == self.ord()[m],
                self.block_len(m) == b - 2,
                forall|p: int|
                    0 <= p < self.block_count() - 1 && p != m ==> b - 1 <= #[trigger] self.block_len(
                        p,
                    ) <= b + 1,
                1 <= self.block_len(self.block_count() - 1) <= b + 1,
            decreases self.block_count() - m,
        {
            let ghost pre1 = *self;
            let ghost bs1 = self.blocks();
            let ghost vv = self@;
            let ghost len1 = self.block_count();
            proof {
                assert(self.nodes@[cur as int] is Some);
            }
            let nxi = self.node_ref(cur).next.unwrap();
            proof {
                assert(nxi == self.ord()[m + 1]);
                assert(self.nodes@[nxi as int] is Some);
                if m + 1 < len1 - 1 {
                    assert(self.block_len(m + 1) >= b - 1);
                }
            }
            let mut nn = self.take_node(nxi);
            proof {
                assert(nn == pre1.node_at(m + 1));
            }
            let y = nn.d.remove(0);
            let nsz = nn.d.size();
            let ghost nng = nn;
            self.put_node(nxi, nn);
            let ghost posf = vv.len() - cat(bs1, m + 1).len();
            proof {
                assert(self.nodes@ =~= pre1.nodes@.update(pre1.ord()[m + 1] as int, Some(nng)));
                Self::lemma_block_update(pre1, *self, m + 1);
                lemma_cat_remove(bs1, 0, m + 1, 0);
                assert(self@ == vv.remove(posf));
                assert(y == vv[posf]);
            }
            let ghost mid = *self;
            let ghost bsm = self.blocks();
            let mut cn = self.take_node(cur);
            proof {
                assert(cn == mid.node_at(m));
                assert(cn.d@ == bs1[m]);
            }
            cn.d.push_back(y);
            let ghost cng = cn;
            self.put_node(cur, cn);
            proof {
                assert(self.nodes@ =~= mid.nodes@.update(mid.ord()[m] as int, Some(cng)));
                Self::lemma_block_update(mid, *self, m);
                let blk = bsm[m];
                assert(blk.push(y) =~= blk.insert(blk.len() as int, y)) by {
                    blk.insert_ensures(blk.len() as int, y);
                }
                lemma_cat_insert(bsm, 0, m, blk.len() as int, y);
                assert(cat(bsm, m) == bsm[m] + cat(bsm, m + 1));
                lemma_cat_congruence(bsm, bs1, m + 2);
                assert(cat(bsm, m + 1) == bsm[m + 1] + cat(bsm, m + 2));
                assert(cat(bs1, m + 1) == bs1[m + 1] + cat(bs1, m + 2));
                assert(cat(bsm, m + 1).len() == cat(bs1, m + 1).len() - 1);
                assert(self@ == mid@.insert(posf, y));
                lemma_remove_insert_same(vv, posf);
                assert(self@ == vv);
                assert(self.block_len(m) == b - 1);
            }
            // has the successor fallen below its own floor?
            let is_tail = match self.tail {
                Some(tt) => tt == nxi,
                None => false,
            };
            proof {
                if m + 1 == self.block_count() - 1 {
                    assert(self.tail == Some(self.ord()[m + 1]));
                } else {
                    assert(self.ord()[self.block_count() - 1] != self.ord()[m + 1]);
                }
            }
            proof {
                assert(self.block_len(m + 1) == nsz);
                assert forall|p: int| 0 <= p < self.block_count() - 1 && p != m && p != m
                    + 1 implies b - 1 <= #[trigger] self.block_len(p) <= b + 1 by {
                    assert(self.blocks()[p] == pre1.blocks()[p]);
                    assert(b - 1 <= pre1.block_len(p) <= b + 1);
                }
                if m + 1 < self.block_count() - 1 {
                    assert(self.blocks()[self.block_count() - 1] == pre1.blocks()[
                    self.block_count() - 1]);
                    assert(1 <= pre1.block_len(self.block_count() - 1) <= b + 1);
                }
            }
            if is_tail {
                if nsz == 0 {
                    let ghost pre2 = *self;
                    self.unlink_last();
                    proof {
                        assert forall|p: int| 0 <= p < self.block_count() - 1 implies b - 1
                            <= #[trigger] self.block_len(p) <= b + 1 by {
                            assert(self.blocks()[p] == pre2.blocks()[p]);
                            if p != m {
                                assert(b - 1 <= pre2.block_len(p) <= b + 1);
                            }
                        }
                        assert(self.blocks()[self.block_count() - 1] == pre2.blocks()[
                        self.block_count() - 1]);
                        if self.block_count() - 1 != m {
                            assert(b - 1 <= pre2.block_len(self.block_count() - 1) <= b + 1);
                        }
                        assert(self.sizes_ok());
                    }
                } else {
                    proof {
                        assert(self.sizes_ok());
                    }
                }
                return ;
            }
            if nsz + 1 > b - 1 {
                // the successor still meets the floor
                proof {
                    assert(self.sizes_ok());
                }
                return ;
            }
            // the shortage moves one block forward
            proof {
                assert(nsz == b - 2);
                m = m + 1;
            }
            cur = nxi;
        }
    }

    /// Removes and returns the element at global index `i`, rebalancing
    /// ("gather") when the owning block falls below the floor; rejects an
    /// `i` at or beyond the size.
    pub fn remove(&mut self, i: usize) -> (r: Result<T, IndexOutOfRange>)
        requires
            old(self).wf(),
        ensures
            final(self).wf(),
            (i as int) < old(self)@.len() ==> r == Ok::<T, IndexOutOfRange>(old(self)@[i as int])
                && final(self)@ == old(self)@.remove(i as int),
            (i as int) >= old(self)@.len() ==> r is Err && final(self)@ == old(self)@,
    {
        if i >= self.n {
            return Err(IndexOutOfRange);
        }
        let loc = self.get_location(i);
        let ghost k = loc.pos@;
        let u = loc.node;
        let ghost pre = *self;
        proof {
            assert(self.nodes@[u as int] is Some);
        }
        let mut nd = self.take_node(u);
        proof {
            assert(nd == pre.node_at(k));
        }
        let x = nd.d.remove(loc.j);
        let sz = nd.d.size();
        let ghost ndg = nd;
        self.put_node(u, nd);
        self.n -= 1;
        proof {
            assert(self.nodes@ =~= pre.nodes@.update(pre.ord()[k] as int, Some(ndg)));
            Self::lemma_block_update(pre, *self, k);
            lemma_cat_remove(pre.blocks(), 0, k, loc.j as int);
            assert(self@ == pre@.remove(i as int));
            assert(x == pre@[i as int]);
            assert(self@.len() == pre@.len() - 1) by {
                pre@.remove_ensures(i as int);
            }
            assert forall|p: int| 0 <= p < self.block_count() - 1 && p != k implies self.param()
                - 1 <= #[trigger] self.block_len(p) <= self.param() + 1 by {
                assert(self.blocks()[p] == pre.blocks()[p]);
                assert(pre.param() - 1 <= pre.block_len(p) <= pre.param() + 1);
            }
        }
        let is_tail = match self.tail {
            Some(tt) => tt == u,
            None => false,
        };
        proof {
            if k == self.block_count() - 1 {
                assert(self.tail == Some(self.ord()[k]));
            } else {
                assert(self.ord()[self.block_count() - 1] != self.ord()[k]);
                assert(self.blocks()[self.block_count() - 1] == pre.blocks()[pre.block_count()
                    - 1]);
            }
        }
        if is_tail {
            if sz == 0 {
                self.trim_tails();
            } else {
                proof {
                    assert(self.sizes_ok());
                }
            }
        } else {
            if sz < self.b - 1 {
                proof {
                    assert(self.block_len(k) == sz);
                    assert(pre.block_len(k) >= pre.param() - 1);
                    assert(sz == self.param() - 2);
                    assert(2 <= self.param());
                }
                self.gather(u, Ghost(k));
            } else {
                proof {
                    assert(self.block_len(k) == sz);
                    assert(self.sizes_ok());
                }
            }
        }
        Ok(x)
    }
}

impl<T> SEList<T> {
    /// Block-invariant law: in a well-formed list every non-tail block
    /// holds between `b - 1` and `b + 1` elements, and the tail block holds
    /// between 1 and `b + 1` -- the chain is empty exactly when the list
    /// is. Every mutating operation ensures well-formedness, so this holds
    /// after every mutation.
    pub proof fn lemma_block_size_invariant(&self)
        requires
            self.wf(),
        ensures
            forall|k: int|
                0 <= k < self.block_count() - 1 ==> self.param() - 1 <= #[trigger] self.block_len(
                    k,
                ) <= self.param() + 1,
            self.block_count() > 0 ==> 1 <= self.block_len(self.block_count() - 1) <= self.param()
                + 1,
            self@.len() == 0 <==> self.block_count() == 0,
    {
        let len = self.block_count();
        if len > 0 {
            lemma_cat_len_mono(self.blocks(), 0, len - 1);
            assert(cat(self.blocks(), len - 1) == self.blocks()[len - 1] + cat(
                self.blocks(),
                len,
            ));
            assert((self.blocks()[len - 1] + cat(self.blocks(), len)).len() == self.blocks()[len
                - 1].len() + cat(self.blocks(), len).len());
        } else {
            assert(self@ =~= Seq::<T>::empty());
        }
    }
}

} // verus!
