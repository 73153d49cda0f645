//! A doubly linked list with one element per node. The nodes live in an
//! arena and name their neighbours by stable indices; removing a node
//! returns its slot to a free list, so no reference can dangle.

use vstd::prelude::*;
use vstd::pervasive::VecAdditionalExecFns;
use crate::IndexOutOfRange;

verus! {

/// One chain link: an element and its two neighbour handles.
pub struct Node<T> {
    x: T,
    prev: Option<usize>,
    next: Option<usize>,
}

impl<T> Node<T> {
    /// The element held.
    pub closed spec fn element(&self) -> T {
        self.x
    }

    /// An unlinked node holding `x`.
    pub fn new(x: T) -> (s: Self)
        ensures
            s.element() == x,
    {
        Node { x, prev: None, next: None }
    }

    /// Consumes the node and hands its element back.
    pub fn into_element(self: Box<Self>) -> (r: T)
        ensures
            r == self.element(),
    {
        self.x
    }
}

/// A transient locator: the arena handle of the node at a sought chain
/// position. It is computed by one operation and never outlives it.
pub struct Cursor {
    node: usize,
    pos: Ghost<int>,
}

impl Cursor {
    /// The arena handle of the located node.
    pub closed spec fn spec_node(&self) -> usize {
        self.node
    }

    /// The arena handle of the located node.
    pub fn node_ptr(&self) -> (r: usize)
        ensures
            r == self.spec_node(),
    {
        self.node
    }
}

/// The list: an arena of nodes, the handles of the first and last node, and
/// the element count.
pub struct DLList<T> {
    nodes: Vec<Option<Node<T>>>,
    free: Vec<usize>,
    head: Option<usize>,
    tail: Option<usize>,
    n: usize,
    order: Ghost<Seq<usize>>,
}

impl<T> View for DLList<T> {
    type V = Seq<T>;

    closed spec fn view(&self) -> Seq<T> {
        Seq::new(self.ord().len(), |k: int| self.node_at(k).x)
    }
}

impl<T> DLList<T> {
    /// The chain order: arena handles from head to tail.
    spec fn ord(&self) -> Seq<usize> {
        self.order@
    }

    /// The node at chain position `k`.
    spec fn node_at(&self, k: int) -> Node<T> {
        self.nodes@[self.ord()[k] as int].unwrap()
    }

    /// Chain-structure invariant: the order is a duplicate-free list of
    /// live arena slots whose `prev`/`next` handles link consecutive
    /// positions, `head` and `tail` name its ends, `n` counts them, and the
    /// free list names exactly unused slots.
    pub closed spec fn wf(&self) -> bool {
        let len = self.ord().len() as int;
        &&& self.n == len
        &&& forall|k: int|
            0 <= k < len ==> (#[trigger] self.ord()[k] as int) < self.nodes@.len()
                && self.nodes@[self.ord()[k] as int] is Some
        &&& forall|k1: int, k2: int|
            0 <= k1 < k2 < len ==> self.ord()[k1] != self.ord()[k2]
        &&& forall|k: int|
            0 <= k < len - 1 ==> (#[trigger] self.node_at(k)).next == Some(self.ord()[k + 1])
        &&& forall|k: int|
            1 <= k < len ==> (#[trigger] self.node_at(k)).prev == Some(self.ord()[k - 1])
        &&& (len > 0 ==> self.node_at(0).prev is None && self.node_at(len - 1).next is None)
        &&& self.head == (if len == 0 {
            None
        } else {
            Some(self.ord()[0])
        })
        &&& self.tail == (if len == 0 {
            None
        } else {
            Some(self.ord()[len - 1])
        })
        &&& forall|i: int|
            0 <= i < self.free@.len() ==> (#[trigger] self.free@[i] as int) < self.nodes@.len()
                && self.nodes@[self.free@[i] as int] is None
        &&& forall|i1: int, i2: int|
            0 <= i1 < i2 < self.free@.len() ==> self.free@[i1] != self.free@[i2]
        &&& self.n + self.free@.len() <= self.nodes@.len()
    }
}

impl<T: Copy> DLList<T> {
    pub fn new() -> (s: Self)
        ensures
            s.wf(),
            s@ == Seq::<T>::empty(),
    {
        let s = DLList {
            nodes: Vec::new(),
            free: Vec::new(),
            head: None,
            tail: None,
            n: 0,
            order: Ghost(Seq::empty()),
        };
        proof {
            assert(s@ =~= Seq::<T>::empty());
        }
        s
    }

    /// Number of elements held.
    pub fn size(&self) -> (r: usize)
        requires
            self.wf(),
        ensures
            r == self@.len(),
    {
        self.n
    }

    /// A borrowed view of the node in arena slot `i`.
    fn node_ref(&self, i: usize) -> (r: &Node<T>)
        requires
            (i as int) < self.nodes@.len(),
            self.nodes@[i as int] is Some,
        ensures
            *r == self.nodes@[i as int].unwrap(),
    {
        self.nodes[i].as_ref().unwrap()
    }

    /// Moves the node out of arena slot `i`, leaving the slot empty.
    fn take_node(&mut self, i: usize) -> (nd: Node<T>)
        requires
            (i as int) < old(self).nodes@.len(),
            old(self).nodes@[i as int] is Some,
        ensures
            nd == old(self).nodes@[i as int].unwrap(),
            final(self).nodes@ == old(self).nodes@.update(i as int, None),
            final(self).free == old(self).free,
            final(self).head == old(self).head,
            final(self).tail == old(self).tail,
            final(self).n == old(self).n,
            final(self).order == old(self).order,
    {
        let mut slot: Option<Node<T>> = None;
        self.nodes.set_and_swap(i, &mut slot);
        slot.unwrap()
    }

    /// Puts a node into arena slot `i`.
    fn put_node(&mut self, i: usize, nd: Node<T>)
        requires
            (i as int) < old(self).nodes@.len(),
        ensures
            final(self).nodes@ == old(self).nodes@.update(i as int, Some(nd)),
            final(self).free == old(self).free,
            final(self).head == old(self).head,
            final(self).tail == old(self).tail,
            final(self).n == old(self).n,
            final(self).order == old(self).order,
    {
        self.nodes.set(i, Some(nd));
    }

    /// Translates chain position `index` into the owning node's handle,
    /// walking from whichever end of the chain is nearer.
    fn get_node(&self, index: usize) -> (cur: Cursor)
        requires
            self.wf(),
            (index as int) < self@.len(),
        ensures
            cur.pos@ == index as int,
            cur.node == self.ord()[index as int],
    {
        if index < self.n / 2 {
            let mut u = self.head.unwrap();
            let ghost mut k: int = 0;
            let mut steps: usize = index;
            loop
                invariant
                    self.wf(),
                    0 <= k < self.ord().len(),
                    u == self.ord()[k],
                    k + steps == index,
                    (index as int) < self.ord().len(),
                decreases steps,
            {
                if steps == 0 {
                    return Cursor { node: u, pos: Ghost(k) };
                }
                proof {
                    assert(self.nodes@[u as int].unwrap() == self.node_at(k));
                    assert(self.node_at(k).next == Some(self.ord()[k + 1]));
                }
                let nx = self.node_ref(u).next;
                u = nx.unwrap();
                steps = steps - 1;
                proof {
                    k = k + 1;
                }
            }
        } else {
            let mut u = self.tail.unwrap();
            let ghost mut k: int = self.ord().len() as int - 1;
            let mut steps: usize = self.n - 1 - index;
            loop
                invariant
                    self.wf(),
                    0 <= k < self.ord().len(),
                    u == self.ord()[k],
                    k - steps == index,
                    (index as int) < self.ord().len(),
                decreases steps,
            {
                if steps == 0 {
                    return Cursor { node: u, pos: Ghost(k) };
                }
                proof {
                    assert(self.nodes@[u as int].unwrap() == self.node_at(k));
                    assert(self.node_at(k).prev == Some(self.ord()[k - 1]));
                }
                let pv = self.node_ref(u).prev;
                u = pv.unwrap();
                steps = steps - 1;
                proof {
                    k = k - 1;
                }
            }
        }
    }

    /// The element at chain position `index`; `None` beyond the size.
    pub fn get(&self, index: usize) -> (r: Option<T>)
        requires
            self.wf(),
        ensures
            (index as int) < self@.len() ==> r == Some(self@[index as int]),
            (index as int) >= self@.len() ==> r is None,
    {
        if index >= self.n {
            return None;
        }
        let cur = self.get_node(index);
        Some(self.node_ref(cur.node).x)
    }

    /// Replaces the element at chain position `index` by `x`; rejects an
    /// `index` at or beyond the size.
    pub fn set(&mut self, x: T, index: usize) -> (r: Result<(), IndexOutOfRange>)
        requires
            old(self).wf(),
        ensures
            final(self).wf(),
            (index as int) < old(self)@.len() ==> r is Ok && final(self)@ == old(self)@.update(
                index as int,
                x,
            ),
            (index as int) >= old(self)@.len() ==> r is Err && final(self)@ == old(self)@,
    {
        if index >= self.n {
            return Err(IndexOutOfRange);
        }
        let cur = self.get_node(index);
        let ghost pre = *self;
        let ghost k = cur.pos@;
        let mut nd = self.take_node(cur.node);
        nd.x = x;
        let ghost ndg = nd;
        self.put_node(cur.node, nd);
        proof {
            assert(self.nodes@ =~= pre.nodes@.update(pre.ord()[k] as int, Some(ndg)));
            assert forall|m: int| 0 <= m < pre.ord().len() && m != k implies self.node_at(m)
                == pre.node_at(m) && self.nodes@[self.ord()[m] as int] == pre.nodes@[pre.ord()[m]
                as int] by {
                assert(pre.ord()[m] != pre.ord()[k]);
            }
            assert(self.node_at(k).prev == pre.node_at(k).prev);
            assert(self.node_at(k).next == pre.node_at(k).next);
            assert forall|m: int| 0 <= m < self.ord().len() - 1 implies (
            #[trigger] self.node_at(m)).next == Some(self.ord()[m + 1]) by {
                assert(pre.node_at(m).next == Some(pre.ord()[m + 1]));
            }
            assert forall|m: int| 1 <= m < self.ord().len() implies (
            #[trigger] self.node_at(m)).prev == Some(self.ord()[m - 1]) by {
                assert(pre.node_at(m).prev == Some(pre.ord()[m - 1]));
            }
            assert(self.wf());
            assert(self@ =~= pre@.update(index as int, x));
        }
        Ok(())
    }

    /// Links the node in arena slot `idx` into the chain at position `k`,
    /// between the nodes named by `existing_prev` and `existing_next`.
    #[verifier::rlimit(100)]
    fn splice_node(
        &mut self,
        existing_prev: Option<usize>,
        existing_next: Option<usize>,
        idx: usize,
        Ghost(k): Ghost<int>,
    )
        requires
            old(self).wf(),
            0 <= k <= old(self).ord().len(),
            existing_prev == (if k == 0 {
                None
            } else {
                Some(old(self).ord()[k - 1])
            }),
            existing_next == (if k == old(self).ord().len() {
                None::<usize>
            } else {
                Some(old(self).ord()[k])
            }),
            (idx as int) < old(self).nodes@.len(),
            old(self).nodes@[idx as int] is Some,
            forall|m: int| 0 <= m < old(self).ord().len() ==> old(self).ord()[m] != idx,
            forall|i: int| 0 <= i < old(self).free@.len() ==> old(self).free@[i] != idx,
            old(self).n < usize::MAX,
            old(self).n + old(self).free@.len() < old(self).nodes@.len(),
        ensures
            final(self).wf(),
            final(self)@ == old(self)@.insert(k, old(self).nodes@[idx as int].unwrap().element()),
            final(self).ord() == old(self).ord().insert(k, idx),
    {
        let ghost pre = *self;
        let ghost len = pre.ord().len() as int;
        match existing_prev {
            Some(p) => {
                proof {
                    assert(p == pre.ord()[k - 1]);
                    assert(self.nodes@[p as int] is Some);
                }
                let mut pn = self.take_node(p);
                pn.next = Some(idx);
                self.put_node(p, pn);
            },
            None => {
                self.head = Some(idx);
            },
        }
        match existing_next {
            Some(nx) => {
                proof {
                    assert(nx == pre.ord()[k]);
                    assert(self.nodes@[nx as int] is Some);
                    if k > 0 {
                        assert(pre.ord()[k - 1] != pre.ord()[k]);
                    }
                }
                let mut nn = self.take_node(nx);
                nn.prev = Some(idx);
                self.put_node(nx, nn);
            },
            None => {
                self.tail = Some(idx);
            },
        }
        let mut sn = self.take_node(idx);
        sn.prev = existing_prev;
        sn.next = existing_next;
        let ghost sng = sn;
        self.put_node(idx, sn);
        self.n += 1;
        proof {
            self.order@ = self.order@.insert(k, idx);
        }
        proof {
            let post = *self;
            let ords = post.ord();
            assert(ords == pre.ord().insert(k, idx));
            pre.ord().insert_ensures(k, idx);
            assert forall|m: int| 0 <= m < len + 1 implies (#[trigger] ords[m] as int)
                < post.nodes@.len() && post.nodes@[ords[m] as int] is Some by {
                if m < k {
                    assert(ords[m] == pre.ord()[m]);
                    assert(pre.nodes@[pre.ord()[m] as int] is Some);
                } else if m > k {
                    assert(ords[m] == pre.ord()[m - 1]);
                    assert(pre.nodes@[pre.ord()[m - 1] as int] is Some);
                }
            }
            assert forall|k1: int, k2: int| 0 <= k1 < k2 < len + 1 implies ords[k1]
                != ords[k2] by {
                if k1 != k && k2 != k {
                    let m1: int = if k1 < k {
                        k1
                    } else {
                        k1 - 1
                    };
                    let m2: int = if k2 < k {
                        k2
                    } else {
                        k2 - 1
                    };
                    assert(ords[k1] == pre.ord()[m1]);
                    assert(ords[k2] == pre.ord()[m2]);
                    assert(pre.ord()[m1] != pre.ord()[m2]);
                } else if k1 == k {
                    assert(ords[k2] == pre.ord()[k2 - 1]);
                } else {
                    assert(ords[k1] == pre.ord()[k1]);
                }
            }
            // which nodes changed: the two neighbours and the new node
            assert(post.node_at(k) == sng);
            assert forall|m: int| 0 <= m < len + 1 && m != k && m != k - 1 && m != k + 1 implies
                post.node_at(m) == pre.node_at(if m < k {
                m
            } else {
                m - 1
            }) by {
                let mp: int = if m < k {
                    m
                } else {
                    m - 1
                };
                assert(ords[m] == pre.ord()[mp]);
                if k > 0 {
                    assert(pre.ord()[mp] != pre.ord()[k - 1]);
                }
                if k < len {
                    assert(pre.ord()[mp] != pre.ord()[k]);
                }
            }
            if k > 0 {
                assert(ords[k - 1] == pre.ord()[k - 1]);
                assert(post.node_at(k - 1).x == pre.node_at(k - 1).x);
                assert(post.node_at(k - 1).next == Some(idx));
                assert(post.node_at(k - 1).prev == pre.node_at(k - 1).prev);
            }
            if k < len {
                assert(ords[k + 1] == pre.ord()[k]);
                assert(post.node_at(k + 1).prev == Some(idx));
                assert(post.node_at(k + 1).next == pre.node_at(k).next);
                assert(post.node_at(k + 1).x == pre.node_at(k).x);
            }
            assert forall|m: int| 0 <= m < len implies (#[trigger] post.node_at(m)).next == Some(
                ords[m + 1],
            ) by {
                if m != k && m != k - 1 && m != k + 1 {
                    let mp: int = if m < k {
                        m
                    } else {
                        m - 1
                    };
                    assert(post.node_at(m) == pre.node_at(mp));
                    assert(pre.node_at(mp).next == Some(pre.ord()[mp + 1]));
                } else if m == k + 1 {
                    assert(pre.node_at(k).next == Some(pre.ord()[k + 1]));
                }
            }
            assert forall|m: int| 1 <= m < len + 1 implies (#[trigger] post.node_at(m)).prev
                == Some(ords[m - 1]) by {
                if m != k && m != k - 1 && m != k + 1 {
                    let mp: int = if m < k {
                        m
                    } else {
                        m - 1
                    };
                    assert(post.node_at(m) == pre.node_at(mp));
                    assert(pre.node_at(mp).prev == Some(pre.ord()[mp - 1]));
                } else if m == k - 1 {
                    assert(pre.node_at(m).prev == Some(pre.ord()[m - 1]));
                }
            }
            if k > 0 {
                assert(post.node_at(0).prev == pre.node_at(0).prev);
            }
            if k < len {
                assert(post.node_at(len).next == pre.node_at(len - 1).next);
            }
            assert(post.wf());
            assert forall|m: int| 0 <= m < len + 1 implies post@[m] == pre@.insert(
                k,
                sng.x,
            )[m] by {
                if m < k {
                    assert(post.node_at(m).x == pre.node_at(m).x);
                } else if m > k {
                    assert(post.node_at(m).x == pre.node_at(m - 1).x);
                }
            }
            assert(post@ =~= pre@.insert(k, sng.x));
        }
    }

    /// Inserts `x` at chain position `index`; rejects an `index` beyond
    /// the current size.
    pub fn add(&mut self, x: T, index: usize) -> (r: Result<(), IndexOutOfRange>)
        requires
            old(self).wf(),
            old(self)@.len() < usize::MAX / 2,
        ensures
            final(self).wf(),
            (index as int) <= old(self)@.len() ==> r is Ok && final(self)@ == old(self)@.insert(
                index as int,
                x,
            ),
            (index as int) > old(self)@.len() ==> r is Err && final(self)@ == old(self)@,
    {
        if index > self.n {
            return Err(IndexOutOfRange);
        }
        let ghost pre0 = *self;
        // the neighbours of the insertion point
        let existing_next: Option<usize>;
        let existing_prev: Option<usize>;
        if index == self.n {
            existing_prev = self.tail;
            existing_next = None;
        } else {
            let cur = self.get_node(index);
            existing_next = Some(cur.node);
            proof {
                assert(self.nodes@[cur.node as int] is Some);
            }
            existing_prev = self.node_ref(cur.node).prev;
            proof {
                if index > 0 {
                    assert(self.node_at(index as int).prev == Some(self.ord()[index as int - 1]));
                } else {
                    assert(self.node_at(0).prev is None);
                }
            }
        }
        // place the new node in the arena
        let nd = Node { x, prev: None, next: None };
        let idx: usize;
        match self.free.pop() {
            Some(i2) => {
                idx = i2;
                proof {
                    assert(pre0.free@[pre0.free@.len() - 1] == i2);
                }
                self.nodes.set(idx, Some(nd));
            },
            None => {
                idx = self.nodes.len();
                self.nodes.push(Some(nd));
            },
        }
        proof {
            vstd::std_specs::vec::axiom_spec_len(&self.nodes);
            assert forall|m: int| 0 <= m < self.ord().len() implies self.ord()[m] != idx by {
                assert(pre0.nodes@[pre0.ord()[m] as int] is Some);
            }
            assert forall|i: int| 0 <= i < self.free@.len() implies self.free@[i] != idx by {
                assert(pre0.nodes@[pre0.free@[i] as int] is None);
            }
            assert forall|m: int| 0 <= m < self.ord().len() implies self.node_at(m)
                == pre0.node_at(m) && self.nodes@[self.ord()[m] as int] == pre0.nodes@[
            pre0.ord()[m] as int] by {
                assert(self.ord()[m] != idx);
            }
            assert forall|m: int| 0 <= m < self.ord().len() - 1 implies (
            #[trigger] self.node_at(m)).next == Some(self.ord()[m + 1]) by {
                assert(pre0.node_at(m).next == Some(pre0.ord()[m + 1]));
            }
            assert forall|m: int| 1 <= m < self.ord().len() implies (
            #[trigger] self.node_at(m)).prev == Some(self.ord()[m - 1]) by {
                assert(pre0.node_at(m).prev == Some(pre0.ord()[m - 1]));
            }
            if self.ord().len() > 0 {
                assert(self.node_at(0) == pre0.node_at(0));
                assert(self.node_at(self.ord().len() - 1) == pre0.node_at(
                    pre0.ord().len() - 1,
                ));
            }
            assert(self.wf());
        }
        self.splice_node(existing_prev, existing_next, idx, Ghost(index as int));
        Ok(())
    }

    /// Pushes `x` at the front.
    pub fn push_front(&mut self, x: T)
        requires
            old(self).wf(),
            old(self)@.len() < usize::MAX / 2,
        ensures
            final(self).wf(),
            final(self)@ == seq![x] + old(self)@,
    {
        let res = self.add(x, 0);
        proof {
            assert(old(self)@.insert(0, x) =~= seq![x] + old(self)@);
        }
    }

    /// Appends `x` at the back.
    pub fn push_back(&mut self, x: T)
        requires
            old(self).wf(),
            old(self)@.len() < usize::MAX / 2,
        ensures
            final(self).wf(),
            final(self)@ == old(self)@.push(x),
    {
        let n = self.n;
        let res = self.add(x, n);
        proof {
            assert(old(self)@.insert(old(self)@.len() as int, x) =~= old(self)@.push(x));
        }
    }

    /// Unlinks the node at chain position `k` and returns its slot to the
    /// free list.
    fn unlink_node(&mut self, idx: usize, Ghost(k): Ghost<int>)
        requires
            old(self).wf(),
            0 <= k < old(self).ord().len(),
            idx == old(self).ord()[k],
        ensures
            final(self).wf(),
            final(self)@ == old(self)@.remove(k),
    {
        let ghost pre = *self;
        let ghost len = pre.ord().len() as int;
        proof {
            assert(self.nodes@[idx as int] is Some);
        }
        let nd_prev = self.node_ref(idx).prev;
        let nd_next = self.node_ref(idx).next;
        proof {
            assert(pre.node_at(k) == pre.nodes@[idx as int].unwrap());
            if k > 0 {
                assert(nd_prev == Some(pre.ord()[k - 1]));
            }
            if k < len - 1 {
                assert(nd_next == Some(pre.ord()[k + 1]));
            }
        }
        match nd_prev {
            Some(p) => {
                proof {
                    assert(p == pre.ord()[k - 1]);
                    assert(pre.ord()[k - 1] != pre.ord()[k]);
                    assert(self.nodes@[p as int] is Some);
                }
                let mut pn = self.take_node(p);
                pn.next = nd_next;
                self.put_node(p, pn);
            },
            None => {
                self.head = nd_next;
            },
        }
        match nd_next {
            Some(nx) => {
                proof {
                    assert(nx == pre.ord()[k + 1]);
                    assert(pre.ord()[k + 1] != pre.ord()[k]);
                    if k > 0 {
                        assert(pre.ord()[k + 1] != pre.ord()[k - 1]);
                    }
                    assert(self.nodes@[nx as int] is Some);
                }
                let mut nn = self.take_node(nx);
                nn.prev = nd_prev;
                self.put_node(nx, nn);
            },
            None => {
                self.tail = nd_prev;
            },
        }
        self.nodes.set(idx, None);
        self.free.push(idx);
        self.n -= 1;
        proof {
            self.order@ = self.order@.remove(k);
        }
        proof {
            let post = *self;
            let ords = post.ord();
            pre.ord().remove_ensures(k);
            assert forall|m: int| 0 <= m < len - 1 implies (#[trigger] ords[m] as int)
                < post.nodes@.len() && post.nodes@[ords[m] as int] is Some by {
                let mp: int = if m < k {
                    m
                } else {
                    m + 1
                };
                assert(ords[m] == pre.ord()[mp]);
                assert(pre.nodes@[pre.ord()[mp] as int] is Some);
            }
            assert forall|m: int| 0 <= m < len - 1 implies (#[trigger] post.node_at(m)).next == (
            if m == len - 2 {
                None::<usize>
            } else {
                Some(ords[m + 1])
            }) && post.node_at(m).prev == (if m == 0 {
                None::<usize>
            } else {
                Some(ords[m - 1])
            }) && post.node_at(m).x == pre.node_at(if m < k {
                m
            } else {
                m + 1
            }).x by {
                let mp: int = if m < k {
                    m
                } else {
                    m + 1
                };
                assert(ords[m] == pre.ord()[mp]);
                if mp != k - 1 && mp != k + 1 {
                    assert(pre.ord()[mp] != pre.ord()[k]);
                    if k > 0 {
                        assert(pre.ord()[mp] != pre.ord()[k - 1]);
                    }
                    if k < len - 1 {
                        assert(pre.ord()[mp] != pre.ord()[k + 1]);
                    }
                    assert(post.node_at(m) == pre.node_at(mp));
                }
            }
            assert forall|i: int| 0 <= i < post.free@.len() implies (
            #[trigger] post.free@[i] as int) < post.nodes@.len()
                && post.nodes@[post.free@[i] as int] is None by {
                if i < pre.free@.len() {
                    assert(pre.nodes@[pre.free@[i] as int] is None);
                    assert(pre.free@[i] != idx);
                    if k > 0 {
                        assert(pre.free@[i] != pre.ord()[k - 1]);
                    }
                    if k < len - 1 {
                        assert(pre.free@[i] != pre.ord()[k + 1]);
                    }
                }
            }
            assert forall|i1: int, i2: int| 0 <= i1 < i2 < post.free@.len() implies
                post.free@[i1] != post.free@[i2] by {
                if i2 == pre.free@.len() {
                    assert(pre.nodes@[pre.free@[i1] as int] is None);
                }
            }
            assert(post.wf());
            assert(post@ =~= pre@.remove(k));
        }
    }

    /// Removes and returns the element at chain position `index`; `None` at
    /// or beyond the size.
    pub fn remove(&mut self, index: usize) -> (r: Option<T>)
        requires
            old(self).wf(),
        ensures
            final(self).wf(),
            (index as int) < old(self)@.len() ==> r == Some(old(self)@[index as int])
                && final(self)@ == old(self)@.remove(index as int),
            (index as int) >= old(self)@.len() ==> r is None && final(self)@ == old(self)@,
    {
        if index >= self.n {
            return None;
        }
        let cur = self.get_node(index);
        proof {
            assert(self.nodes@[cur.node as int] is Some);
        }
        let x = self.node_ref(cur.node).x;
        self.unlink_node(cur.node, Ghost(index as int));
        Some(x)
    }
}

} // verus!
