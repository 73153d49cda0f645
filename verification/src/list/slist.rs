//! A singly linked list with head push, tail append and head pop, usable as
//! a stack or a queue. Each element lives in its own node, owned by its
//! predecessor through the forward link.

use vstd::prelude::*;

verus! {

/// One node: an element and the owned forward link.
pub struct Node<T> {
    x: T,
    next: Option<Box<Node<T>>>,
}

/// The elements reachable from `o`, front to back.
spec fn chain<T>(o: Option<Box<Node<T>>>) -> Seq<T>
    decreases o,
{
    match o {
        None => Seq::empty(),
        Some(b) => seq![b.x] + chain(b.next),
    }
}

impl<T> Node<T> {
    /// The elements of this node and all nodes after it.
    pub closed spec fn contents(&self) -> Seq<T> {
        seq![self.x] + chain(self.next)
    }

    pub fn new(x: T, next: Option<Box<Node<T>>>) -> (s: Self)
        ensures
            s.contents() == seq![x] + chain_of(&next),
    {
        Node { x, next }
    }
}

/// The elements hanging off an optional link; the public face of `chain`.
pub closed spec fn chain_of<T>(o: &Option<Box<Node<T>>>) -> Seq<T> {
    chain(*o)
}

/// The list: the owned head link and the element count.
pub struct SLList<T> {
    head: Option<Box<Node<T>>>,
    n: usize,
}

impl<T> View for SLList<T> {
    type V = Seq<T>;

    closed spec fn view(&self) -> Seq<T> {
        chain(self.head)
    }
}

/// Appends `x` after the last node of an owned chain.
fn append_chain<T>(nd: Box<Node<T>>, x: T) -> (r: Box<Node<T>>)
    ensures
        r.contents() == nd.contents().push(x),
    decreases nd,
{
    let mut nd = nd;
    let ghost pre = *nd;
    match nd.next {
        Some(nx) => {
            let r2 = append_chain(nx, x);
            nd.next = Some(r2);
            proof {
                assert(nd.contents() =~= pre.contents().push(x));
            }
            nd
        },
        None => {
            nd.next = Some(Box::new(Node { x, next: None }));
            proof {
                assert(chain(Option::<Box<Node<T>>>::None) =~= Seq::<T>::empty());
                assert(chain(nd.next) =~= seq![x]);
                assert(nd.contents() =~= pre.contents().push(x));
            }
            nd
        },
    }
}

impl<T> SLList<T> {
    pub fn new() -> (s: Self)
        ensures
            s.wf(),
            s@ == Seq::<T>::empty(),
    {
        Self { head: None, n: 0 }
    }

    /// The element count matches the chain.
    pub closed spec fn wf(&self) -> bool {
        self.n == self@.len()
    }

    /// Number of elements held.
    pub fn size(&self) -> (r: usize)
        requires
            self.wf(),
        ensures
            r == self@.len(),
    {
        self.n
    }

    /// Pushes `x` at the front.
    pub fn push(&mut self, x: T)
        requires
            old(self).wf(),
            old(self)@.len() < usize::MAX,
        ensures
            final(self).wf(),
            final(self)@ == seq![x] + old(self)@,
    {
        let prev = self.head.take();
        self.head = Some(Box::new(Node { x, next: prev }));
        self.n += 1;
        proof {
            assert((seq![x] + old(self)@).len() == 1 + old(self)@.len());
        }
    }

    /// Appends `x` at the back.
    pub fn add(&mut self, x: T)
        requires
            old(self).wf(),
            old(self)@.len() < usize::MAX,
        ensures
            final(self).wf(),
            final(self)@ == old(self)@.push(x),
    {
        let prev = self.head.take();
        match prev {
            Some(h) => {
                let r = append_chain(h, x);
                self.head = Some(r);
            },
            None => {
                self.head = Some(Box::new(Node { x, next: None }));
                proof {
                    assert(self@ =~= old(self)@.push(x));
                }
            },
        }
        self.n += 1;
    }

    /// Removes and returns the front element; `None` on an empty list.
    pub fn pop(&mut self) -> (r: Option<T>)
        requires
            old(self).wf(),
        ensures
            final(self).wf(),
            old(self)@.len() > 0 ==> r == Some(old(self)@[0]) && final(self)@ == old(
                self,
            )@.drop_first(),
            old(self)@.len() == 0 ==> r is None && final(self)@ == old(self)@,
    {
        match self.head.take() {
            None => None,
            Some(h) => {
                let inner = *h;
                self.head = inner.next;
                self.n -= 1;
                proof {
                    assert(self@ =~= old(self)@.drop_first());
                }
                Some(inner.x)
            },
        }
    }
}

} // verus!
