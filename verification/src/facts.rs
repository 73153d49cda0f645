//! General facts about sequences that the containers' proofs share, and the
//! library-level laws about sequences of operations.

use vstd::prelude::*;

verus! {

/// Inserting within the left part of a concatenation.
pub proof fn lemma_insert_in_prefix<T>(s: Seq<T>, t: Seq<T>, p: int, x: T)
    requires
        0 <= p <= s.len(),
    ensures
        (s + t).insert(p, x) == s.insert(p, x) + t,
{
    s.insert_ensures(p, x);
    (s + t).insert_ensures(p, x);
    assert((s + t).insert(p, x) =~= s.insert(p, x) + t);
}

/// Inserting within the right part of a concatenation.
pub proof fn lemma_insert_in_suffix<T>(s: Seq<T>, t: Seq<T>, p: int, x: T)
    requires
        0 <= p <= t.len(),
    ensures
        (s + t).insert(s.len() + p, x) == s + t.insert(p, x),
{
    t.insert_ensures(p, x);
    (s + t).insert_ensures(s.len() + p, x);
    assert((s + t).insert(s.len() + p, x) =~= s + t.insert(p, x));
}

/// Removing from the left part of a concatenation.
pub proof fn lemma_remove_in_prefix<T>(s: Seq<T>, t: Seq<T>, p: int)
    requires
        0 <= p < s.len(),
    ensures
        (s + t).remove(p) == s.remove(p) + t,
        (s + t)[p] == s[p],
{
    s.remove_ensures(p);
    (s + t).remove_ensures(p);
    assert((s + t).remove(p) =~= s.remove(p) + t);
}

/// Removing from the right part of a concatenation.
pub proof fn lemma_remove_in_suffix<T>(s: Seq<T>, t: Seq<T>, p: int)
    requires
        0 <= p < t.len(),
    ensures
        (s + t).remove(s.len() + p) == s + t.remove(p),
        (s + t)[s.len() + p] == t[p],
{
    t.remove_ensures(p);
    (s + t).remove_ensures(s.len() + p);
    assert((s + t).remove(s.len() + p) =~= s + t.remove(p));
}

/// Updating within the left part of a concatenation.
pub proof fn lemma_update_in_prefix<T>(s: Seq<T>, t: Seq<T>, p: int, x: T)
    requires
        0 <= p < s.len(),
    ensures
        (s + t).update(p, x) == s.update(p, x) + t,
{
    assert((s + t).update(p, x) =~= s.update(p, x) + t);
}

/// Updating within the right part of a concatenation.
pub proof fn lemma_update_in_suffix<T>(s: Seq<T>, t: Seq<T>, p: int, x: T)
    requires
        0 <= p < t.len(),
    ensures
        (s + t).update(s.len() + p, x) == s + t.update(p, x),
{
    assert((s + t).update(s.len() + p, x) =~= s + t.update(p, x));
}

/// Two insertions commute when the first position is at or before the second.
pub proof fn lemma_insert_insert_commute<T>(s: Seq<T>, p1: int, x1: T, p2: int, x2: T)
    requires
        0 <= p1 <= p2 <= s.len(),
    ensures
        s.insert(p2, x2).insert(p1, x1) == s.insert(p1, x1).insert(p2 + 1, x2),
{
    s.insert_ensures(p2, x2);
    s.insert_ensures(p1, x1);
    s.insert(p2, x2).insert_ensures(p1, x1);
    s.insert(p1, x1).insert_ensures(p2 + 1, x2);
    assert(s.insert(p2, x2).insert(p1, x1) =~= s.insert(p1, x1).insert(p2 + 1, x2));
}

/// Removing an element and inserting it back at the same position restores
/// the sequence.
pub proof fn lemma_remove_insert_same<T>(s: Seq<T>, i: int)
    requires
        0 <= i < s.len(),
    ensures
        s.remove(i).insert(i, s[i]) == s,
{
    s.remove_ensures(i);
    s.remove(i).insert_ensures(i, s[i]);
    assert(s.remove(i).insert(i, s[i]) =~= s);
}

/// Round-trip law: inserting `x` at position `i` and immediately removing
/// position `i` restores the prior sequence exactly, and the intermediate
/// sequence is one longer and holds `x` at position `i`.
///
/// Every container's `add` ensures its view becomes `view.insert(i, x)` and
/// its `remove` ensures the view becomes `view.remove(i)` while returning
/// `view[i]`; by this law the pair restores the prior view and the removal
/// returns `x`.
pub proof fn lemma_add_remove_round_trip<T>(s: Seq<T>, i: int, x: T)
    requires
        0 <= i <= s.len(),
    ensures
        s.insert(i, x).remove(i) == s,
        s.insert(i, x).len() == s.len() + 1,
        s.insert(i, x)[i] == x,
{
    s.insert_ensures(i, x);
    s.insert(i, x).remove_ensures(i);
    assert(s.insert(i, x).remove(i) =~= s);
}

/// One abstract mutation of a sequence container: the operations shared by
/// every container of the library, acting on the mathematical model.
pub enum ListOp<T> {
    Add(int, T),
    Remove(int),
    PushBack(T),
}

/// What one operation does to the model: an insertion or removal at an index
/// outside the valid range leaves the model unchanged (the container reports
/// the index error instead).
pub open spec fn apply_op<T>(s: Seq<T>, op: ListOp<T>) -> Seq<T> {
    match op {
        ListOp::Add(i, x) => if 0 <= i <= s.len() {
            s.insert(i, x)
        } else {
            s
        },
        ListOp::Remove(i) => if 0 <= i < s.len() {
            s.remove(i)
        } else {
            s
        },
        ListOp::PushBack(x) => s.push(x),
    }
}

/// A whole sequence of operations applied in order.
pub open spec fn apply_ops<T>(s: Seq<T>, ops: Seq<ListOp<T>>) -> Seq<T>
    decreases ops.len(),
{
    if ops.len() == 0 {
        s
    } else {
        apply_ops(apply_op(s, ops[0]), ops.drop_first())
    }
}

/// The size change of one operation: +1 for an accepted insertion or append,
/// -1 for an accepted removal, 0 for a rejected one.
pub open spec fn op_delta<T>(s: Seq<T>, op: ListOp<T>) -> int {
    match op {
        ListOp::Add(i, x) => if 0 <= i <= s.len() {
            1int
        } else {
            0int
        },
        ListOp::Remove(i) => if 0 <= i < s.len() {
            -1int
        } else {
            0int
        },
        ListOp::PushBack(x) => 1int,
    }
}

/// The net element count change of a sequence of operations.
pub open spec fn net_change<T>(s: Seq<T>, ops: Seq<ListOp<T>>) -> int
    decreases ops.len(),
{
    if ops.len() == 0 {
        0int
    } else {
        op_delta(s, ops[0]) + net_change(apply_op(s, ops[0]), ops.drop_first())
    }
}

/// Size law: after any sequence of insert/remove/append operations the model
/// holds exactly the starting count plus the net count of accepted
/// insertions and appends minus accepted removals. Each container's `size`
/// returns its view's length, and each operation's contract says the view
/// becomes `apply_op` of the old view, so the law carries to the containers.
pub proof fn lemma_ops_size<T>(s: Seq<T>, ops: Seq<ListOp<T>>)
    ensures
        apply_ops(s, ops).len() == s.len() + net_change(s, ops),
    decreases ops.len(),
{
    if ops.len() > 0 {
        let s2 = apply_op(s, ops[0]);
        match ops[0] {
            ListOp::Add(i, x) => {
                if 0 <= i <= s.len() {
                    s.insert_ensures(i, x);
                }
            },
            ListOp::Remove(i) => {
                if 0 <= i < s.len() {
                    s.remove_ensures(i);
                }
            },
            ListOp::PushBack(x) => {},
        }
        lemma_ops_size(s2, ops.drop_first());
    }
}

} // verus!
