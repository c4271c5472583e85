//! Removal with rebalancing: rotation between siblings, and merging.

use vstd::prelude::*;

use crate::node::{INode, Node};
use crate::offset::{
    abs1, lemma_seq_abs_concat, lemma_seq_abs_nonneg, lemma_seq_off_concat, lemma_seq_off_insert,
    lemma_seq_off_le_abs, seq_abs, seq_off, ToOffset,
};
use crate::ORDER;

verus! {

/// How many elements (leaf) or children (internal) a node holds.
pub(crate) fn node_count<T: ToOffset>(n: &Node<T>) -> (c: usize)
    ensures
        c == n.count(),
{
    match n {
        Node::Leaf(v) => v.len(),
        Node::Internal(ino) => ino.children.len(),
    }
}

/// The row checkpoints `off` are exactly the cumulative element offsets of
/// the row `cs`.
pub(crate) open spec fn checkpoints_ok<T: ToOffset>(off: Seq<i64>, cs: Seq<Node<T>>) -> bool {
    &&& off.len() == cs.len() - 1
    &&& (forall|t: int|
        0 <= t < off.len() ==> (#[trigger] off[t]) as int == seq_off(
            Node::elems_of(cs.take(t + 1)),
        ))
}

/// Prefixes of a row decompose around a pair of adjacent subtrees.
proof fn lemma_pair_prefix<T: ToOffset>(cs: Seq<Node<T>>, a: int, m: int)
    requires
        0 <= a,
        a + 2 <= m <= cs.len(),
    ensures
        Node::elems_of(cs.take(m)) == Node::elems_of(cs.take(a)) + cs[a].elems() + cs[a
            + 1].elems() + Node::elems_of(cs.subrange(a + 2, m)),
{
    Node::lemma_elems_decompose(cs.take(m), a);
    Node::lemma_elems_decompose(cs.take(m).subrange(a + 1, m), 0);
    assert(cs.take(m).take(a) =~= cs.take(a));
    assert(cs.take(m)[a] == cs[a]);
    assert(cs.take(m).subrange(a + 1, m)[0] == cs[a + 1]);
    assert(cs.take(m).subrange(a + 1, m).take(0) =~= Seq::<Node<T>>::empty());
    assert(cs.take(m).subrange(a + 1, m).subrange(1, m - a - 1) =~= cs.subrange(a + 2, m));
    assert(Node::elems_of(Seq::<Node<T>>::empty()) =~= Seq::<T>::empty());
    assert(Node::elems_of(cs.take(a)) + cs[a].elems() + (Seq::<T>::empty() + cs[a + 1].elems()
        + Node::elems_of(cs.subrange(a + 2, m))) =~= Node::elems_of(cs.take(a)) + cs[a].elems()
        + cs[a + 1].elems() + Node::elems_of(cs.subrange(a + 2, m)));
}

/// Exchanging elements between two adjacent subtrees (their concatenation
/// unchanged) keeps every checkpoint but the boundary between them; the
/// boundary becomes the offset up to and including the new left subtree.
proof fn lemma_checkpoints_after_exchange<T: ToOffset>(
    cs1: Seq<Node<T>>,
    cs2: Seq<Node<T>>,
    off0: Seq<i64>,
    off1: Seq<i64>,
    a: int,
)
    requires
        0 <= a,
        a + 2 <= cs1.len(),
        cs2.len() == cs1.len(),
        cs2 == cs1.update(a, cs2[a]).update(a + 1, cs2[a + 1]),
        cs2[a].elems() + cs2[a + 1].elems() == cs1[a].elems() + cs1[a + 1].elems(),
        checkpoints_ok(off0, cs1),
        off1.len() == off0.len(),
        forall|t: int| 0 <= t < off1.len() && t != a ==> off1[t] == off0[t],
        off1[a] as int == seq_off(Node::elems_of(cs1.take(a))) + seq_off(cs2[a].elems()),
    ensures
        checkpoints_ok(off1, cs2),
{
    assert forall|t: int| 0 <= t < off1.len() implies (#[trigger] off1[t]) as int == seq_off(
        Node::elems_of(cs2.take(t + 1)),
    ) by {
        let m = t + 1;
        if m <= a {
            assert(cs2.take(m) =~= cs1.take(m));
            assert(off0[t] as int == seq_off(Node::elems_of(cs1.take(m))));
        } else if m == a + 1 {
            Node::lemma_elems_take_succ(cs2, a);
            assert(cs2.take(a) =~= cs1.take(a));
            lemma_seq_off_concat(Node::elems_of(cs1.take(a)), cs2[a].elems());
        } else {
            lemma_pair_prefix(cs1, a, m);
            lemma_pair_prefix(cs2, a, m);
            assert(cs2.take(a) =~= cs1.take(a));
            assert(cs2.subrange(a + 2, m) =~= cs1.subrange(a + 2, m));
            assert(Node::elems_of(cs1.take(a)) + cs2[a].elems() + cs2[a + 1].elems()
                + Node::elems_of(cs1.subrange(a + 2, m)) =~= Node::elems_of(cs1.take(a))
                + (cs2[a].elems() + cs2[a + 1].elems()) + Node::elems_of(cs1.subrange(a + 2, m)));
            assert(Node::elems_of(cs1.take(a)) + cs1[a].elems() + cs1[a + 1].elems()
                + Node::elems_of(cs1.subrange(a + 2, m)) =~= Node::elems_of(cs1.take(a))
                + (cs1[a].elems() + cs1[a + 1].elems()) + Node::elems_of(cs1.subrange(a + 2, m)));
            assert(off0[t] as int == seq_off(Node::elems_of(cs1.take(m))));
        }
    }
}

/// Merging two adjacent subtrees into one keeps every remaining checkpoint:
/// the boundary between the pair disappears, the others cover the same
/// elements as before.
proof fn lemma_checkpoints_after_merge<T: ToOffset>(
    cs1: Seq<Node<T>>,
    cs2: Seq<Node<T>>,
    off0: Seq<i64>,
    a: int,
)
    requires
        0 <= a,
        a + 2 <= cs1.len(),
        cs2.len() == cs1.len() - 1,
        forall|i: int| 0 <= i < a ==> cs2[i] == cs1[i],
        forall|i: int| a < i < cs2.len() ==> cs2[i] == cs1[i + 1],
        cs2[a].elems() == cs1[a].elems() + cs1[a + 1].elems(),
        checkpoints_ok(off0, cs1),
    ensures
        checkpoints_ok(off0.remove(a), cs2),
{
    let off1 = off0.remove(a);
    assert forall|t: int| 0 <= t < off1.len() implies (#[trigger] off1[t]) as int == seq_off(
        Node::elems_of(cs2.take(t + 1)),
    ) by {
        let m = t + 1;
        if m <= a {
            assert(cs2.take(m) =~= cs1.take(m));
            assert(off1[t] == off0[t]);
            assert(off0[t] as int == seq_off(Node::elems_of(cs1.take(m))));
        } else {
            assert(off1[t] == off0[t + 1]);
            assert(off0[t + 1] as int == seq_off(Node::elems_of(cs1.take(m + 1))));
            lemma_pair_prefix(cs1, a, m + 1);
            Node::lemma_elems_decompose(cs2.take(m), a);
            assert(cs2.take(m).take(a) =~= cs1.take(a));
            assert(cs2.take(m)[a] == cs2[a]);
            assert(cs2.take(m).subrange(a + 1, m) =~= cs1.subrange(a + 2, m + 1));
            assert(Node::elems_of(cs1.take(a)) + (cs1[a].elems() + cs1[a + 1].elems())
                + Node::elems_of(cs1.subrange(a + 2, m + 1)) =~= Node::elems_of(cs1.take(a))
                + cs1[a].elems() + cs1[a + 1].elems() + Node::elems_of(cs1.subrange(a + 2, m + 1)));
        }
    }
}

/// Move the first element or child of `right` to the back of `left`.
/// `left_len` is the summed offset of `left`'s elements; the returned value
/// is the summed offset of the grown left node.
fn rotate_from_right<T: ToOffset>(left: Node<T>, right: Node<T>, left_len: i64) -> (r: (
    Node<T>,
    Node<T>,
    i64,
))
    requires
        left.wf_core(),
        right.wf_core(),
        left.is_leaf() == right.is_leaf(),
        left.height() == right.height(),
        left.count() < 2 * ORDER,
        right.count() > 1,
        left_len as int == seq_off(left.elems()),
        seq_abs(left.elems() + right.elems()) <= i64::MAX,
    ensures
        r.0.wf_core(),
        r.1.wf_core(),
        r.0.count() == left.count() + 1,
        r.1.count() == right.count() - 1,
        r.0.is_leaf() == left.is_leaf(),
        r.1.is_leaf() == left.is_leaf(),
        r.0.height() == left.height(),
        r.1.height() == left.height(),
        r.0.elems() + r.1.elems() == left.elems() + right.elems(),
        r.2 as int == seq_off(r.0.elems()),
{
    match (left, right) {
        (Node::Leaf(mut lv), Node::Leaf(mut rv)) => {
            let ghost l0 = lv@;
            let ghost r0 = rv@;
            let e = rv.remove(0);
            let e_off = e.to_offset();
            proof {
                assert(l0.push(e) + rv@ =~= l0 + r0);
                assert(l0.push(e) =~= l0 + Seq::empty().push(e));
                lemma_seq_off_concat(l0, Seq::empty().push(e));
                crate::offset::lemma_seq_off_single(e);
                // the grown left sum is a prefix sum of the concatenation
                assert(l0 + Seq::empty().push(e) =~= (l0 + r0).subrange(0, l0.len() as int + 1));
                crate::offset::lemma_seq_off_subrange_bound(l0 + r0, 0, l0.len() as int + 1);
            }
            lv.push(e);
            (Node::Leaf(lv), Node::Leaf(rv), left_len + e_off)
        },
        (Node::Internal(mut li), Node::Internal(mut ri)) => {
            let ghost lc0 = li.children@;
            let ghost lo0 = li.offsets@;
            let ghost rc0 = ri.children@;
            let ghost ro0 = ri.offsets@;
            let moved_len = ri.offsets.remove(0);
            let c = ri.children.remove(0);
            proof {
                assert(rc0.take(1) =~= Seq::<Node<T>>::empty().push(rc0[0]));
                Node::lemma_elems_take_succ(rc0, 0);
                assert(rc0.take(0) =~= Seq::<Node<T>>::empty());
                assert(Seq::<T>::empty() + rc0[0].elems() =~= rc0[0].elems());
            }
            proof {
                lemma_seq_abs_concat(left.elems(), right.elems());
                lemma_seq_abs_nonneg(left.elems());
                lemma_seq_abs_nonneg(right.elems());
                assert(right.elems() == Node::elems_of(rc0));
                assert(left.elems() == Node::elems_of(lc0));
            }
            // lower the right node's checkpoints by the moved child's offset
            let ghost ro1 = ri.offsets@;
            let mut t: usize = 0;
            while t < ri.offsets.len()
                invariant
                    0 <= t <= ri.offsets@.len(),
                    ri.offsets@.len() == ro1.len(),
                    ro1 == ro0.remove(0),
                    ri.children@ == rc0.remove(0),
                    moved_len as int == seq_off(rc0[0].elems()),
                    checkpoints_ok(ro0, rc0),
                    rc0.len() >= 2,
                    forall|u: int|
                        0 <= u < t ==> (#[trigger] ri.offsets@[u]) as int == ro1[u] as int
                            - moved_len as int,
                    forall|u: int| t <= u < ro1.len() ==> ri.offsets@[u] == ro1[u],
                    seq_abs(Node::elems_of(rc0)) <= i64::MAX,
                decreases ro1.len() - t,
            {
                proof {
                    assert(rc0.take(1) =~= Seq::<Node<T>>::empty().push(rc0[0]));
                    Node::lemma_elems_take_succ(rc0, 0);
                    assert(rc0.take(0) =~= Seq::<Node<T>>::empty());
                    assert(Seq::<T>::empty() + rc0[0].elems() =~= rc0[0].elems());
                    assert(ri.offsets@[t as int] == ro1[t as int]);
                    assert(ro1[t as int] == ro0[t as int + 1]);
                    assert(ro0[t as int + 1] as int == seq_off(
                        Node::elems_of(rc0.take(t as int + 2)),
                    ));
                    assert(ro0[0] as int == seq_off(Node::elems_of(rc0.take(1))));
                    Node::lemma_row_prefix_off_bound(rc0, t as int + 2);
                    lemma_seq_abs_nonneg(Node::elems_of(rc0));
                    // the difference is the checkpoint of the shifted row
                    assert(rc0.take(t as int + 2) =~= rc0.take(1) + rc0.remove(0).take(
                        t as int + 1,
                    ));
                    Node::lemma_elems_of_concat(rc0.take(1), rc0.remove(0).take(t as int + 1));
                    lemma_seq_off_concat(
                        Node::elems_of(rc0.take(1)),
                        Node::elems_of(rc0.remove(0).take(t as int + 1)),
                    );
                    Node::lemma_row_abs_bounds(rc0, 1);
                    assert(rc0.remove(0) =~= rc0.subrange(1, rc0.len() as int));
                    Node::lemma_row_abs_bounds(rc0.remove(0), t as int + 1);
                    lemma_seq_off_le_abs(Node::elems_of(rc0.remove(0).take(t as int + 1)));
                    lemma_seq_abs_concat(
                        Node::elems_of(rc0.take(1)),
                        Node::elems_of(rc0.subrange(1, rc0.len() as int)),
                    );
                    lemma_seq_abs_nonneg(Node::elems_of(rc0.take(1)));
                }
                let v = ri.offsets[t] - moved_len;
                ri.offsets.set(t, v);
                t = t + 1;
            }
            li.children.push(c);
            li.offsets.push(left_len);
            proof {
                let lc1 = li.children@;
                assert(lc1 =~= lc0.push(rc0[0]));
                // left checkpoints: old ones unchanged, the appended one is
                // the old total
                assert forall|u: int| 0 <= u < li.offsets@.len() implies (
                #[trigger] li.offsets@[u]) as int == seq_off(Node::elems_of(lc1.take(u + 1))) by {
                    if u < lo0.len() {
                        assert(li.offsets@[u] == lo0[u]);
                        assert(lc1.take(u + 1) =~= lc0.take(u + 1));
                        assert(lo0[u] as int == seq_off(Node::elems_of(lc0.take(u + 1))));
                    } else {
                        assert(lc1.take(u + 1) =~= lc0);
                        assert(lc0.take(lc0.len() as int) =~= lc0);
                    }
                }
                // right checkpoints were rewritten against the shifted row
                let rc1 = ri.children@;
                assert forall|u: int| 0 <= u < ri.offsets@.len() implies (
                #[trigger] ri.offsets@[u]) as int == seq_off(Node::elems_of(rc1.take(u + 1))) by {
                    assert(ri.offsets@[u] as int == ro1[u] as int - moved_len as int);
                    assert(ro1[u] == ro0[u + 1]);
                    assert(ro0[u + 1] as int == seq_off(Node::elems_of(rc0.take(u + 2))));
                    assert(ro0[0] as int == seq_off(Node::elems_of(rc0.take(1))));
                    assert(rc0.take(u + 2) =~= rc0.take(1) + rc1.take(u + 1));
                    Node::lemma_elems_of_concat(rc0.take(1), rc1.take(u + 1));
                    lemma_seq_off_concat(
                        Node::elems_of(rc0.take(1)),
                        Node::elems_of(rc1.take(u + 1)),
                    );
                }
                // child facts of both rows
                assert forall|i: int| 0 <= i < lc1.len() implies (#[trigger] lc1[i]).wf_core()
                    && lc1[i].count() >= ORDER && lc1[i].height() == lc1[0].height() by {
                    if i < lc0.len() {
                        assert(lc1[i] == lc0[i]);
                        assert(lc0[i].height() == lc0[0].height());
                    } else {
                        assert(lc1[i] == rc0[0]);
                        assert(rc0[0].height() == rc0[0].height());
                    }
                    assert(lc1[0] == lc0[0]);
                }
                assert forall|i: int| 0 <= i < rc1.len() implies (#[trigger] rc1[i]).wf_core()
                    && rc1[i].count() >= ORDER && rc1[i].height() == rc1[0].height() by {
                    assert(rc1[i] == rc0[i + 1]);
                    assert(rc0[i + 1].height() == rc0[0].height());
                    assert(rc1[0] == rc0[1]);
                    assert(rc0[1].height() == rc0[0].height());
                }
                // the element sequences concatenate unchanged
                Node::lemma_elems_of_concat(lc0, rc0.take(1));
                assert(lc0 + rc0.take(1) =~= lc1);
                Node::lemma_elems_of_concat(lc1, rc1);
                assert(lc1 + rc1 =~= lc0 + rc0);
                Node::lemma_elems_of_concat(lc0, rc0);
                // the new left total is a prefix sum of the concatenation
                Node::lemma_elems_take_succ(lc1, lc0.len() as int);
                assert(lc1.take(lc0.len() as int) =~= lc0);
                assert(lc1.take(lc1.len() as int) =~= lc1);
                lemma_seq_off_concat(Node::elems_of(lc0), rc0[0].elems());
                assert(Node::elems_of(lc1) + Node::elems_of(rc1) == left.elems()
                    + right.elems());
                lemma_seq_abs_concat(Node::elems_of(lc1), Node::elems_of(rc1));
                lemma_seq_abs_nonneg(Node::elems_of(rc1));
                lemma_seq_off_le_abs(Node::elems_of(lc1));
            }
            let nb = left_len + moved_len;
            (Node::Internal(li), Node::Internal(ri), nb)
        },
        (l, _r) => {
            proof {
                assert(false);
            }
            (l, _r, 0)
        },
    }
}


/// Move the last element or child of `left` to the front of `right`.
/// `left_len` is the summed offset of `left`'s elements; the returned value
/// is the summed offset of the shrunken left node.
fn rotate_from_left<T: ToOffset>(left: Node<T>, right: Node<T>, left_len: i64) -> (r: (
    Node<T>,
    Node<T>,
    i64,
))
    requires
        left.wf_core(),
        right.wf_core(),
        left.is_leaf() == right.is_leaf(),
        left.height() == right.height(),
        left.count() > 1,
        right.count() < 2 * ORDER,
        left_len as int == seq_off(left.elems()),
        seq_abs(left.elems() + right.elems()) <= i64::MAX,
    ensures
        r.0.wf_core(),
        r.1.wf_core(),
        r.0.count() == left.count() - 1,
        r.1.count() == right.count() + 1,
        r.0.is_leaf() == left.is_leaf(),
        r.1.is_leaf() == left.is_leaf(),
        r.0.height() == left.height(),
        r.1.height() == left.height(),
        r.0.elems() + r.1.elems() == left.elems() + right.elems(),
        r.2 as int == seq_off(r.0.elems()),
{
    match (left, right) {
        (Node::Leaf(mut lv), Node::Leaf(mut rv)) => {
            let ghost l0 = lv@;
            let ghost r0 = rv@;
            let e = lv.pop().unwrap();
            let e_off = e.to_offset();
            rv.insert(0, e);
            proof {
                assert(l0.drop_last() + r0.insert(0, l0.last()) =~= l0 + r0);
                assert(left_len as int - e_off as int == seq_off(l0.drop_last()));
                assert(l0.drop_last() =~= (l0 + r0).subrange(0, l0.len() as int - 1));
                crate::offset::lemma_seq_off_subrange_bound(l0 + r0, 0, l0.len() as int - 1);
            }
            (Node::Leaf(lv), Node::Leaf(rv), left_len - e_off)
        },
        (Node::Internal(mut li), Node::Internal(mut ri)) => {
            let ghost lc0 = li.children@;
            let ghost lo0 = li.offsets@;
            let ghost rc0 = ri.children@;
            let ghost ro0 = ri.offsets@;
            let c = li.children.pop().unwrap();
            let lb = li.offsets.pop().unwrap();
            proof {
                assert(left.elems() == Node::elems_of(lc0));
                assert(right.elems() == Node::elems_of(rc0));
                Node::lemma_elems_take_succ(lc0, lc0.len() - 1);
                assert(lc0.take(lc0.len() as int) =~= lc0);
                assert(lb as int == seq_off(Node::elems_of(lc0.take(lc0.len() - 1))));
                lemma_seq_off_concat(
                    Node::elems_of(lc0.take(lc0.len() - 1)),
                    lc0.last().elems(),
                );
                Node::lemma_row_prefix_off_bound(lc0, lc0.len() - 1);
                lemma_seq_abs_concat(left.elems(), right.elems());
                lemma_seq_abs_nonneg(left.elems());
                lemma_seq_abs_nonneg(right.elems());
                lemma_seq_off_le_abs(left.elems());
                lemma_seq_off_le_abs(lc0.last().elems());
                Node::lemma_row_abs_bounds(lc0, lc0.len() - 1);
                assert(lc0.subrange(lc0.len() - 1, lc0.len() as int) =~= Seq::<Node<
                    T,
                >>::empty().push(lc0.last()));
                Node::lemma_elems_take_succ(
                    lc0.subrange(lc0.len() - 1, lc0.len() as int).insert(
                        0,
                        lc0.last(),
                    ),
                    0,
                );
                lemma_seq_abs_concat(
                    Node::elems_of(lc0.take(lc0.len() - 1)),
                    Node::elems_of(lc0.subrange(lc0.len() - 1, lc0.len() as int)),
                );
                lemma_seq_abs_nonneg(Node::elems_of(lc0.take(lc0.len() - 1)));
                assert(Node::elems_of(lc0.subrange(lc0.len() - 1, lc0.len() as int))
                    =~= lc0.last().elems()) by {
                    Node::lemma_elems_take_succ(lc0, lc0.len() - 1);
                    assert(lc0.take(lc0.len() as int) =~= lc0);
                    assert(Node::elems_of(lc0) == Node::elems_of(lc0.take(lc0.len() - 1))
                        + lc0.last().elems());
                    assert(Node::elems_of(lc0) == Node::elems_of(lc0.take(lc0.len() - 1))
                        + Node::elems_of(lc0.subrange(lc0.len() - 1, lc0.len() as int)));
                };
            }
            let moved = left_len - lb;
            let ghost crow = Seq::empty().push(lc0.last()) + rc0;
            proof {
                // the moved child's elements followed by the right row are a
                // contiguous part of the two nodes' elements
                assert(crow.take(1) =~= Seq::<Node<T>>::empty().push(lc0.last()));
                Node::lemma_elems_take_succ(crow, 0);
                assert(crow.take(0) =~= Seq::<Node<T>>::empty());
                assert(Seq::<T>::empty() + lc0.last().elems() =~= lc0.last().elems());
                assert(crow.subrange(1, crow.len() as int) =~= rc0);
                Node::lemma_row_abs_bounds(crow, 1);
                assert(Node::elems_of(lc0.take(lc0.len() - 1)) + Node::elems_of(crow)
                    =~= left.elems() + right.elems());
                lemma_seq_abs_concat(Node::elems_of(lc0.take(lc0.len() - 1)), Node::elems_of(crow));
                lemma_seq_abs_nonneg(Node::elems_of(lc0.take(lc0.len() - 1)));
            }
            let mut t: usize = 0;
            while t < ri.offsets.len()
                invariant
                    0 <= t <= ri.offsets@.len(),
                    ri.offsets@.len() == ro0.len(),
                    ri.children@ == rc0,
                    li.children@ == lc0.drop_last(),
                    li.offsets@ == lo0.drop_last(),
                    crow == Seq::empty().push(lc0.last()) + rc0,
                    moved as int == seq_off(lc0.last().elems()),
                    checkpoints_ok(ro0, rc0),
                    forall|u: int|
                        0 <= u < t ==> (#[trigger] ri.offsets@[u]) as int == ro0[u] as int
                            + moved as int,
                    forall|u: int| t <= u < ro0.len() ==> ri.offsets@[u] == ro0[u],
                    seq_abs(Node::elems_of(crow)) <= i64::MAX,
                decreases ro0.len() - t,
            {
                proof {
                    assert(ri.offsets@[t as int] == ro0[t as int]);
                    assert(ro0[t as int] as int == seq_off(Node::elems_of(rc0.take(t as int + 1))));
                    assert(crow.take(1) =~= Seq::<Node<T>>::empty().push(lc0.last()));
                    Node::lemma_elems_take_succ(crow, 0);
                    assert(crow.take(0) =~= Seq::<Node<T>>::empty());
                    assert(Seq::<T>::empty() + lc0.last().elems() =~= lc0.last().elems());
                    assert(crow.take(t as int + 2) =~= crow.take(1) + rc0.take(t as int + 1));
                    Node::lemma_elems_of_concat(crow.take(1), rc0.take(t as int + 1));
                    lemma_seq_off_concat(
                        Node::elems_of(crow.take(1)),
                        Node::elems_of(rc0.take(t as int + 1)),
                    );
                    Node::lemma_row_prefix_off_bound(crow, t as int + 2);
                    lemma_seq_abs_nonneg(Node::elems_of(crow));
                }
                let v = ri.offsets[t] + moved;
                ri.offsets.set(t, v);
                t = t + 1;
            }
            ri.offsets.insert(0, moved);
            ri.children.insert(0, c);
            proof {
                let lc1 = li.children@;
                let rc1 = ri.children@;
                assert(lc1 =~= lc0.drop_last());
                assert(rc1 =~= crow);
                // left checkpoints are the old ones, one fewer
                assert forall|u: int| 0 <= u < li.offsets@.len() implies (
                #[trigger] li.offsets@[u]) as int == seq_off(Node::elems_of(lc1.take(u + 1))) by {
                    assert(li.offsets@[u] == lo0[u]);
                    assert(lo0[u] as int == seq_off(Node::elems_of(lc0.take(u + 1))));
                    assert(lc1.take(u + 1) =~= lc0.take(u + 1));
                }
                // right checkpoints against the grown row
                assert forall|u: int| 0 <= u < ri.offsets@.len() implies (
                #[trigger] ri.offsets@[u]) as int == seq_off(Node::elems_of(rc1.take(u + 1))) by {
                    assert(rc1.take(1) =~= Seq::<Node<T>>::empty().push(lc0.last()));
                    Node::lemma_elems_take_succ(rc1, 0);
                    assert(rc1.take(0) =~= Seq::<Node<T>>::empty());
                    assert(Seq::<T>::empty() + lc0.last().elems() =~= lc0.last().elems());
                    if u > 0 {
                        assert(ri.offsets@[u] as int == ro0[u - 1] as int + moved as int);
                        assert(ro0[u - 1] as int == seq_off(Node::elems_of(rc0.take(u))));
                        assert(rc1.take(u + 1) =~= rc1.take(1) + rc0.take(u));
                        Node::lemma_elems_of_concat(rc1.take(1), rc0.take(u));
                        lemma_seq_off_concat(
                            Node::elems_of(rc1.take(1)),
                            Node::elems_of(rc0.take(u)),
                        );
                    }
                }
                // child facts of both rows
                assert forall|i: int| 0 <= i < lc1.len() implies (#[trigger] lc1[i]).wf_core()
                    && lc1[i].count() >= ORDER && lc1[i].height() == lc1[0].height() by {
                    assert(lc1[i] == lc0[i]);
                    assert(lc0[i].height() == lc0[0].height());
                    assert(lc1[0] == lc0[0]);
                }
                assert forall|i: int| 0 <= i < rc1.len() implies (#[trigger] rc1[i]).wf_core()
                    && rc1[i].count() >= ORDER && rc1[i].height() == rc1[0].height() by {
                    if i > 0 {
                        assert(rc1[i] == rc0[i - 1]);
                        assert(rc0[i - 1].height() == rc0[0].height());
                    }
                    assert(rc1[0] == lc0.last());
                    assert(lc0.last().height() == lc0[0].height());
                    assert(left.height() == 1 + lc0[0].height());
                    assert(right.height() == 1 + rc0[0].height());
                }
                // element sequences concatenate unchanged
                Node::lemma_elems_of_concat(lc1, rc1);
                Node::lemma_elems_take_succ(crow, 0);
                assert(crow.subrange(1, crow.len() as int) =~= rc0);
                Node::lemma_row_abs_bounds(crow, 1);
                assert(lc1 + rc1 =~= lc0.drop_last() + crow);
                Node::lemma_elems_of_concat(lc0.drop_last(), crow);
                assert(lc0.drop_last() =~= lc0.take(lc0.len() - 1));
                assert(Node::elems_of(lc0.take(lc0.len() - 1)) + Node::elems_of(crow)
                    =~= left.elems() + right.elems());
                assert(Node::elems_of(lc1) == Node::elems_of(lc0.take(lc0.len() - 1)));
            }
            (Node::Internal(li), Node::Internal(ri), lb)
        },
        (l, _r) => {
            proof {
                assert(false);
            }
            (l, _r, 0)
        },
    }
}

/// Move everything in `right` to the back of `left`, producing one node.
/// `left_len` is the summed offset of `left`'s elements.
fn merge_nodes<T: ToOffset>(left: Node<T>, right: Node<T>, left_len: i64) -> (m: Node<T>)
    requires
        left.wf_core(),
        right.wf_core(),
        left.is_leaf() == right.is_leaf(),
        left.height() == right.height(),
        left.count() >= 1,
        right.count() >= 1,
        left.count() + right.count() <= 2 * ORDER,
        left_len as int == seq_off(left.elems()),
        seq_abs(left.elems() + right.elems()) <= i64::MAX,
    ensures
        m.wf_core(),
        m.count() == left.count() + right.count(),
        m.is_leaf() == left.is_leaf(),
        m.height() == left.height(),
        m.elems() == left.elems() + right.elems(),
{
    match (left, right) {
        (Node::Leaf(mut lv), Node::Leaf(mut rv)) => {
            lv.append(&mut rv);
            Node::Leaf(lv)
        },
        (Node::Internal(mut li), Node::Internal(mut ri)) => {
            let ghost lc0 = li.children@;
            let ghost lo0 = li.offsets@;
            let ghost rc0 = ri.children@;
            let ghost ro0 = ri.offsets@;
            proof {
                assert(left.elems() == Node::elems_of(lc0));
                assert(right.elems() == Node::elems_of(rc0));
                lemma_seq_abs_concat(left.elems(), right.elems());
                lemma_seq_abs_nonneg(left.elems());
                lemma_seq_abs_nonneg(right.elems());
                lemma_seq_off_le_abs(left.elems());
            }
            li.offsets.push(left_len);
            let mut t: usize = 0;
            while t < ri.offsets.len()
                invariant
                    0 <= t <= ro0.len(),
                    ri.offsets@ == ro0,
                    ri.children@ == rc0,
                    li.children@ == lc0,
                    li.offsets@.len() == lo0.len() + 1 + t,
                    forall|u: int| 0 <= u < lo0.len() ==> li.offsets@[u] == lo0[u],
                    li.offsets@[lo0.len() as int] == left_len,
                    forall|u: int|
                        0 <= u < t ==> (#[trigger] li.offsets@[lo0.len() + 1 + u]) as int
                            == ro0[u] as int + left_len as int,
                    checkpoints_ok(ro0, rc0),
                    left_len as int == seq_off(Node::elems_of(lc0)),
                    seq_abs(Node::elems_of(lc0) + Node::elems_of(rc0)) <= i64::MAX,
                decreases ro0.len() - t,
            {
                proof {
                    assert(ro0[t as int] as int == seq_off(Node::elems_of(rc0.take(t as int + 1))));
                    // the raised checkpoint is a prefix sum of the combined
                    // elements
                    let comb = lc0 + rc0;
                    assert(comb.take(lc0.len() + t + 1) =~= lc0 + rc0.take(t as int + 1));
                    Node::lemma_elems_of_concat(lc0, rc0.take(t as int + 1));
                    lemma_seq_off_concat(
                        Node::elems_of(lc0),
                        Node::elems_of(rc0.take(t as int + 1)),
                    );
                    Node::lemma_row_prefix_off_bound(comb, lc0.len() + t + 1);
                    Node::lemma_elems_of_concat(lc0, rc0);
                    assert(Node::elems_of(comb) == Node::elems_of(lc0) + Node::elems_of(rc0));
                    lemma_seq_abs_nonneg(Node::elems_of(comb));
                }
                let v = ri.offsets[t] + left_len;
                li.offsets.push(v);
                t = t + 1;
            }
            li.children.append(&mut ri.children);
            proof {
                let lc1 = li.children@;
                assert(lc1 =~= lc0 + rc0);
                Node::lemma_elems_of_concat(lc0, rc0);
                assert forall|u: int| 0 <= u < li.offsets@.len() implies (
                #[trigger] li.offsets@[u]) as int == seq_off(Node::elems_of(lc1.take(u + 1))) by {
                    if u < lo0.len() {
                        assert(li.offsets@[u] == lo0[u]);
                        assert(lo0[u] as int == seq_off(Node::elems_of(lc0.take(u + 1))));
                        assert(lc1.take(u + 1) =~= lc0.take(u + 1));
                    } else if u == lo0.len() {
                        assert(lc1.take(u + 1) =~= lc0);
                        assert(lc0.take(lc0.len() as int) =~= lc0);
                    } else {
                        assert(li.offsets@[lo0.len() + 1 + (u - lo0.len() - 1)] as int == ro0[u
                            - lo0.len() - 1] as int + left_len as int);
                        assert(li.offsets@[u] as int == ro0[u - lo0.len() - 1] as int
                            + left_len as int);
                        assert(ro0[u - lo0.len() - 1] as int == seq_off(
                            Node::elems_of(rc0.take(u - lo0.len())),
                        ));
                        assert(lc1.take(u + 1) =~= lc0 + rc0.take(u - lo0.len()));
                        Node::lemma_elems_of_concat(lc0, rc0.take(u - lo0.len()));
                        lemma_seq_off_concat(
                            Node::elems_of(lc0),
                            Node::elems_of(rc0.take(u - lo0.len())),
                        );
                    }
                }
                assert forall|i: int| 0 <= i < lc1.len() implies (#[trigger] lc1[i]).wf_core()
                    && lc1[i].count() >= ORDER && lc1[i].height() == lc1[0].height() by {
                    if i < lc0.len() {
                        assert(lc1[i] == lc0[i]);
                        assert(lc0[i].height() == lc0[0].height());
                    } else {
                        assert(lc1[i] == rc0[i - lc0.len()]);
                        assert(rc0[i - lc0.len()].height() == rc0[0].height());
                        assert(left.height() == 1 + lc0[0].height());
                        assert(right.height() == 1 + rc0[0].height());
                    }
                    assert(lc1[0] == lc0[0]);
                }
            }
            Node::Internal(li)
        },
        (l, _r) => {
            proof {
                assert(false);
            }
            l
        },
    }
}


impl<T: ToOffset> Node<T> {
    /// After one subtree of a row gives up a removed element, every row
    /// prefix that covers that subtree holds the old prefix with the element
    /// removed, and earlier prefixes are unchanged.
    pub(crate) proof fn lemma_prefix_after_child_remove(
        cs0: Seq<Node<T>>,
        csn: Seq<Node<T>>,
        k: int,
        li: int,
        e: T,
        m: int,
    )
        requires
            0 <= k < cs0.len(),
            csn == cs0.update(k, csn[k]),
            cs0[k].elems() == csn[k].elems().insert(li, e),
            0 <= li <= csn[k].elems().len(),
            0 <= m <= cs0.len(),
        ensures
            m <= k ==> Self::elems_of(csn.take(m)) == Self::elems_of(cs0.take(m)),
            m > k ==> Self::elems_of(csn.take(m)) == Self::elems_of(cs0.take(m)).remove(
                Self::elems_of(cs0.take(k)).len() + li,
            ),
            m > k ==> Self::elems_of(cs0.take(m)) == Self::elems_of(csn.take(m)).insert(
                Self::elems_of(cs0.take(k)).len() + li,
                e,
            ),
    {
        assert(cs0 == csn.update(k, cs0[k])) by {
            assert(cs0 =~= csn.update(k, cs0[k]));
        }
        Self::lemma_prefix_after_child_insert(csn, cs0, k, li, e, m);
        assert(csn.take(k) =~= cs0.take(k));
        if m > k {
            let pos = Self::elems_of(cs0.take(k)).len() + li;
            Self::lemma_elems_decompose(csn.take(m), k);
            assert(csn.take(m).take(k) =~= csn.take(k));
            assert(csn.take(m)[k] == csn[k]);
            assert(pos <= Self::elems_of(csn.take(m)).len());
            assert(Self::elems_of(csn.take(m)).insert(pos as int, e).remove(pos as int)
                =~= Self::elems_of(csn.take(m)));
        }
    }
}

/// After one child of a row gives up a removed element and every checkpoint
/// at or after it is lowered by the element's offset, the checkpoints again
/// match the row.
proof fn lemma_checkpoints_after_give<T: ToOffset>(
    cs0: Seq<Node<T>>,
    csn: Seq<Node<T>>,
    off0: Seq<i64>,
    off1: Seq<i64>,
    k: int,
    li: int,
    e: T,
)
    requires
        0 <= k < cs0.len(),
        csn == cs0.update(k, csn[k]),
        cs0[k].elems() == csn[k].elems().insert(li, e),
        0 <= li <= csn[k].elems().len(),
        checkpoints_ok(off0, cs0),
        off1.len() == off0.len(),
        forall|t: int| 0 <= t < k ==> off1[t] == off0[t],
        forall|t: int|
            k <= t < off0.len() ==> (#[trigger] off1[t]) as int == off0[t] as int
                - e.spec_offset(),
    ensures
        checkpoints_ok(off1, csn),
{
    assert forall|t: int| 0 <= t < off1.len() implies (#[trigger] off1[t]) as int == seq_off(
        Node::elems_of(csn.take(t + 1)),
    ) by {
        Node::lemma_prefix_after_child_remove(cs0, csn, k, li, e, t + 1);
        assert(off0[t] as int == seq_off(Node::elems_of(cs0.take(t + 1))));
        if t >= k {
            Node::lemma_elems_decompose(csn.take(t + 1), k);
            assert(csn.take(t + 1).take(k) =~= csn.take(k));
            assert(csn.take(k) =~= cs0.take(k));
            assert(csn.take(t + 1)[k] == csn[k]);
            lemma_seq_off_insert(
                Node::elems_of(csn.take(t + 1)),
                Node::elems_of(cs0.take(k)).len() + li,
                e,
            );
        }
    }
}

/// The left member of an adjacent pair in a row: the difference of the
/// checkpoints around it is its own offset sum, and the pair's elements obey
/// the row's offset budget.
proof fn lemma_pair_setup<T: ToOffset>(cs: Seq<Node<T>>, off: Seq<i64>, a: int)
    requires
        checkpoints_ok(off, cs),
        0 <= a,
        a + 2 <= cs.len(),
        seq_abs(Node::elems_of(cs)) <= i64::MAX,
    ensures
        a == 0 ==> off[0] as int == seq_off(cs[0].elems()),
        a > 0 ==> off[a] as int - off[a - 1] as int == seq_off(cs[a].elems()),
        seq_abs(cs[a].elems() + cs[a + 1].elems()) <= seq_abs(Node::elems_of(cs)),
        seq_abs(Node::elems_of(cs)) >= 0,
{
    lemma_pair_prefix(cs, a, cs.len() as int);
    assert(cs.take(cs.len() as int) =~= cs);
    let pa = Node::elems_of(cs.take(a));
    let rest = Node::elems_of(cs.subrange(a + 2, cs.len() as int));
    lemma_seq_abs_concat(pa + cs[a].elems() + cs[a + 1].elems(), rest);
    lemma_seq_abs_concat(pa + cs[a].elems(), cs[a + 1].elems());
    lemma_seq_abs_concat(pa, cs[a].elems());
    lemma_seq_abs_concat(cs[a].elems(), cs[a + 1].elems());
    lemma_seq_abs_nonneg(pa);
    lemma_seq_abs_nonneg(rest);
    lemma_seq_abs_nonneg(cs[a].elems());
    lemma_seq_abs_nonneg(cs[a + 1].elems());
    if a == 0 {
        assert(off[0] as int == seq_off(Node::elems_of(cs.take(1))));
        Node::lemma_elems_take_succ(cs, 0);
        assert(cs.take(0) =~= Seq::<Node<T>>::empty());
        assert(Seq::<T>::empty() + cs[0].elems() =~= cs[0].elems());
    } else {
        assert(off[a] as int == seq_off(Node::elems_of(cs.take(a + 1))));
        assert(off[a - 1] as int == seq_off(Node::elems_of(cs.take(a))));
        Node::lemma_elems_take_succ(cs, a);
        lemma_seq_off_concat(pa, cs[a].elems());
    }
}

/// Exchanging elements inside an adjacent pair (their concatenation
/// unchanged) keeps the row's elements and its child facts.
proof fn lemma_row_exchange<T: ToOffset>(cs1: Seq<Node<T>>, cs2: Seq<Node<T>>, a: int, hgt: nat)
    requires
        0 <= a,
        a + 2 <= cs1.len(),
        cs2.len() == cs1.len(),
        cs2 == cs1.update(a, cs2[a]).update(a + 1, cs2[a + 1]),
        cs2[a].elems() + cs2[a + 1].elems() == cs1[a].elems() + cs1[a + 1].elems(),
        forall|i: int|
            0 <= i < cs1.len() && i != a && i != a + 1 ==> (#[trigger] cs1[i]).wf_core() && cs1[i].count() >= ORDER && cs1[i].height() == hgt,
        cs2[a].wf_core() && cs2[a].count() >= ORDER && cs2[a].height() == hgt,
        cs2[a + 1].wf_core() && cs2[a + 1].count() >= ORDER && cs2[a + 1].height() == hgt,
    ensures
        Node::elems_of(cs2) == Node::elems_of(cs1),
        forall|i: int| 0 <= i < cs2.len() ==> (#[trigger] cs2[i]).wf_core(),
        forall|i: int| 0 <= i < cs2.len() ==> (#[trigger] cs2[i]).count() >= ORDER,
        forall|i: int| 0 <= i < cs2.len() ==> (#[trigger] cs2[i]).height() == hgt,
{
    lemma_pair_prefix(cs1, a, cs1.len() as int);
    lemma_pair_prefix(cs2, a, cs2.len() as int);
    assert(cs1.take(cs1.len() as int) =~= cs1);
    assert(cs2.take(cs2.len() as int) =~= cs2);
    assert(cs2.take(a) =~= cs1.take(a));
    assert(cs2.subrange(a + 2, cs2.len() as int) =~= cs1.subrange(a + 2, cs1.len() as int));
    let pa = Node::elems_of(cs1.take(a));
    let rest = Node::elems_of(cs1.subrange(a + 2, cs1.len() as int));
    assert(pa + cs2[a].elems() + cs2[a + 1].elems() + rest =~= pa + (cs2[a].elems() + cs2[a
        + 1].elems()) + rest);
    assert(pa + cs1[a].elems() + cs1[a + 1].elems() + rest =~= pa + (cs1[a].elems() + cs1[a
        + 1].elems()) + rest);
    assert forall|i: int| 0 <= i < cs2.len() implies (#[trigger] cs2[i]).wf_core() && cs2[i].count() >= ORDER && cs2[i].height() == hgt by {
        if i != a && i != a + 1 {
            assert(cs2[i] == cs1[i]);
        }
    }
}

/// Merging an adjacent pair into one subtree keeps the row's elements and
/// its child facts.
proof fn lemma_row_merge<T: ToOffset>(cs1: Seq<Node<T>>, cs2: Seq<Node<T>>, a: int, hgt: nat)
    requires
        0 <= a,
        a + 2 <= cs1.len(),
        cs2.len() == cs1.len() - 1,
        forall|i: int| 0 <= i < a ==> cs2[i] == cs1[i],
        forall|i: int| a < i < cs2.len() ==> cs2[i] == cs1[i + 1],
        cs2[a].elems() == cs1[a].elems() + cs1[a + 1].elems(),
        forall|i: int|
            0 <= i < cs1.len() && i != a && i != a + 1 ==> (#[trigger] cs1[i]).wf_core() && cs1[i].count() >= ORDER && cs1[i].height() == hgt,
        cs2[a].wf_core() && cs2[a].count() >= ORDER && cs2[a].height() == hgt,
    ensures
        Node::elems_of(cs2) == Node::elems_of(cs1),
        forall|i: int| 0 <= i < cs2.len() ==> (#[trigger] cs2[i]).wf_core(),
        forall|i: int| 0 <= i < cs2.len() ==> (#[trigger] cs2[i]).count() >= ORDER,
        forall|i: int| 0 <= i < cs2.len() ==> (#[trigger] cs2[i]).height() == hgt,
{
    lemma_pair_prefix(cs1, a, cs1.len() as int);
    assert(cs1.take(cs1.len() as int) =~= cs1);
    Node::lemma_elems_decompose(cs2, a);
    assert(cs2.take(a) =~= cs1.take(a));
    assert(cs2.subrange(a + 1, cs2.len() as int) =~= cs1.subrange(a + 2, cs1.len() as int));
    let pa = Node::elems_of(cs1.take(a));
    let rest = Node::elems_of(cs1.subrange(a + 2, cs1.len() as int));
    assert(pa + (cs1[a].elems() + cs1[a + 1].elems()) + rest =~= pa + cs1[a].elems() + cs1[a
        + 1].elems() + rest);
    assert forall|i: int| 0 <= i < cs2.len() implies (#[trigger] cs2[i]).wf_core() && cs2[i].count() >= ORDER && cs2[i].height() == hgt by {
        if i < a {
            assert(cs2[i] == cs1[i]);
        } else if i > a {
            assert(cs2[i] == cs1[i + 1]);
        }
    }
}

/// Resolve an underflow by rotation: the pair of adjacent children at
/// `a, a + 1` exchanges one member, from the right sibling when `rot_right`
/// and from the left otherwise.
#[verifier::rlimit(100)]
fn rebalance_rotate<T: ToOffset>(
    offsets: Vec<i64>,
    children: Vec<Node<T>>,
    a: usize,
    rot_right: bool,
    Ghost(hgt): Ghost<nat>,
) -> (r: (Vec<i64>, Vec<Node<T>>))
    requires
        2 <= children@.len() <= 2 * ORDER,
        offsets@.len() == children@.len() - 1,
        a + 2 <= children@.len(),
        checkpoints_ok(offsets@, children@),
        forall|i: int|
            0 <= i < children@.len() && i != a && i != a + 1 ==> (#[trigger] children@[i]).wf_core() && children@[i].count() >= ORDER && children@[i].height() == hgt,
        children@[a as int].wf_core(),
        children@[a as int].height() == hgt,
        children@[a as int + 1].wf_core(),
        children@[a as int + 1].height() == hgt,
        children@[a as int].is_leaf() == children@[a as int + 1].is_leaf(),
        rot_right ==> children@[a as int].count() < 2 * ORDER && children@[a as int
            + 1].count() > ORDER && children@[a as int].count() + 1 >= ORDER,
        !rot_right ==> children@[a as int].count() > ORDER && children@[a as int
            + 1].count() < 2 * ORDER && children@[a as int + 1].count() + 1 >= ORDER,
        seq_abs(Node::elems_of(children@)) <= i64::MAX,
    ensures
        checkpoints_ok(r.0@, r.1@),
        Node::elems_of(r.1@) == Node::elems_of(children@),
        forall|i: int| 0 <= i < r.1@.len() ==> (#[trigger] r.1@[i]).wf_core(),
        forall|i: int| 0 <= i < r.1@.len() ==> (#[trigger] r.1@[i]).count() >= ORDER,
        forall|i: int| 0 <= i < r.1@.len() ==> (#[trigger] r.1@[i]).height() == hgt,
        r.1@.len() == children@.len(),
{
    let ghost csn = children@;
    let ghost offr0 = offsets@;
    let mut offsets = offsets;
    let mut children = children;
    proof {
        lemma_pair_setup(csn, offr0, a as int);
        lemma_seq_abs_concat(csn[a as int].elems(), csn[a as int + 1].elems());
        lemma_seq_abs_nonneg(csn[a as int].elems());
        lemma_seq_abs_nonneg(csn[a as int + 1].elems());
        lemma_seq_off_le_abs(csn[a as int].elems());
    }
    let ll = if a == 0 {
        offsets[0]
    } else {
        offsets[a] - offsets[a - 1]
    };
    let ln = children.remove(a);
    let rn = children.remove(a);
    proof {
        assert(ln == csn[a as int]);
        assert(rn == csn[a as int + 1]);
        assert(ll as int == seq_off(ln.elems()));
    }
    let pair = if rot_right {
        rotate_from_right(ln, rn, ll)
    } else {
        rotate_from_left(ln, rn, ll)
    };
    let (l2, r2, nbl) = pair;
    children.insert(a, l2);
    children.insert(a + 1, r2);
    proof {
        let csr = children@;
        assert(csr =~= csn.update(a as int, csr[a as int]).update(
            a as int + 1,
            csr[a as int + 1],
        ));
        lemma_row_exchange(csn, csr, a as int, hgt);
        // the new boundary is a prefix sum of the unchanged row elements
        Node::lemma_elems_take_succ(csr, a as int);
        assert(csr.take(a as int) =~= csn.take(a as int));
        lemma_seq_off_concat(Node::elems_of(csn.take(a as int)), l2.elems());
        Node::lemma_row_prefix_off_bound(csr, a as int + 1);
        lemma_seq_abs_nonneg(Node::elems_of(csr));
        if a > 0 {
            assert(offsets@[a as int - 1] == offr0[a as int - 1]);
            assert(offr0[a as int - 1] as int == seq_off(Node::elems_of(csn.take(a as int))));
        } else {
            assert(csn.take(0) =~= Seq::<Node<T>>::empty());
        }
    }
    let nb = if a == 0 {
        nbl
    } else {
        offsets[a - 1] + nbl
    };
    offsets.set(a, nb);
    proof {
        let csr = children@;
        lemma_checkpoints_after_exchange(csn, csr, offr0, offsets@, a as int);
    }
    (offsets, children)
}

/// Resolve an underflow by merging the pair of adjacent children at
/// `a, a + 1` into one.
#[verifier::rlimit(100)]
fn rebalance_merge<T: ToOffset>(
    offsets: Vec<i64>,
    children: Vec<Node<T>>,
    a: usize,
    Ghost(hgt): Ghost<nat>,
) -> (r: (Vec<i64>, Vec<Node<T>>))
    requires
        2 <= children@.len() <= 2 * ORDER,
        offsets@.len() == children@.len() - 1,
        a + 2 <= children@.len(),
        checkpoints_ok(offsets@, children@),
        forall|i: int|
            0 <= i < children@.len() && i != a && i != a + 1 ==> (#[trigger] children@[i]).wf_core() && children@[i].count() >= ORDER && children@[i].height() == hgt,
        children@[a as int].wf_core(),
        children@[a as int].height() == hgt,
        children@[a as int + 1].wf_core(),
        children@[a as int + 1].height() == hgt,
        children@[a as int].is_leaf() == children@[a as int + 1].is_leaf(),
        children@[a as int].count() >= 1,
        children@[a as int + 1].count() >= 1,
        ORDER <= children@[a as int].count() + children@[a as int + 1].count() <= 2 * ORDER,
        seq_abs(Node::elems_of(children@)) <= i64::MAX,
    ensures
        checkpoints_ok(r.0@, r.1@),
        Node::elems_of(r.1@) == Node::elems_of(children@),
        forall|i: int| 0 <= i < r.1@.len() ==> (#[trigger] r.1@[i]).wf_core(),
        forall|i: int| 0 <= i < r.1@.len() ==> (#[trigger] r.1@[i]).count() >= ORDER,
        forall|i: int| 0 <= i < r.1@.len() ==> (#[trigger] r.1@[i]).height() == hgt,
        r.1@.len() == children@.len() - 1,
{
    let ghost csn = children@;
    let ghost offr0 = offsets@;
    let mut offsets = offsets;
    let mut children = children;
    proof {
        lemma_pair_setup(csn, offr0, a as int);
        lemma_seq_abs_concat(csn[a as int].elems(), csn[a as int + 1].elems());
        lemma_seq_abs_nonneg(csn[a as int].elems());
        lemma_seq_abs_nonneg(csn[a as int + 1].elems());
        lemma_seq_off_le_abs(csn[a as int].elems());
    }
    let ll = if a == 0 {
        offsets[0]
    } else {
        offsets[a] - offsets[a - 1]
    };
    let ln = children.remove(a);
    let rn = children.remove(a);
    proof {
        assert(ln == csn[a as int]);
        assert(rn == csn[a as int + 1]);
        assert(ll as int == seq_off(ln.elems()));
    }
    let merged = merge_nodes(ln, rn, ll);
    children.insert(a, merged);
    offsets.remove(a);
    proof {
        let csm = children@;
        assert(csm.len() == csn.len() - 1);
        assert(forall|i: int| 0 <= i < a ==> csm[i] == csn[i]);
        assert(forall|i: int| a < i < csm.len() ==> csm[i] == csn[i + 1]);
        lemma_row_merge(csn, csm, a as int, hgt);
        lemma_checkpoints_after_merge(csn, csm, offr0, a as int);
        assert(offsets@ =~= offr0.remove(a as int));
    }
    (offsets, children)
}

/// Resolve an underflow of the `k`-th child of a row: borrow one element or
/// child from an adjacent sibling with spare occupancy (a rotation), or, if
/// neither sibling has any, merge with one. Rotation is preferred since it
/// leaves the row's own occupancy unchanged; the right sibling is tried
/// first, and a merge takes the left sibling when there is one.
fn rebalance_at<T: ToOffset>(
    offsets: Vec<i64>,
    children: Vec<Node<T>>,
    k: usize,
    Ghost(hgt): Ghost<nat>,
) -> (r: (Vec<i64>, Vec<Node<T>>))
    requires
        2 <= children@.len() <= 2 * ORDER,
        offsets@.len() == children@.len() - 1,
        k < children@.len(),
        checkpoints_ok(offsets@, children@),
        forall|i: int|
            0 <= i < children@.len() && i != k ==> (#[trigger] children@[i]).wf_core()
                && children@[i].count() >= ORDER && children@[i].height() == hgt,
        children@[k as int].wf_core(),
        children@[k as int].height() == hgt,
        1 <= children@[k as int].count() < ORDER,
        children@[k as int].count() + 1 >= ORDER,
        forall|i: int|
            0 <= i < children@.len() ==> (#[trigger] children@[i]).is_leaf() == children@[0].is_leaf(),
        seq_abs(Node::elems_of(children@)) <= i64::MAX,
    ensures
        checkpoints_ok(r.0@, r.1@),
        Node::elems_of(r.1@) == Node::elems_of(children@),
        forall|i: int| 0 <= i < r.1@.len() ==> (#[trigger] r.1@[i]).wf_core(),
        forall|i: int| 0 <= i < r.1@.len() ==> (#[trigger] r.1@[i]).count() >= ORDER,
        forall|i: int| 0 <= i < r.1@.len() ==> (#[trigger] r.1@[i]).height() == hgt,
        children@.len() - 1 <= r.1@.len() <= children@.len(),
{
    let rot_right = k + 1 < children.len() && node_count(&children[k + 1]) > ORDER;
    let rot_left = !rot_right && k > 0 && node_count(&children[k - 1]) > ORDER;
    if rot_right {
        rebalance_rotate(offsets, children, k, true, Ghost(hgt))
    } else if rot_left {
        rebalance_rotate(offsets, children, k - 1, false, Ghost(hgt))
    } else if k > 0 {
        rebalance_merge(offsets, children, k - 1, Ghost(hgt))
    } else {
        rebalance_merge(offsets, children, k, Ghost(hgt))
    }
}

/// Remove the element addressed by `p[d..]` from the subtree `n`,
/// rebalancing on the way back up: a rotation from a sibling with spare
/// occupancy where possible, a merge otherwise.
///
/// Returns the node back, the removed element, that element's offset, and
/// whether the node itself now holds fewer than `ORDER` children or elements
/// (an underflow the caller must resolve; at the root it may be benign).
#[verifier::rlimit(100)]
pub(crate) fn remove_node<T: ToOffset>(n: Node<T>, p: &Vec<usize>, d: usize) -> (r: (
    Node<T>,
    T,
    i64,
    bool,
))
    requires
        n.wf_core(),
        n is Internal ==> n.count() >= 2,
        d < p@.len(),
        n.path_ok(p@.skip(d as int), false),
        seq_abs(n.elems()) <= i64::MAX,
    ensures
        r.0.wf_core(),
        r.0.height() == n.height(),
        r.0.is_leaf() == n.is_leaf(),
        n.count() - 1 <= r.0.count() <= n.count(),
        r.1 == n.elems()[n.path_index(p@.skip(d as int))],
        r.0.elems() == n.elems().remove(n.path_index(p@.skip(d as int))),
        r.2 as int == r.1.spec_offset(),
        r.3 <==> r.0.count() < ORDER,
    decreases p@.len() - d,
{
    let ghost ss = p@.skip(d as int);
    proof {
        assert(ss[0] == p@[d as int]);
    }
    match n {
        Node::Leaf(mut v) => {
            let i = p[d];
            let e = v.remove(i);
            let off = e.to_offset();
            let uf = v.len() < ORDER;
            (Node::Leaf(v), e, off, uf)
        },
        Node::Internal(ino) => {
            let mut offsets = ino.offsets;
            let mut children = ino.children;
            let k = p[d];
            let ghost cs0 = children@;
            let ghost off0 = offsets@;
            let ghost li = cs0[k as int].path_index(ss.drop_first());
            let ghost idx = n.path_index(ss);
            proof {
                assert(ss.drop_first() =~= p@.skip(d as int + 1));
                vstd::std_specs::vec::axiom_spec_len(p);
                Node::lemma_elems_decompose(cs0, k as int);
                lemma_seq_abs_concat(
                    Node::elems_of(cs0.take(k as int)) + cs0[k as int].elems(),
                    Node::elems_of(cs0.subrange(k as int + 1, cs0.len() as int)),
                );
                lemma_seq_abs_concat(Node::elems_of(cs0.take(k as int)), cs0[k as int].elems());
                lemma_seq_abs_nonneg(Node::elems_of(cs0.take(k as int)));
                lemma_seq_abs_nonneg(Node::elems_of(cs0.subrange(k as int + 1, cs0.len() as int)));
                Node::lemma_path_index_bounds(cs0[k as int], ss.drop_first(), false);
                assert(idx == Node::elems_of(cs0.take(k as int)).len() + li);
            }
            let child = children.remove(k);
            let (child2, e, off, uf_child) = remove_node(child, p, d + 1);
            children.insert(k, child2);
            let ghost csn = children@;
            proof {
                assert(csn =~= cs0.update(k as int, csn[k as int]));
                assert(csn[k as int].elems().insert(li, e) =~= cs0[k as int].elems());
                Node::lemma_prefix_after_child_remove(cs0, csn, k as int, li, e, cs0.len() as int);
                assert(csn.take(csn.len() as int) =~= csn);
                assert(cs0.take(cs0.len() as int) =~= cs0);
                crate::offset::lemma_seq_abs_remove(Node::elems_of(cs0), idx);
                lemma_seq_abs_nonneg(Node::elems_of(cs0).remove(idx));
                assert(Node::elems_of(cs0)[idx] == e);
            }
            // lower every checkpoint at or after the shrunken child
            let mut j = k;
            while j < offsets.len()
                invariant
                    k <= j <= offsets@.len(),
                    offsets@.len() == off0.len(),
                    forall|t: int| 0 <= t < k ==> offsets@[t] == off0[t],
                    forall|t: int|
                        k <= t < j ==> (#[trigger] offsets@[t]) as int == off0[t] as int
                            - off as int,
                    forall|t: int| j <= t < off0.len() ==> offsets@[t] == off0[t],
                    off0.len() == cs0.len() - 1,
                    forall|t: int|
                        0 <= t < off0.len() ==> (#[trigger] off0[t]) as int == seq_off(
                            Node::elems_of(cs0.take(t + 1)),
                        ),
                    seq_abs(Node::elems_of(cs0)) <= i64::MAX,
                    seq_abs(Node::elems_of(csn)) <= i64::MAX,
                    off as int == e.spec_offset(),
                    Node::elems_of(csn) == Node::elems_of(cs0).remove(idx),
                    Node::elems_of(cs0) == Node::elems_of(csn).insert(idx, e),
                    0 <= idx < Node::elems_of(cs0).len(),
                    csn == cs0.update(k as int, csn[k as int]),
                    cs0[k as int].elems() == csn[k as int].elems().insert(li, e),
                    0 <= li <= csn[k as int].elems().len(),
                    idx == Node::elems_of(cs0.take(k as int)).len() + li,
                    0 <= k < cs0.len(),
                decreases off0.len() - j,
            {
                proof {
                    lemma_seq_abs_nonneg(Node::elems_of(cs0));
                    assert(offsets@[j as int] == off0[j as int]);
                    assert(off0[j as int] as int == seq_off(
                        Node::elems_of(cs0.take(j as int + 1)),
                    ));
                    Node::lemma_elems_decompose(csn.take(j as int + 1), k as int);
                    assert(csn.take(j as int + 1).take(k as int) =~= csn.take(k as int));
                    assert(csn.take(k as int) =~= cs0.take(k as int));
                    assert(csn.take(j as int + 1)[k as int] == csn[k as int]);
                    Node::lemma_prefix_after_child_remove(cs0, csn, k as int, li, e, j as int + 1);
                    lemma_seq_off_insert(Node::elems_of(csn.take(j as int + 1)), idx, e);
                    Node::lemma_row_prefix_off_bound(csn, j as int + 1);
                    lemma_seq_abs_nonneg(Node::elems_of(csn));
                }
                let t = offsets[j] - off;
                offsets.set(j, t);
                j = j + 1;
            }
            proof {
                lemma_checkpoints_after_give(cs0, csn, off0, offsets@, k as int, li, e);
            }
            let uf_now: bool;
            if uf_child {
                proof {
                    assert(checkpoints_ok(offsets@, csn));
                    assert forall|i: int|
                        0 <= i < csn.len() && i != k implies (#[trigger] csn[i]).wf_core() && csn[
                        i].count() >= ORDER && csn[i].height() == ((n.height() - 1) as nat) by {
                        assert(csn[i] == cs0[i]);
                        assert(cs0[i].height() == cs0[0].height());
                    }
                    assert(csn[k as int].height() == ((n.height() - 1) as nat)) by {
                        assert(cs0[k as int].height() == cs0[0].height());
                    };
                }
                let reb = rebalance_at(offsets, children, k, Ghost((n.height() - 1) as nat));
                offsets = reb.0;
                children = reb.1;
            }
            uf_now = children.len() < ORDER;
            let out = Node::Internal(INode { offsets, children });
            (out, e, off, uf_now)
        },
    }
}


/// Collapse a root whose removal left it an internal node with a single
/// child: that child becomes the root, shrinking the tree by one level.
fn flatten_root<T: ToOffset>(n: Node<T>) -> (r: Node<T>)
    requires
        n.wf_core(),
        n is Internal ==> n.count() >= 1,
    ensures
        r.wf_core(),
        r.elems() == n.elems(),
        r is Internal ==> r.count() >= 2,
{
    match n {
        Node::Internal(mut ino) => {
            if ino.children.len() >= 2 {
                proof {
                    assert(ino.children@.len() >= 2);
                }
                Node::Internal(ino)
            } else {
                let ghost cs = ino.children@;
                let c = ino.children.pop().unwrap();
                proof {
                    assert(cs.len() == 1);
                    Node::lemma_elems_take_succ(cs, 0);
                    assert(cs.take(0) =~= Seq::<Node<T>>::empty());
                    assert(cs.take(1) =~= cs);
                    assert(Seq::<T>::empty() + cs[0].elems() =~= cs[0].elems());
                }
                c
            }
        },
        Node::Leaf(v) => Node::Leaf(v),
    }
}

impl<T: ToOffset> crate::Rope<T> {
    /// Remove and return the element addressed by `at`. The cursor must come
    /// from this rope, unmodified since.
    pub fn remove_at(&mut self, at: crate::Cursor) -> (x: T)
        requires
            old(self).wf(),
            old(self).cursor_ok(at, false),
        ensures
            final(self).wf(),
            x == old(self)@[old(self).cursor_index(at)],
            final(self)@ == old(self)@.remove(old(self).cursor_index(at)),
            seq_abs(final(self)@) == seq_abs(old(self)@) - abs1(x.spec_offset()),
    {
        let ghost v0 = old(self)@;
        let ghost idx = old(self).cursor_index(at);
        let mut root = Node::Leaf(Vec::new());
        std::mem::swap(&mut root, &mut self.root);
        proof {
            assert(at.indices@.skip(0) =~= at.indices@);
            Node::lemma_path_index_bounds(root, at.indices@, false);
            crate::offset::lemma_seq_abs_remove(v0, idx);
            crate::offset::lemma_seq_off_remove(v0, idx);
            lemma_seq_abs_nonneg(v0.remove(idx));
            crate::offset::lemma_seq_off_le_abs(v0.remove(idx));
        }
        let r = remove_node(root, &at.indices, 0);
        let (root2, e, off, uf) = r;
        let root3 = if uf {
            flatten_root(root2)
        } else {
            root2
        };
        self.root = root3;
        self.len = self.len - off;
        e
    }
}

} // verus!
