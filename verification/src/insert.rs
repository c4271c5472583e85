//! Insertion with node splitting.

use vstd::prelude::*;

use crate::node::{INode, Node};
use crate::offset::{
    abs1, lemma_seq_abs_concat, lemma_seq_abs_insert, lemma_seq_abs_nonneg,
    lemma_seq_abs_subrange, lemma_seq_off_concat, lemma_seq_off_insert,
    lemma_seq_off_subrange_bound, lemma_seq_off_take_succ, seq_abs, seq_off, ToOffset,
};
use crate::ORDER;

verus! {

/// Sum the offsets of a leaf's elements from scratch.
pub(crate) fn leaf_total<T: ToOffset>(v: &Vec<T>) -> (s: i64)
    requires
        seq_abs(v@) <= i64::MAX,
    ensures
        s as int == seq_off(v@),
{
    let mut s: i64 = 0;
    let mut k: usize = 0;
    proof {
        assert(v@.take(0) =~= Seq::<T>::empty());
    }
    while k < v.len()
        invariant
            0 <= k <= v@.len(),
            s as int == seq_off(v@.take(k as int)),
            seq_abs(v@) <= i64::MAX,
        decreases v@.len() - k,
    {
        proof {
            lemma_seq_off_take_succ(v@, k as int);
            assert(v@.take(k as int + 1) =~= v@.subrange(0, k as int + 1));
            lemma_seq_off_subrange_bound(v@, 0, k as int + 1);
        }
        s = s + v[k].to_offset();
        k = k + 1;
    }
    proof {
        assert(v@.take(v@.len() as int) =~= v@);
    }
    s
}

impl<T: ToOffset> Node<T> {
    /// A row prefix's elements weigh no more (in absolute offsets) than the
    /// whole row's.
    pub(crate) proof fn lemma_row_abs_bounds(cs: Seq<Node<T>>, m: int)
        requires
            0 <= m <= cs.len(),
        ensures
            Self::elems_of(cs) == Self::elems_of(cs.take(m)) + Self::elems_of(
                cs.subrange(m, cs.len() as int),
            ),
            seq_abs(Self::elems_of(cs.take(m))) <= seq_abs(Self::elems_of(cs)),
            Self::elems_of(cs.take(m)) == Self::elems_of(cs).subrange(
                0,
                Self::elems_of(cs.take(m)).len() as int,
            ),
    {
        assert(cs =~= cs.take(m) + cs.subrange(m, cs.len() as int));
        Self::lemma_elems_of_concat(cs.take(m), cs.subrange(m, cs.len() as int));
        lemma_seq_abs_concat(
            Self::elems_of(cs.take(m)),
            Self::elems_of(cs.subrange(m, cs.len() as int)),
        );
        lemma_seq_abs_nonneg(Self::elems_of(cs.subrange(m, cs.len() as int)));
        assert(Self::elems_of(cs.take(m)) =~= Self::elems_of(cs).subrange(
            0,
            Self::elems_of(cs.take(m)).len() as int,
        ));
    }

    /// A row-prefix offset sum fits in the machine range whenever the whole
    /// row's absolute offsets do.
    pub(crate) proof fn lemma_row_prefix_off_bound(cs: Seq<Node<T>>, m: int)
        requires
            0 <= m <= cs.len(),
        ensures
            abs1(seq_off(Self::elems_of(cs.take(m)))) <= seq_abs(Self::elems_of(cs)),
    {
        Self::lemma_row_abs_bounds(cs, m);
        crate::offset::lemma_seq_off_le_abs(Self::elems_of(cs.take(m)));
    }
}


/// After one child of a row absorbs an inserted element and every checkpoint
/// at or after it is raised by the element's offset, the checkpoints again
/// match the row.
proof fn lemma_checkpoints_after_absorb<T: ToOffset>(
    cs0: Seq<Node<T>>,
    csn: Seq<Node<T>>,
    off0: Seq<i64>,
    off1: Seq<i64>,
    k: int,
    li: int,
    x: T,
)
    requires
        0 <= k < cs0.len(),
        csn == cs0.update(k, csn[k]),
        csn[k].elems() == cs0[k].elems().insert(li, x),
        0 <= li <= cs0[k].elems().len(),
        off0.len() == cs0.len() - 1,
        off1.len() == off0.len(),
        forall|t: int|
            0 <= t < off0.len() ==> (#[trigger] off0[t]) as int == seq_off(
                Node::elems_of(cs0.take(t + 1)),
            ),
        forall|t: int| 0 <= t < k ==> off1[t] == off0[t],
        forall|t: int|
            k <= t < off0.len() ==> (#[trigger] off1[t]) as int == off0[t] as int
                + x.spec_offset(),
    ensures
        forall|t: int|
            0 <= t < off1.len() ==> (#[trigger] off1[t]) as int == seq_off(
                Node::elems_of(csn.take(t + 1)),
            ),
{
    assert forall|t: int| 0 <= t < off1.len() implies (#[trigger] off1[t]) as int == seq_off(
        Node::elems_of(csn.take(t + 1)),
    ) by {
        Node::lemma_prefix_after_child_insert(cs0, csn, k, li, x, t + 1);
        assert(off0[t] as int == seq_off(Node::elems_of(cs0.take(t + 1))));
        if t >= k {
            Node::lemma_elems_decompose(cs0.take(t + 1), k);
            assert(cs0.take(t + 1).take(k) =~= cs0.take(k));
            assert(cs0.take(t + 1)[k] == cs0[k]);
            lemma_seq_off_insert(
                Node::elems_of(cs0.take(t + 1)),
                Node::elems_of(cs0.take(k)).len() + li,
                x,
            );
        }
    }
}

/// After one child of a row splits in two (absorbing an inserted element),
/// the checkpoints raised past the child, with a fresh boundary checkpoint
/// between the halves, again match the row.
proof fn lemma_checkpoints_after_split<T: ToOffset>(
    cs0: Seq<Node<T>>,
    csn: Seq<Node<T>>,
    off0: Seq<i64>,
    off1: Seq<i64>,
    k: int,
    li: int,
    x: T,
)
    requires
        0 <= k < cs0.len(),
        csn == cs0.update(k, csn[k]).insert(k + 1, csn[k + 1]),
        csn[k].elems() + csn[k + 1].elems() == cs0[k].elems().insert(li, x),
        0 <= li <= cs0[k].elems().len(),
        off0.len() == cs0.len() - 1,
        off1.len() == off0.len() + 1,
        forall|t: int|
            0 <= t < off0.len() ==> (#[trigger] off0[t]) as int == seq_off(
                Node::elems_of(cs0.take(t + 1)),
            ),
        forall|t: int| 0 <= t < k ==> off1[t] == off0[t],
        off1[k] as int == seq_off(Node::elems_of(cs0.take(k))) + seq_off(csn[k].elems()),
        forall|t: int|
            k < t < off1.len() ==> (#[trigger] off1[t]) as int == off0[t - 1] as int
                + x.spec_offset(),
    ensures
        forall|t: int|
            0 <= t < off1.len() ==> (#[trigger] off1[t]) as int == seq_off(
                Node::elems_of(csn.take(t + 1)),
            ),
{
    assert forall|t: int| 0 <= t < off1.len() implies (#[trigger] off1[t]) as int == seq_off(
        Node::elems_of(csn.take(t + 1)),
    ) by {
        Node::lemma_prefix_after_child_split(cs0, csn, k, li, x, t + 1);
        if t < k {
            assert(off0[t] as int == seq_off(Node::elems_of(cs0.take(t + 1))));
        } else if t == k {
            lemma_seq_off_concat(Node::elems_of(cs0.take(k)), csn[k].elems());
        } else {
            assert(off0[t - 1] as int == seq_off(Node::elems_of(cs0.take(t))));
            Node::lemma_elems_decompose(cs0.take(t), k);
            assert(cs0.take(t).take(k) =~= cs0.take(k));
            assert(cs0.take(t)[k] == cs0[k]);
            lemma_seq_off_insert(
                Node::elems_of(cs0.take(t)),
                Node::elems_of(cs0.take(k)).len() + li,
                x,
            );
        }
    }
}

/// Replacing one child preserves the row's child facts (well-formedness,
/// occupancy, one common height) when the new child matches them.
pub(crate) proof fn lemma_row_facts_update<T: ToOffset>(cs0: Seq<Node<T>>, csn: Seq<Node<T>>, k: int)
    requires
        0 <= k < cs0.len(),
        csn == cs0.update(k, csn[k]),
        forall|i: int| 0 <= i < cs0.len() ==> (#[trigger] cs0[i]).wf_core(),
        forall|i: int| 0 <= i < cs0.len() ==> (#[trigger] cs0[i]).count() >= ORDER,
        forall|i: int| 0 <= i < cs0.len() ==> (#[trigger] cs0[i]).height() == cs0[0].height(),
        csn[k].wf_core(),
        csn[k].count() >= ORDER,
        csn[k].height() == cs0[k].height(),
    ensures
        forall|i: int| 0 <= i < csn.len() ==> (#[trigger] csn[i]).wf_core(),
        forall|i: int| 0 <= i < csn.len() ==> (#[trigger] csn[i]).count() >= ORDER,
        forall|i: int| 0 <= i < csn.len() ==> (#[trigger] csn[i]).height() == csn[0].height(),
{
    assert forall|i: int| 0 <= i < csn.len() implies (#[trigger] csn[i]).wf_core()
        && csn[i].count() >= ORDER && csn[i].height() == csn[0].height() by {
        if i != k {
            assert(csn[i] == cs0[i]);
        }
        assert(cs0[i].height() == cs0[0].height());
        if k != 0 {
            assert(csn[0] == cs0[0]);
        }
    }
}

/// Replacing one child with two preserves the row's child facts when both
/// halves match them.
proof fn lemma_row_facts_split<T: ToOffset>(cs0: Seq<Node<T>>, csn: Seq<Node<T>>, k: int)
    requires
        0 <= k < cs0.len(),
        csn == cs0.update(k, csn[k]).insert(k + 1, csn[k + 1]),
        forall|i: int| 0 <= i < cs0.len() ==> (#[trigger] cs0[i]).wf_core(),
        forall|i: int| 0 <= i < cs0.len() ==> (#[trigger] cs0[i]).count() >= ORDER,
        forall|i: int| 0 <= i < cs0.len() ==> (#[trigger] cs0[i]).height() == cs0[0].height(),
        csn[k].wf_core(),
        csn[k].count() >= ORDER,
        csn[k].height() == cs0[k].height(),
        csn[k + 1].wf_core(),
        csn[k + 1].count() >= ORDER,
        csn[k + 1].height() == cs0[k].height(),
    ensures
        forall|i: int| 0 <= i < csn.len() ==> (#[trigger] csn[i]).wf_core(),
        forall|i: int| 0 <= i < csn.len() ==> (#[trigger] csn[i]).count() >= ORDER,
        forall|i: int| 0 <= i < csn.len() ==> (#[trigger] csn[i]).height() == csn[0].height(),
{
    assert forall|i: int| 0 <= i < csn.len() implies (#[trigger] csn[i]).wf_core()
        && csn[i].count() >= ORDER && csn[i].height() == csn[0].height() by {
        if i != k && i != k + 1 {
            if i < k {
                assert(csn[i] == cs0[i]);
                assert(cs0[i].height() == cs0[0].height());
            } else {
                assert(csn[i] == cs0[i - 1]);
                assert(cs0[i - 1].height() == cs0[0].height());
            }
        }
        assert(cs0[k].height() == cs0[0].height());
        if k != 0 {
            assert(csn[0] == cs0[0]);
        }
    }
}

/// Split an over-full internal row (one child beyond capacity) into two
/// internal nodes. The boundary is chosen so that the children at `k` and
/// `k + 1` (the freshly modified child and its new sibling) never straddle
/// the two halves.
fn split_internal<T: ToOffset>(offsets: Vec<i64>, children: Vec<Node<T>>, k: usize) -> (r: (
    Node<T>,
    Node<T>,
    i64,
))
    requires
        children@.len() == 2 * ORDER + 1,
        offsets@.len() == children@.len() - 1,
        k < children@.len(),
        forall|i: int| 0 <= i < children@.len() ==> (#[trigger] children@[i]).wf_core(),
        forall|i: int| 0 <= i < children@.len() ==> (#[trigger] children@[i]).count() >= ORDER,
        forall|i: int|
            0 <= i < children@.len() ==> (#[trigger] children@[i]).height()
                == children@[0].height(),
        forall|t: int|
            0 <= t < offsets@.len() ==> (#[trigger] offsets@[t]) as int == seq_off(
                Node::elems_of(children@.take(t + 1)),
            ),
        seq_abs(Node::elems_of(children@)) <= i64::MAX,
    ensures
        r.0.wf_core(),
        r.1.wf_core(),
        r.0.count() >= ORDER,
        r.1.count() >= ORDER,
        !r.0.is_leaf(),
        !r.1.is_leaf(),
        r.0.height() == 1 + children@[0].height(),
        r.1.height() == 1 + children@[0].height(),
        r.0.elems() + r.1.elems() == Node::elems_of(children@),
        r.2 as int == seq_off(r.0.elems()),
{
    let ghost cs = children@;
    let m: usize = if k == ORDER - 1 {
        ORDER + 1
    } else {
        ORDER
    };
    let mut children = children;
    let mut offsets = offsets;
    let cr = children.split_off(m);
    let mut orr = offsets.split_off(m - 1);
    let boundary = orr.remove(0);
    proof {
        assert(children@ =~= cs.take(m as int));
        assert(cr@ =~= cs.subrange(m as int, cs.len() as int));
        Node::lemma_row_abs_bounds(cs, m as int);
    }
    let ghost orr0 = orr@;
    let mut t: usize = 0;
    while t < orr.len()
        invariant
            0 <= t <= orr@.len(),
            orr@.len() == orr0.len(),
            orr0.len() == cs.len() - 1 - m,
            boundary as int == seq_off(Node::elems_of(cs.take(m as int))),
            forall|u: int|
                0 <= u < orr0.len() ==> (#[trigger] orr0[u]) as int == seq_off(
                    Node::elems_of(cs.take(m + u + 1)),
                ),
            forall|u: int|
                0 <= u < t ==> (#[trigger] orr@[u]) as int == orr0[u] as int - boundary as int,
            forall|u: int| t <= u < orr0.len() ==> orr@[u] == orr0[u],
            seq_abs(Node::elems_of(cs)) <= i64::MAX,
            m == ORDER || m == ORDER + 1,
            cs.len() == 2 * ORDER + 1,
        decreases orr0.len() - t,
    {
        proof {
            // both the old checkpoint and the new relative one are prefix
            // sums of the full row, hence in range
            Node::lemma_row_prefix_off_bound(cs, m as int + t + 1);
            Node::lemma_row_prefix_off_bound(cs, m as int);
            lemma_seq_abs_nonneg(Node::elems_of(cs));
            // the difference is itself the offset sum of a contiguous part
            Node::lemma_row_abs_bounds(cs.take(m as int + t + 1), m as int);
            assert(cs.take(m as int + t + 1).take(m as int) =~= cs.take(m as int));
            lemma_seq_off_concat(
                Node::elems_of(cs.take(m as int)),
                Node::elems_of(cs.take(m as int + t + 1).subrange(m as int, m as int + t + 1)),
            );
            crate::offset::lemma_seq_off_le_abs(
                Node::elems_of(cs.take(m as int + t + 1).subrange(m as int, m as int + t + 1)),
            );
            Node::lemma_row_abs_bounds(cs, m as int + t + 1);
            lemma_seq_abs_concat(
                Node::elems_of(cs.take(m as int + t + 1).take(m as int)),
                Node::elems_of(cs.take(m as int + t + 1).subrange(m as int, m as int + t + 1)),
            );
            lemma_seq_abs_nonneg(Node::elems_of(cs.take(m as int + t + 1).take(m as int)));
            assert(orr@[t as int] == orr0[t as int]);
            assert(orr0[t as int] as int == seq_off(Node::elems_of(cs.take(m + t + 1))));
        }
        let v = orr[t] - boundary;
        orr.set(t, v);
        t = t + 1;
    }
    proof {
        // checkpoints of the left node
        assert forall|u: int| 0 <= u < offsets@.len() implies (#[trigger] offsets@[u]) as int
            == seq_off(Node::elems_of(children@.take(u + 1))) by {
            assert(children@.take(u + 1) =~= cs.take(u + 1));
        }
        // checkpoints of the right node
        assert forall|u: int| 0 <= u < orr@.len() implies (#[trigger] orr@[u]) as int == seq_off(
            Node::elems_of(cr@.take(u + 1)),
        ) by {
            assert(cs.take(m + u + 1) =~= cs.take(m as int) + cr@.take(u + 1));
            Node::lemma_elems_of_concat(cs.take(m as int), cr@.take(u + 1));
            lemma_seq_off_concat(
                Node::elems_of(cs.take(m as int)),
                Node::elems_of(cr@.take(u + 1)),
            );
        }
        assert forall|i: int| 0 <= i < children@.len() implies (#[trigger] children@[i]).wf_core()
            && children@[i].count() >= ORDER && children@[i].height() == children@[0].height() by {
            assert(children@[i] == cs[i]);
        }
        assert forall|i: int| 0 <= i < cr@.len() implies (#[trigger] cr@[i]).wf_core()
            && cr@[i].count() >= ORDER && cr@[i].height() == cr@[0].height() by {
            assert(cr@[i] == cs[m + i]);
            assert(cr@[0] == cs[m as int]);
        }
        Node::lemma_row_abs_bounds(cs, m as int);
        assert(cr@[0] == cs[m as int]);
    }
    let left = Node::Internal(INode { offsets, children });
    let right = Node::Internal(INode { offsets: orr, children: cr });
    (left, right, boundary)
}

/// Insert `x` into the subtree `n` at the slot addressed by `p[d..]`.
///
/// Returns the node back and, when it had to split, a new right sibling
/// together with the fresh total offset of the retained (left) node,
/// computed from scratch over its elements.
#[verifier::rlimit(80)]
pub(crate) fn insert_node<T: ToOffset>(
    n: Node<T>,
    p: &Vec<usize>,
    d: usize,
    x: T,
    x_off: i64,
) -> (r: (Node<T>, Option<(Node<T>, i64)>))
    requires
        n.wf_core(),
        d < p@.len(),
        n.path_ok(p@.skip(d as int), true),
        x_off as int == x.spec_offset(),
        seq_abs(n.elems()) + abs1(x.spec_offset()) <= i64::MAX,
    ensures
        r.0.wf_core(),
        r.0.height() == n.height(),
        r.0.is_leaf() == n.is_leaf(),
        match r.1 {
            None => r.0.count() >= n.count() && r.0.elems() == n.elems().insert(
                n.path_index(p@.skip(d as int)),
                x,
            ),
            Some(sp) => {
                &&& sp.0.wf_core()
                &&& r.0.count() >= ORDER
                &&& sp.0.count() >= ORDER
                &&& sp.0.height() == n.height()
                &&& sp.0.is_leaf() == n.is_leaf()
                &&& r.0.elems() + sp.0.elems() == n.elems().insert(
                    n.path_index(p@.skip(d as int)),
                    x,
                )
                &&& sp.1 as int == seq_off(r.0.elems())
            },
        },
    decreases p@.len() - d,
{
    let ghost ss = p@.skip(d as int);
    let ghost gx = x;
    proof {
        assert(ss[0] == p@[d as int]);
    }
    match n {
        Node::Leaf(mut v) => {
            let ghost s0 = v@;
            let i = p[d];
            if v.len() == 2 * ORDER {
                // Full: split at the midpoint, then place the new element in
                // whichever half now owns its slot.
                let mid = ORDER;
                let mut w = v.split_off(mid);
                if i >= mid {
                    w.insert(i - mid, x);
                } else {
                    v.insert(i, x);
                }
                proof {
                    assert(s0.take(mid as int) =~= s0.subrange(0, mid as int));
                    lemma_seq_abs_subrange(s0, 0, mid as int);
                    lemma_seq_abs_nonneg(s0);
                    if i >= mid {
                        assert(v@ + w@ =~= s0.insert(i as int, x));
                    } else {
                        lemma_seq_abs_insert(s0.take(mid as int), i as int, gx);
                        assert(v@ + w@ =~= s0.insert(i as int, x));
                    }
                }
                let flen = leaf_total(&v);
                (Node::Leaf(v), Some((Node::Leaf(w), flen)))
            } else {
                v.insert(i, x);
                (Node::Leaf(v), None)
            }
        },
        Node::Internal(ino) => {
            let mut offsets = ino.offsets;
            let mut children = ino.children;
            let k = p[d];
            let ghost cs0 = children@;
            let ghost off0 = offsets@;
            let ghost li = cs0[k as int].path_index(ss.drop_first());
            let ghost idx = n.path_index(ss);
            proof {
                assert(ss.drop_first() =~= p@.skip(d as int + 1));
                vstd::std_specs::vec::axiom_spec_len(p);
                Node::lemma_elems_decompose(cs0, k as int);
                lemma_seq_abs_concat(
                    Node::elems_of(cs0.take(k as int)) + cs0[k as int].elems(),
                    Node::elems_of(cs0.subrange(k as int + 1, cs0.len() as int)),
                );
                lemma_seq_abs_concat(Node::elems_of(cs0.take(k as int)), cs0[k as int].elems());
                lemma_seq_abs_nonneg(Node::elems_of(cs0.take(k as int)));
                lemma_seq_abs_nonneg(Node::elems_of(cs0.subrange(k as int + 1, cs0.len() as int)));
                Node::lemma_path_index_bounds(cs0[k as int], ss.drop_first(), true);
                assert(idx == Node::elems_of(cs0.take(k as int)).len() + li);
            }
            let child = children.remove(k);
            let (child2, split) = insert_node(child, p, d + 1, x, x_off);
            children.insert(k, child2);
            proof {
                assert(children@ =~= cs0.update(k as int, children@[k as int]));
            }
            match split {
                None => {
                    let ghost csn = children@;
                    proof {
                        Node::lemma_prefix_after_child_insert(
                            cs0,
                            csn,
                            k as int,
                            li,
                            gx,
                            cs0.len() as int,
                        );
                        assert(csn.take(csn.len() as int) =~= csn);
                        assert(cs0.take(cs0.len() as int) =~= cs0);
                    }
                    let mut j = k;
                    while j < offsets.len()
                        invariant
                            k <= j <= offsets@.len(),
                            offsets@.len() == off0.len(),
                            forall|t: int| 0 <= t < k ==> offsets@[t] == off0[t],
                            forall|t: int|
                                k <= t < j ==> (#[trigger] offsets@[t]) as int == off0[t] as int
                                    + x_off as int,
                            forall|t: int| j <= t < off0.len() ==> offsets@[t] == off0[t],
                            off0.len() == cs0.len() - 1,
                            forall|t: int|
                                0 <= t < off0.len() ==> (#[trigger] off0[t]) as int == seq_off(
                                    Node::elems_of(cs0.take(t + 1)),
                                ),
                            seq_abs(Node::elems_of(cs0)) + abs1(gx.spec_offset()) <= i64::MAX,
                            x_off as int == gx.spec_offset(),
                        decreases off0.len() - j,
                    {
                        proof {
                            Node::lemma_row_prefix_off_bound(cs0, j as int + 1);
                            lemma_seq_abs_nonneg(Node::elems_of(cs0));
                            assert(offsets@[j as int] == off0[j as int]);
                            assert(off0[j as int] as int == seq_off(
                                Node::elems_of(cs0.take(j as int + 1)),
                            ));
                        }
                        let t = offsets[j] + x_off;
                        offsets.set(j, t);
                        j = j + 1;
                    }
                    proof {
                        lemma_checkpoints_after_absorb(cs0, csn, off0, offsets@, k as int, li, gx);
                        lemma_row_facts_update(cs0, csn, k as int);
                    }
                    (Node::Internal(INode { offsets, children }), None)
                },
                Some(sp) => {
                    let (sib, flen) = sp;
                    children.insert(k + 1, sib);
                    let ghost cs2 = children@;
                    proof {
                        assert(cs2 =~= cs0.update(k as int, cs2[k as int]).insert(
                            k as int + 1,
                            cs2[k as int + 1],
                        ));
                        Node::lemma_prefix_after_child_split(
                            cs0,
                            cs2,
                            k as int,
                            li,
                            gx,
                            cs2.len() as int,
                        );
                        assert(cs2.take(cs2.len() as int) =~= cs2);
                        assert(cs0.take(cs0.len() as int) =~= cs0);
                        lemma_seq_abs_insert(Node::elems_of(cs0), idx, gx);
                    }
                    let mut j = k;
                    while j < offsets.len()
                        invariant
                            k <= j <= offsets@.len(),
                            offsets@.len() == off0.len(),
                            forall|t: int| 0 <= t < k ==> offsets@[t] == off0[t],
                            forall|t: int|
                                k <= t < j ==> (#[trigger] offsets@[t]) as int == off0[t] as int
                                    + x_off as int,
                            forall|t: int| j <= t < off0.len() ==> offsets@[t] == off0[t],
                            off0.len() == cs0.len() - 1,
                            forall|t: int|
                                0 <= t < off0.len() ==> (#[trigger] off0[t]) as int == seq_off(
                                    Node::elems_of(cs0.take(t + 1)),
                                ),
                            seq_abs(Node::elems_of(cs0)) + abs1(gx.spec_offset()) <= i64::MAX,
                            x_off as int == gx.spec_offset(),
                        decreases off0.len() - j,
                    {
                        proof {
                            Node::lemma_row_prefix_off_bound(cs0, j as int + 1);
                            lemma_seq_abs_nonneg(Node::elems_of(cs0));
                            assert(offsets@[j as int] == off0[j as int]);
                            assert(off0[j as int] as int == seq_off(
                                Node::elems_of(cs0.take(j as int + 1)),
                            ));
                        }
                        let t = offsets[j] + x_off;
                        offsets.set(j, t);
                        j = j + 1;
                    }
                    proof {
                        // the boundary checkpoint for the left half of the
                        // split child is a prefix sum of the new sequence
                        Node::lemma_prefix_after_child_split(cs0, cs2, k as int, li, gx, k as int
                            + 1);
                        lemma_seq_off_concat(
                            Node::elems_of(cs0.take(k as int)),
                            cs2[k as int].elems(),
                        );
                        Node::lemma_row_prefix_off_bound(cs2, k as int + 1);
                        lemma_seq_abs_nonneg(Node::elems_of(cs2));
                        if k > 0 {
                            Node::lemma_row_prefix_off_bound(cs0, k as int);
                            assert(offsets@[k as int - 1] == off0[k as int - 1]);
                            assert(off0[k as int - 1] as int == seq_off(
                                Node::elems_of(cs0.take(k as int)),
                            ));
                        }
                        assert(cs0.take(0) =~= Seq::<Node<T>>::empty());
                    }
                    let b = if k == 0 {
                        flen
                    } else {
                        offsets[k - 1] + flen
                    };
                    offsets.insert(k, b);
                    proof {
                        assert(offsets@[k as int] == b);
                        lemma_checkpoints_after_split(cs0, cs2, off0, offsets@, k as int, li, gx);
                        lemma_row_facts_split(cs0, cs2, k as int);
                    }
                    if children.len() > 2 * ORDER {
                        let (left, right, boundary) = split_internal(offsets, children, k);
                        proof {
                            lemma_seq_off_concat(left.elems(), right.elems());
                        }
                        (left, Some((right, boundary)))
                    } else {
                        (Node::Internal(INode { offsets, children }), None)
                    }
                },
            }
        },
    }
}


impl<T: ToOffset> crate::Rope<T> {
    /// Insert `x` before the slot addressed by `at`. The cursor must come
    /// from this rope, unmodified since; the new element's absolute offset
    /// must fit the remaining offset budget.
    pub fn insert(&mut self, x: T, at: crate::Cursor)
        requires
            old(self).wf(),
            old(self).cursor_ok(at, true),
            seq_abs(old(self)@) + abs1(x.spec_offset()) <= i64::MAX,
        ensures
            final(self).wf(),
            final(self)@ == old(self)@.insert(old(self).cursor_index(at), x),
            seq_abs(final(self)@) == seq_abs(old(self)@) + abs1(x.spec_offset()),
    {
        let ghost gx = x;
        let ghost v0 = old(self)@;
        let ghost idx = old(self).cursor_index(at);
        let x_off = x.to_offset();
        let mut root = Node::Leaf(Vec::new());
        std::mem::swap(&mut root, &mut self.root);
        proof {
            assert(at.indices@.skip(0) =~= at.indices@);
            Node::lemma_path_index_bounds(root, at.indices@, true);
            assert(at.indices@.len() >= 1);
            lemma_seq_abs_insert(v0, idx, gx);
            lemma_seq_off_insert(v0, idx, gx);
            crate::offset::lemma_seq_off_le_abs(v0.insert(idx, gx));
        }
        let (root2, split) = insert_node(root, &at.indices, 0, x, x_off);
        match split {
            None => {
                self.root = root2;
            },
            Some(sp) => {
                let (sib, flen) = sp;
                let mut offsets: Vec<i64> = Vec::new();
                offsets.push(flen);
                let mut children: Vec<Node<T>> = Vec::new();
                children.push(root2);
                children.push(sib);
                proof {
                    let cs = children@;
                    assert(cs.take(0) =~= Seq::<Node<T>>::empty());
                    Node::lemma_elems_take_succ(cs, 0);
                    Node::lemma_elems_take_succ(cs, 1);
                    assert(cs.take(2) =~= cs);
                    lemma_seq_off_concat(Seq::<T>::empty(), cs[0].elems());
                    assert(Seq::<T>::empty() + cs[0].elems() =~= cs[0].elems());
                }
                self.root = Node::Internal(INode { offsets, children });
            },
        }
        self.len = self.len + x_off;
    }

    /// Insert an element at the back of the rope.
    pub fn push_back(&mut self, x: T)
        requires
            old(self).wf(),
            seq_abs(old(self)@) + abs1(x.spec_offset()) <= i64::MAX,
        ensures
            final(self).wf(),
            final(self)@ == old(self)@.push(x),
            seq_abs(final(self)@) == seq_abs(old(self)@) + abs1(x.spec_offset()),
    {
        let c = self.end();
        proof {
            assert(old(self)@.insert(old(self)@.len() as int, x) =~= old(self)@.push(x));
        }
        self.insert(x, c);
    }

    /// Insert an element at the front of the rope.
    pub fn push_front(&mut self, x: T)
        requires
            old(self).wf(),
            seq_abs(old(self)@) + abs1(x.spec_offset()) <= i64::MAX,
        ensures
            final(self).wf(),
            final(self)@ == old(self)@.insert(0, x),
            seq_abs(final(self)@) == seq_abs(old(self)@) + abs1(x.spec_offset()),
    {
        let c = self.begin();
        self.insert(x, c);
    }

    /// Build a rope from a finite source sequence of elements, by repeated
    /// `push_back`: the rope holds exactly the sequence, in order.
    pub fn from_vec(v: Vec<T>) -> (r: Self)
        requires
            seq_abs(v@) <= i64::MAX,
        ensures
            r.wf(),
            r@ == v@,
    {
        let ghost g = v@;
        let mut v = v;
        let mut r = Self::new();
        proof {
            assert(r@ + v@ =~= g);
            assert(seq_abs(Seq::<T>::empty()) == 0);
        }
        while v.len() > 0
            invariant
                r.wf(),
                r@ + v@ == g,
                seq_abs(g) <= i64::MAX,
            decreases v@.len(),
        {
            let ghost rv = r@;
            let ghost vv = v@;
            proof {
                lemma_seq_abs_concat(rv, vv);
                lemma_seq_abs_concat(vv.take(1), vv.skip(1));
                assert(vv =~= vv.take(1) + vv.skip(1));
                crate::offset::lemma_seq_off_single(vv[0]);
                assert(vv.take(1) =~= Seq::<T>::empty().push(vv[0]));
                lemma_seq_abs_nonneg(vv.skip(1));
                lemma_seq_abs_nonneg(rv);
            }
            let x = v.remove(0);
            r.push_back(x);
            proof {
                assert(r@ + v@ =~= g);
            }
        }
        proof {
            assert(r@ =~= g);
        }
        r
    }
}

} // verus!
