//! Update-in-place: replace one element and propagate its offset change
//! through every checkpoint on the path. This is the only safe way to change
//! an element in a way that affects its offset; mutating it in place without
//! this path would corrupt the cumulative checkpoints.

use vstd::prelude::*;

use crate::node::{INode, Node};
use crate::offset::{
    abs1, lemma_seq_abs_nonneg, lemma_seq_abs_remove, lemma_seq_off_le_abs, lemma_seq_off_update,
    seq_abs, seq_off, ToOffset,
};
use crate::{Cursor, Rope};

verus! {

impl<T: ToOffset> Node<T> {
    /// After one subtree of a row replaces one element, every row prefix that
    /// covers that subtree holds the old prefix with the element replaced.
    pub(crate) proof fn lemma_prefix_after_child_update(
        cs0: Seq<Node<T>>,
        csn: Seq<Node<T>>,
        k: int,
        li: int,
        x: T,
        m: int,
    )
        requires
            0 <= k < cs0.len(),
            csn == cs0.update(k, csn[k]),
            csn[k].elems() == cs0[k].elems().update(li, x),
            0 <= li < cs0[k].elems().len(),
            0 <= m <= cs0.len(),
        ensures
            m <= k ==> Self::elems_of(csn.take(m)) == Self::elems_of(cs0.take(m)),
            m > k ==> Self::elems_of(csn.take(m)) == Self::elems_of(cs0.take(m)).update(
                Self::elems_of(cs0.take(k)).len() + li,
                x,
            ),
            m > k ==> Self::elems_of(cs0.take(m))[Self::elems_of(cs0.take(k)).len() + li]
                == cs0[k].elems()[li],
    {
        if m <= k {
            assert(csn.take(m) =~= cs0.take(m));
        } else {
            Self::lemma_elems_decompose(csn.take(m), k);
            Self::lemma_elems_decompose(cs0.take(m), k);
            assert(csn.take(m).take(k) =~= cs0.take(m).take(k));
            assert(cs0.take(m).take(k) =~= cs0.take(k));
            assert(csn.take(m).subrange(k + 1, m) =~= cs0.take(m).subrange(k + 1, m));
            assert(csn.take(m)[k] == csn[k]);
            assert(cs0.take(m)[k] == cs0[k]);
            let a = Self::elems_of(cs0.take(k));
            let b = cs0[k].elems();
            let c = Self::elems_of(cs0.take(m).subrange(k + 1, m));
            assert(a + b.update(li, x) + c =~= (a + b + c).update(a.len() + li, x));
            assert((a + b + c)[a.len() + li] == b[li]);
        }
    }
}


/// After one child of a row replaces one element and every checkpoint at or
/// after it is shifted by the offset difference, the checkpoints again match
/// the row.
proof fn lemma_checkpoints_after_set<T: ToOffset>(
    cs0: Seq<Node<T>>,
    csn: Seq<Node<T>>,
    off0: Seq<i64>,
    off1: Seq<i64>,
    k: int,
    li: int,
    x: T,
)
    requires
        0 <= k < cs0.len(),
        csn == cs0.update(k, csn[k]),
        csn[k].elems() == cs0[k].elems().update(li, x),
        0 <= li < cs0[k].elems().len(),
        off0.len() == cs0.len() - 1,
        off1.len() == off0.len(),
        forall|t: int|
            0 <= t < off0.len() ==> (#[trigger] off0[t]) as int == seq_off(
                Node::elems_of(cs0.take(t + 1)),
            ),
        forall|t: int| 0 <= t < k ==> off1[t] == off0[t],
        forall|t: int|
            k <= t < off0.len() ==> (#[trigger] off1[t]) as int == off0[t] as int - cs0[k].elems()[li].spec_offset() + x.spec_offset(),
    ensures
        forall|t: int|
            0 <= t < off1.len() ==> (#[trigger] off1[t]) as int == seq_off(
                Node::elems_of(csn.take(t + 1)),
            ),
{
    assert forall|t: int| 0 <= t < off1.len() implies (#[trigger] off1[t]) as int == seq_off(
        Node::elems_of(csn.take(t + 1)),
    ) by {
        Node::lemma_prefix_after_child_update(cs0, csn, k, li, x, t + 1);
        assert(off0[t] as int == seq_off(Node::elems_of(cs0.take(t + 1))));
        if t >= k {
            Node::lemma_elems_decompose(cs0.take(t + 1), k);
            assert(cs0.take(t + 1).take(k) =~= cs0.take(k));
            assert(cs0.take(t + 1)[k] == cs0[k]);
            lemma_seq_off_update(
                Node::elems_of(cs0.take(t + 1)),
                Node::elems_of(cs0.take(k)).len() + li,
                x,
            );
        }
    }
}

/// Replace the element addressed by `p[d..]` with `x`, fixing every
/// checkpoint on the path, and return the old element.
fn set_node<T: ToOffset>(n: Node<T>, p: &Vec<usize>, d: usize, x: T, x_off: i64) -> (r: (
    Node<T>,
    T,
))
    requires
        n.wf_core(),
        d < p@.len(),
        n.path_ok(p@.skip(d as int), false),
        x_off as int == x.spec_offset(),
        seq_abs(n.elems()) <= i64::MAX,
        seq_abs(n.elems()) - abs1(
            n.elems()[n.path_index(p@.skip(d as int))].spec_offset(),
        ) + abs1(x.spec_offset()) <= i64::MAX,
    ensures
        r.0.wf_core(),
        r.0.height() == n.height(),
        r.0.is_leaf() == n.is_leaf(),
        r.0.count() == n.count(),
        r.1 == n.elems()[n.path_index(p@.skip(d as int))],
        r.0.elems() == n.elems().update(n.path_index(p@.skip(d as int)), x),
    decreases p@.len() - d,
{
    let ghost ss = p@.skip(d as int);
    let ghost gx = x;
    proof {
        assert(ss[0] == p@[d as int]);
    }
    match n {
        Node::Leaf(mut v) => {
            let i = p[d];
            let ghost s0 = v@;
            let e = v.remove(i);
            v.insert(i, x);
            proof {
                assert(v@ =~= s0.update(i as int, gx));
            }
            (Node::Leaf(v), e)
        },
        Node::Internal(ino) => {
            let mut offsets = ino.offsets;
            let mut children = ino.children;
            let k = p[d];
            let ghost cs0 = children@;
            let ghost off0 = offsets@;
            let ghost li = cs0[k as int].path_index(ss.drop_first());
            let ghost idx = n.path_index(ss);
            proof {
                assert(ss.drop_first() =~= p@.skip(d as int + 1));
                vstd::std_specs::vec::axiom_spec_len(p);
                Node::lemma_elems_decompose(cs0, k as int);
                crate::offset::lemma_seq_abs_concat(
                    Node::elems_of(cs0.take(k as int)) + cs0[k as int].elems(),
                    Node::elems_of(cs0.subrange(k as int + 1, cs0.len() as int)),
                );
                crate::offset::lemma_seq_abs_concat(
                    Node::elems_of(cs0.take(k as int)),
                    cs0[k as int].elems(),
                );
                lemma_seq_abs_nonneg(Node::elems_of(cs0.take(k as int)));
                lemma_seq_abs_nonneg(Node::elems_of(cs0.subrange(k as int + 1, cs0.len() as int)));
                Node::lemma_path_index_bounds(cs0[k as int], ss.drop_first(), false);
                assert(idx == Node::elems_of(cs0.take(k as int)).len() + li);
                // the addressed element of the subtree is the addressed
                // element of the child
                assert(n.elems()[idx] == cs0[k as int].elems()[li]);
                lemma_seq_abs_remove(cs0[k as int].elems(), li);
                lemma_seq_abs_nonneg(cs0[k as int].elems().remove(li));
                lemma_seq_abs_remove(n.elems(), idx);
                lemma_seq_abs_nonneg(n.elems().remove(idx));
            }
            let child = children.remove(k);
            let (child2, e) = set_node(child, p, d + 1, x, x_off);
            let e_off = e.to_offset();
            children.insert(k, child2);
            let ghost csn = children@;
            proof {
                assert(csn =~= cs0.update(k as int, csn[k as int]));
                Node::lemma_prefix_after_child_update(cs0, csn, k as int, li, gx, cs0.len() as int);
                assert(csn.take(csn.len() as int) =~= csn);
                assert(cs0.take(cs0.len() as int) =~= cs0);
                lemma_seq_off_update(Node::elems_of(cs0), idx, gx);
                lemma_seq_abs_remove(Node::elems_of(cs0), idx);
            }
            // shift every checkpoint at or after the touched child by the
            // offset difference
            let mut j = k;
            while j < offsets.len()
                invariant
                    k <= j <= offsets@.len(),
                    offsets@.len() == off0.len(),
                    forall|t: int| 0 <= t < k ==> offsets@[t] == off0[t],
                    forall|t: int|
                        k <= t < j ==> (#[trigger] offsets@[t]) as int == off0[t] as int
                            - e_off as int + x_off as int,
                    forall|t: int| j <= t < off0.len() ==> offsets@[t] == off0[t],
                    off0.len() == cs0.len() - 1,
                    forall|t: int|
                        0 <= t < off0.len() ==> (#[trigger] off0[t]) as int == seq_off(
                            Node::elems_of(cs0.take(t + 1)),
                        ),
                    seq_abs(Node::elems_of(cs0)) <= i64::MAX,
                    seq_abs(Node::elems_of(cs0)) - abs1(e.spec_offset()) + abs1(gx.spec_offset())
                        <= i64::MAX,
                    abs1(e.spec_offset()) <= seq_abs(Node::elems_of(cs0)),
                    e_off as int == e.spec_offset(),
                    x_off as int == gx.spec_offset(),
                    e == Node::elems_of(cs0)[idx],
                    csn == cs0.update(k as int, csn[k as int]),
                    csn[k as int].elems() == cs0[k as int].elems().update(li, gx),
                    0 <= li < cs0[k as int].elems().len(),
                    idx == Node::elems_of(cs0.take(k as int)).len() + li,
                    0 <= k < cs0.len(),
                    0 <= idx < Node::elems_of(cs0).len(),
                decreases off0.len() - j,
            {
                proof {
                    lemma_seq_abs_nonneg(Node::elems_of(cs0));
                    assert(offsets@[j as int] == off0[j as int]);
                    assert(off0[j as int] as int == seq_off(
                        Node::elems_of(cs0.take(j as int + 1)),
                    ));
                    Node::lemma_elems_decompose(cs0.take(j as int + 1), k as int);
                    assert(cs0.take(j as int + 1).take(k as int) =~= cs0.take(k as int));
                    assert(cs0.take(j as int + 1)[k as int] == cs0[k as int]);
                    Node::lemma_prefix_after_child_update(cs0, csn, k as int, li, gx, j as int + 1);
                    lemma_seq_off_update(Node::elems_of(cs0.take(j as int + 1)), idx, gx);
                    // the intermediate and final values are offset sums of
                    // element sequences within budget
                    let pref = Node::elems_of(cs0.take(j as int + 1));
                    Node::lemma_row_abs_bounds(cs0, j as int + 1);
                    lemma_seq_off_le_abs(pref);
                    lemma_seq_abs_remove(pref, idx);
                    lemma_seq_off_le_abs(pref.remove(idx));
                    lemma_seq_abs_nonneg(pref.remove(idx));
                    crate::offset::lemma_seq_off_remove(pref, idx);
                    assert(pref[idx] == Node::elems_of(cs0)[idx]);
                    lemma_seq_abs_remove(Node::elems_of(cs0), idx);
                    // the part of the whole beyond this prefix also has
                    // nonnegative weight
                    crate::offset::lemma_seq_abs_subrange(
                        Node::elems_of(cs0).remove(idx),
                        0,
                        pref.remove(idx).len() as int,
                    );
                    assert(pref.remove(idx) =~= Node::elems_of(cs0).remove(idx).subrange(
                        0,
                        pref.remove(idx).len() as int,
                    ));
                    crate::offset::lemma_seq_abs_insert(pref.remove(idx), idx, gx);
                    crate::offset::lemma_seq_off_insert(pref.remove(idx), idx, gx);
                    assert(pref.update(idx, gx) =~= pref.remove(idx).insert(idx, gx));
                }
                let t1 = offsets[j] - e_off;
                let t2 = t1 + x_off;
                offsets.set(j, t2);
                j = j + 1;
            }
            proof {
                assert(e == cs0[k as int].elems()[li]);
                lemma_checkpoints_after_set(cs0, csn, off0, offsets@, k as int, li, gx);
                crate::insert::lemma_row_facts_update(cs0, csn, k as int);
            }
            (Node::Internal(INode { offsets, children }), e)
        },
    }
}

impl<T: ToOffset> Rope<T> {
    /// Replace the element addressed by `at` with `x`, propagating the
    /// resulting offset difference into every checkpoint above it and into
    /// the cached total; returns the old element.
    pub fn set_at(&mut self, at: Cursor, x: T) -> (old_elem: T)
        requires
            old(self).wf(),
            old(self).cursor_ok(at, false),
            seq_abs(old(self)@) - abs1(
                old(self)@[old(self).cursor_index(at)].spec_offset(),
            ) + abs1(x.spec_offset()) <= i64::MAX,
        ensures
            final(self).wf(),
            old_elem == old(self)@[old(self).cursor_index(at)],
            final(self)@ == old(self)@.update(old(self).cursor_index(at), x),
            seq_abs(final(self)@) == seq_abs(old(self)@) - abs1(old_elem.spec_offset()) + abs1(
                x.spec_offset(),
            ),
    {
        let ghost v0 = old(self)@;
        let ghost idx = old(self).cursor_index(at);
        let ghost gx = x;
        let x_off = x.to_offset();
        let mut root = Node::Leaf(Vec::new());
        std::mem::swap(&mut root, &mut self.root);
        proof {
            assert(at.indices@.skip(0) =~= at.indices@);
            Node::lemma_path_index_bounds(root, at.indices@, false);
            lemma_seq_off_update(v0, idx, gx);
            lemma_seq_abs_remove(v0, idx);
            lemma_seq_abs_nonneg(v0.remove(idx));
        }
        let r = set_node(root, &at.indices, 0, x, x_off);
        let (root2, e) = r;
        let e_off = e.to_offset();
        proof {
            crate::offset::lemma_seq_off_le_abs(v0.update(idx, gx));
            crate::offset::lemma_seq_off_le_abs(v0.remove(idx));
            crate::offset::lemma_seq_off_remove(v0, idx);
            assert(v0.update(idx, gx) =~= v0.remove(idx).insert(idx, gx));
            crate::offset::lemma_seq_off_insert(v0.remove(idx), idx, gx);
            crate::offset::lemma_seq_abs_insert(v0.remove(idx), idx, gx);
        }
        let t1 = self.len - e_off;
        self.len = t1 + x_off;
        self.root = root2;
        e
    }
}

} // verus!
