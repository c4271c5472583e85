//! Search by cumulative offset.
//!
//! The search conceptually walks element right-boundaries front to back and
//! stops at the first element whose right boundary satisfies a monotone
//! predicate over the cumulative offset; the internal checkpoints let it
//! skip whole subtrees. The two entry points differ only in the predicate:
//! strictly greater than the probe, or at least the probe.

use vstd::prelude::*;

use crate::node::{INode, Node};
use crate::offset::{
    lemma_seq_off_concat, lemma_seq_off_take_bounds, lemma_seq_off_take_mono,
    lemma_seq_off_take_succ, nonneg, seq_off, ToOffset,
};
use crate::{Cursor, Rope};

verus! {

/// The boundary predicate: with `ge`, an offset qualifies when it reaches
/// `x`; without, only when it passes `x`.
pub open spec fn bound_pred(ge: bool, o: int, x: int) -> bool {
    if ge {
        o >= x
    } else {
        o > x
    }
}

/// Evaluate the boundary predicate.
pub(crate) fn pred_exec(ge: bool, o: i64, x: i64) -> (r: bool)
    ensures
        r == bound_pred(ge, o as int, x as int),
{
    if ge {
        o >= x
    } else {
        o > x
    }
}

/// With nonnegative offsets, the element sums over row prefixes are
/// nonnegative, monotone and bounded by the row total.
proof fn lemma_row_nonneg<T: ToOffset>(cs: Seq<Node<T>>, i: int, j: int)
    requires
        0 <= i <= j <= cs.len(),
        nonneg(Node::elems_of(cs)),
    ensures
        nonneg(Node::elems_of(cs.take(j))),
        seq_off(Node::elems_of(cs.take(i))) <= seq_off(Node::elems_of(cs.take(j))),
        0 <= seq_off(Node::elems_of(cs.take(i))),
        seq_off(Node::elems_of(cs.take(j))) <= seq_off(Node::elems_of(cs)),
{
    Node::lemma_row_abs_bounds(cs, j);
    Node::lemma_row_abs_bounds(cs.take(j), i);
    assert(cs.take(j).take(i) =~= cs.take(i));
    let ej = Node::elems_of(cs.take(j));
    let ew = Node::elems_of(cs);
    assert(ej =~= ew.subrange(0, ej.len() as int));
    assert forall|t: int| 0 <= t < ej.len() implies (#[trigger] ej[t]).spec_offset() >= 0 by {
        assert(ej[t] == ew[t]);
    }
    let ei = Node::elems_of(cs.take(i));
    assert(ei =~= ej.take(ei.len() as int));
    assert(ej =~= ej.take(ej.len() as int));
    lemma_seq_off_take_mono(ej, ei.len() as int, ej.len() as int);
    lemma_seq_off_take_bounds(ej, ei.len() as int);
    assert(ej =~= ew.take(ej.len() as int));
    lemma_seq_off_take_bounds(ew, ej.len() as int);
}

/// Scan a leaf for the first element whose right boundary satisfies the
/// predicate, starting at slot `i` with cumulative offset `off`.
fn leaf_scan<T: ToOffset>(
    v: &Vec<T>,
    i: usize,
    off: i64,
    x: i64,
    ge: bool,
    Ghost(base): Ghost<int>,
) -> (r: (usize, i64))
    requires
        nonneg(v@),
        i < v@.len(),
        base >= 0,
        off as int == base + seq_off(v@.take(i as int)),
        !bound_pred(ge, off as int, x as int),
        bound_pred(ge, base + seq_off(v@), x as int),
        base + seq_off(v@) <= i64::MAX,
    ensures
        i <= r.0 < v@.len(),
        r.1 as int == base + seq_off(v@.take(r.0 as int)),
        !bound_pred(ge, r.1 as int, x as int),
        bound_pred(ge, r.1 as int + v@[r.0 as int].spec_offset(), x as int),
    decreases v@.len() - i,
{
    proof {
        vstd::std_specs::vec::axiom_spec_len(v);
        lemma_seq_off_take_succ(v@, i as int);
        lemma_seq_off_take_bounds(v@, i as int);
        lemma_seq_off_take_bounds(v@, i as int + 1);
        assert(v@.take(v@.len() as int) =~= v@);
    }
    if i + 1 == v.len() {
        (i, off)
    } else {
        let next = off + v[i].to_offset();
        if pred_exec(ge, next, x) {
            (i, off)
        } else {
            leaf_scan(v, i + 1, next, x, ge, Ghost(base))
        }
    }
}

/// Scan an internal node's checkpoints for the child subtree holding the
/// first qualifying boundary, starting at child `i` with cumulative offset
/// `cur`. `base` is the cumulative offset at the node's own start.
fn pick_child<T: ToOffset>(ino: &INode<T>, i: usize, base: i64, cur: i64, x: i64, ge: bool) -> (r:
    (usize, i64))
    requires
        ino.offsets@.len() == ino.children@.len() - 1,
        forall|t: int|
            0 <= t < ino.offsets@.len() ==> (#[trigger] ino.offsets@[t]) as int == seq_off(
                Node::elems_of(ino.children@.take(t + 1)),
            ),
        nonneg(Node::elems_of(ino.children@)),
        i < ino.children@.len(),
        base >= 0,
        cur as int == base + seq_off(Node::elems_of(ino.children@.take(i as int))),
        !bound_pred(ge, cur as int, x as int),
        bound_pred(ge, base + seq_off(Node::elems_of(ino.children@)), x as int),
        base + seq_off(Node::elems_of(ino.children@)) <= i64::MAX,
    ensures
        i <= r.0 < ino.children@.len(),
        r.1 as int == base + seq_off(Node::elems_of(ino.children@.take(r.0 as int))),
        !bound_pred(ge, r.1 as int, x as int),
        bound_pred(ge, r.1 as int + seq_off(ino.children@[r.0 as int].elems()), x as int),
    decreases ino.children@.len() - i,
{
    let ghost cs = ino.children@;
    proof {
        lemma_row_nonneg(cs, i as int, i as int + 1);
        lemma_row_nonneg(cs, i as int + 1, cs.len() as int);
        assert(cs.take(cs.len() as int) =~= cs);
        Node::lemma_elems_take_succ(cs, i as int);
        lemma_seq_off_concat(Node::elems_of(cs.take(i as int)), cs[i as int].elems());
    }
    if i == ino.offsets.len() {
        (i, cur)
    } else {
        let cand = base + ino.offsets[i];
        if pred_exec(ge, cand, x) {
            (i, cur)
        } else {
            pick_child(ino, i + 1, base, cand, x, ge)
        }
    }
}

/// Find, inside the subtree `n` whose elements start at cumulative offset
/// `base`, the first element whose right boundary satisfies the predicate.
/// Returns its path and its left boundary.
fn search_node<T: ToOffset>(n: &Node<T>, base: i64, x: i64, ge: bool) -> (r: (Vec<usize>, i64))
    requires
        n.wf_core(),
        nonneg(n.elems()),
        base >= 0,
        !bound_pred(ge, base as int, x as int),
        bound_pred(ge, base as int + seq_off(n.elems()), x as int),
        base as int + seq_off(n.elems()) <= i64::MAX,
    ensures
        n.path_ok(r.0@, false),
        r.1 as int == base + seq_off(n.elems().take(n.path_index(r.0@))),
        !bound_pred(ge, r.1 as int, x as int),
        bound_pred(ge, r.1 as int + n.elems()[n.path_index(r.0@)].spec_offset(), x as int),
    decreases *n,
{
    match n {
        Node::Leaf(v) => {
            proof {
                if v@.len() == 0 {
                    assert(v@ =~= Seq::<T>::empty());
                    assert(seq_off(v@) == 0);
                }
                assert(v@.take(0) =~= Seq::<T>::empty());
            }
            let (i, off) = leaf_scan(v, 0, base, x, ge, Ghost(base as int));
            let mut p: Vec<usize> = Vec::new();
            p.push(i);
            (p, off)
        },
        Node::Internal(ino) => {
            let ghost cs = ino.children@;
            proof {
                assert(cs.take(0) =~= Seq::<Node<T>>::empty());
                assert(Node::elems_of(Seq::<Node<T>>::empty()) =~= Seq::<T>::empty());
                assert(seq_off(Seq::<T>::empty()) == 0);
            }
            let (i, off) = pick_child(ino, 0, base, base, x, ge);
            proof {
                Node::lemma_elems_decompose(cs, i as int);
                let sub = cs[i as int].elems();
                let whole = Node::elems_of(cs);
                let before = Node::elems_of(cs.take(i as int));
                assert forall|t: int| 0 <= t < sub.len() implies (#[trigger] sub[t]).spec_offset()
                    >= 0 by {
                    assert(sub[t] == whole[before.len() + t]);
                }
                lemma_row_nonneg(cs, i as int, i as int);
                lemma_row_nonneg(cs, i as int + 1, cs.len() as int);
                assert(cs.take(cs.len() as int) =~= cs);
                Node::lemma_elems_take_succ(cs, i as int);
                lemma_seq_off_concat(before, sub);
            }
            let child = &ino.children[i];
            let sr = search_node(child, off, x, ge);
            let (mut p, roff) = sr;
            let ghost subp = p@;
            p.insert(0, i);
            proof {
                assert(p@.drop_first() =~= subp);
                let cj = cs[i as int].path_index(subp);
                Node::lemma_path_index_bounds(cs[i as int], subp, false);
                let before = Node::elems_of(cs.take(i as int));
                let pi = n.path_index(p@);
                assert(pi == before.len() + cj);
                Node::lemma_elems_decompose(cs, i as int);
                assert(n.elems().take(pi) =~= before + cs[i as int].elems().take(cj));
                lemma_seq_off_concat(before, cs[i as int].elems().take(cj));
            }
            (p, roff)
        },
    }
}

impl<T: ToOffset> Rope<T> {
    /// The cursor and left-boundary offset of the first element overlapping
    /// `(x, +inf)`: the first element whose right boundary passes `x`.
    ///
    /// `None` when even the zero offset passes `x` (a probe left of the
    /// rope); the one-past-end cursor with the total offset when no element's
    /// right boundary passes `x` (a probe at or past the total). Elements
    /// must carry nonnegative offsets, so that right boundaries are monotone.
    pub fn inclusive_lower_bound(&self, x: i64) -> (r: Option<(Cursor, i64)>)
        requires
            self.wf(),
            nonneg(self@),
        ensures
            r is None <==> x < 0,
            (match r {
                None => true,
                Some(p) => {
                    if x >= seq_off(self@) {
                        &&& p.1 as int == seq_off(self@)
                        &&& self.cursor_ok(p.0, true)
                        &&& self.cursor_index(p.0) == self@.len()
                    } else {
                        &&& self.cursor_ok(p.0, false)
                        &&& p.1 as int == seq_off(self@.take(self.cursor_index(p.0)))
                        &&& seq_off(self@.take(self.cursor_index(p.0))) <= x
                        &&& seq_off(self@.take(self.cursor_index(p.0) + 1)) > x
                    }
                },
            }),
    {
        self.search_by(x, false)
    }

    /// The cursor and left-boundary offset of the last element overlapping
    /// `(-inf, x)`: the first element whose right boundary reaches `x`.
    ///
    /// `None` when the zero offset already reaches `x` (a probe at or left of
    /// the rope's start); the one-past-end cursor with the total offset when
    /// no element's right boundary reaches `x` (a probe past the total).
    /// Elements must carry nonnegative offsets.
    pub fn inclusive_upper_bound(&self, x: i64) -> (r: Option<(Cursor, i64)>)
        requires
            self.wf(),
            nonneg(self@),
        ensures
            r is None <==> x <= 0,
            (match r {
                None => true,
                Some(p) => {
                    if x > seq_off(self@) {
                        &&& p.1 as int == seq_off(self@)
                        &&& self.cursor_ok(p.0, true)
                        &&& self.cursor_index(p.0) == self@.len()
                    } else {
                        &&& self.cursor_ok(p.0, false)
                        &&& p.1 as int == seq_off(self@.take(self.cursor_index(p.0)))
                        &&& seq_off(self@.take(self.cursor_index(p.0))) < x
                        &&& seq_off(self@.take(self.cursor_index(p.0) + 1)) >= x
                    }
                },
            }),
    {
        self.search_by(x, true)
    }

    /// The shared search: find the first element whose right boundary
    /// satisfies the predicate, capped by the two imaginary boundaries
    /// (`None`, and the one-past-end position with the total offset).
    fn search_by(&self, x: i64, ge: bool) -> (r: Option<(Cursor, i64)>)
        requires
            self.wf(),
            nonneg(self@),
        ensures
            r is None <==> bound_pred(ge, 0, x as int),
            (match r {
                None => true,
                Some(p) => {
                    if !bound_pred(ge, seq_off(self@), x as int) {
                        &&& p.1 as int == seq_off(self@)
                        &&& self.cursor_ok(p.0, true)
                        &&& self.cursor_index(p.0) == self@.len()
                    } else {
                        &&& self.cursor_ok(p.0, false)
                        &&& p.1 as int == seq_off(self@.take(self.cursor_index(p.0)))
                        &&& !bound_pred(ge, seq_off(self@.take(self.cursor_index(p.0))), x as int)
                        &&& bound_pred(
                            ge,
                            seq_off(self@.take(self.cursor_index(p.0) + 1)),
                            x as int,
                        )
                    }
                },
            }),
    {
        if pred_exec(ge, 0, x) {
            return None;
        }
        if !pred_exec(ge, self.len, x) {
            let c = self.end();
            return Some((c, self.len));
        }
        proof {
            assert(self@.take(0) =~= Seq::<T>::empty());
        }
        let sr = search_node(&self.root, 0, x, ge);
        let (p, off) = sr;
        proof {
            Node::lemma_path_index_bounds(self.root, p@, false);
            lemma_seq_off_take_succ(self@, self.root.path_index(p@));
        }
        Some((Cursor { indices: p }, off))
    }
}


/// A selector of one real element by a boundary on cumulative offsets: the
/// first element overlapping past the given offset, or the last element
/// overlapping before it.
#[derive(Debug, Clone, Copy, PartialEq, Eq, Structural)]
pub enum One {
    FirstAfter(i64),
    LastBefore(i64),
}

impl<T: ToOffset> Rope<T> {
    /// Find the element a selector names, never the one-past-end position:
    /// `None` when the boundary falls outside every element. Elements must
    /// carry nonnegative offsets.
    pub fn find_one(&self, one: One) -> (r: Option<(Cursor, i64)>)
        requires
            self.wf(),
            nonneg(self@),
        ensures
            (match one {
                One::FirstAfter(x) => {
                    &&& (r is Some <==> 0 <= x < seq_off(self@))
                    &&& (match r {
                        None => true,
                        Some(p) => {
                            &&& self.cursor_ok(p.0, false)
                            &&& p.1 as int == seq_off(self@.take(self.cursor_index(p.0)))
                            &&& seq_off(self@.take(self.cursor_index(p.0))) <= x
                            &&& seq_off(self@.take(self.cursor_index(p.0) + 1)) > x
                        },
                    })
                },
                One::LastBefore(x) => {
                    &&& (r is Some <==> 0 < x <= seq_off(self@))
                    &&& (match r {
                        None => true,
                        Some(p) => {
                            &&& self.cursor_ok(p.0, false)
                            &&& p.1 as int == seq_off(self@.take(self.cursor_index(p.0)))
                            &&& seq_off(self@.take(self.cursor_index(p.0))) < x
                            &&& seq_off(self@.take(self.cursor_index(p.0) + 1)) >= x
                        },
                    })
                },
            }),
    {
        match one {
            One::FirstAfter(x) => {
                if x >= self.offset_len() {
                    None
                } else {
                    self.inclusive_lower_bound(x)
                }
            },
            One::LastBefore(x) => {
                if x > self.offset_len() {
                    None
                } else {
                    self.inclusive_upper_bound(x)
                }
            },
        }
    }
}

} // verus!
