//! Iteration and range queries.

use vstd::prelude::*;

use crate::node::Node;
use crate::offset::{
    lemma_seq_off_take_bounds, lemma_seq_off_take_succ, nonneg, seq_off, ToOffset,
};
use crate::search::bound_pred;
use crate::Rope;

verus! {

/// Append references to every element of the subtree, in order.
#[verifier::loop_isolation(false)]
fn collect_node<'a, T: ToOffset>(n: &'a Node<T>, out: &mut Vec<&'a T>)
    ensures
        final(out)@.len() == old(out)@.len() + n.elems().len(),
        forall|j: int| 0 <= j < old(out)@.len() ==> final(out)@[j] == old(out)@[j],
        forall|j: int|
            0 <= j < n.elems().len() ==> *final(out)@[old(out)@.len() + j] == n.elems()[j],
    decreases *n,
{
    match n {
        Node::Leaf(v) => {
            let ghost base = out@.len();
            let mut i: usize = 0;
            while i < v.len()
                invariant
                    0 <= i <= v@.len(),
                    out@.len() == base + i,
                    forall|j: int| 0 <= j < base ==> out@[j] == old(out)@[j],
                    forall|j: int| 0 <= j < i ==> *out@[base + j] == v@[j],
                    base == old(out)@.len(),
                decreases v@.len() - i,
            {
                out.push(&v[i]);
                i = i + 1;
            }
        },
        Node::Internal(ino) => {
            let ghost cs = ino.children@;
            let ghost base = out@.len();
            proof {
                assert(cs.take(0) =~= Seq::<Node<T>>::empty());
            }
            let mut i: usize = 0;
            while i < ino.children.len()
                invariant
                    0 <= i <= cs.len(),
                    cs == ino.children@,
                    out@.len() == base + Node::elems_of(cs.take(i as int)).len(),
                    forall|j: int| 0 <= j < base ==> out@[j] == old(out)@[j],
                    forall|j: int|
                        0 <= j < Node::elems_of(cs.take(i as int)).len() ==> *out@[base + j]
                            == Node::elems_of(cs.take(i as int))[j],
                    base == old(out)@.len(),
                decreases cs.len() - i,
            {
                let ghost before = Node::elems_of(cs.take(i as int));
                collect_node(&ino.children[i], out);
                proof {
                    Node::lemma_elems_take_succ(cs, i as int);
                }
                i = i + 1;
            }
            proof {
                assert(cs.take(cs.len() as int) =~= cs);
            }
        },
    }
}

/// The position of the first element whose right boundary satisfies the
/// predicate, or the element count when none does.
pub open spec fn first_bound<T: ToOffset>(s: Seq<T>, x: int, ge: bool, j: int) -> int
    decreases s.len() - j when 0 <= j <= s.len()
{
    if j >= s.len() {
        s.len() as int
    } else if bound_pred(ge, seq_off(s.take(j + 1)), x) {
        j
    } else {
        first_bound(s, x, ge, j + 1)
    }
}

/// A boundary of a range query: the element covering the offset (`Floor`),
/// or the first element starting at or after it (`Ceil`).
#[derive(Debug, Clone, Copy, PartialEq, Eq, Structural)]
pub enum Edge {
    Floor(i64),
    Ceil(i64),
}

/// The element position a boundary resolves to, against a sequence of
/// elements: for `Floor(p)`, the first element whose right boundary passes
/// `p` (the element covering the offset); for `Ceil(p)`, the first element
/// whose left boundary reaches `p` (the first element starting at or after
/// the offset). Both are the element count when no element qualifies.
pub open spec fn edge_index<T: ToOffset>(s: Seq<T>, e: Edge) -> int {
    match e {
        Edge::Floor(p) => first_bound(s, p as int, false, 0),
        Edge::Ceil(p) => if p <= 0 {
            0
        } else if first_bound(s, p as int, true, 0) == s.len() {
            s.len() as int
        } else {
            first_bound(s, p as int, true, 0) + 1
        },
    }
}

/// Resolve a boundary against references to the elements: the position and
/// the offset up to it.
fn edge_scan<T: ToOffset>(elems: &Vec<&T>, e: Edge, Ghost(s): Ghost<Seq<T>>) -> (r: (usize, i64))
    requires
        elems@.len() == s.len(),
        forall|i: int| 0 <= i < s.len() ==> *elems@[i] == s[i],
        nonneg(s),
        seq_off(s) <= i64::MAX,
    ensures
        r.0 as int == edge_index(s, e),
        r.0 <= s.len(),
        r.1 as int == seq_off(s.take(r.0 as int)),
{
    match e {
        Edge::Floor(p) => scan_pos(elems, p, false, Ghost(s)),
        Edge::Ceil(p) => {
            if p <= 0 {
                proof {
                    assert(s.take(0) =~= Seq::<T>::empty());
                }
                (0, 0)
            } else {
                let (j, off) = scan_pos(elems, p, true, Ghost(s));
                if j == elems.len() {
                    (j, off)
                } else {
                    proof {
                        vstd::std_specs::vec::axiom_spec_len(elems);
                        lemma_seq_off_take_succ(s, j as int);
                        lemma_seq_off_take_bounds(s, j as int + 1);
                        lemma_seq_off_take_bounds(s, j as int);
                    }
                    let off2 = off + elems[j].to_offset();
                    (j + 1, off2)
                }
            }
        },
    }
}

/// Scan references to elements for the first whose right boundary satisfies
/// the predicate; returns the position and the offset up to it.
fn scan_pos<T: ToOffset>(elems: &Vec<&T>, x: i64, ge: bool, Ghost(s): Ghost<Seq<T>>) -> (r: (
    usize,
    i64,
))
    requires
        elems@.len() == s.len(),
        forall|i: int| 0 <= i < s.len() ==> *elems@[i] == s[i],
        nonneg(s),
        seq_off(s) <= i64::MAX,
    ensures
        r.0 as int == first_bound(s, x as int, ge, 0),
        r.0 <= s.len(),
        r.1 as int == seq_off(s.take(r.0 as int)),
{
    let mut j: usize = 0;
    let mut off: i64 = 0;
    proof {
        assert(s.take(0) =~= Seq::<T>::empty());
    }
    while j < elems.len()
        invariant
            0 <= j <= s.len(),
            elems@.len() == s.len(),
            forall|i: int| 0 <= i < s.len() ==> *elems@[i] == s[i],
            nonneg(s),
            seq_off(s) <= i64::MAX,
            off as int == seq_off(s.take(j as int)),
            first_bound(s, x as int, ge, 0) == first_bound(s, x as int, ge, j as int),
        decreases s.len() - j,
    {
        proof {
            lemma_seq_off_take_succ(s, j as int);
            lemma_seq_off_take_bounds(s, j as int);
            lemma_seq_off_take_bounds(s, j as int + 1);
        }
        let next = off + elems[j].to_offset();
        if crate::search::pred_exec(ge, next, x) {
            return (j, off);
        }
        off = next;
        j = j + 1;
    }
    (j, off)
}

impl<T: ToOffset> Rope<T> {
    /// References to every element, front to back. A fresh call restarts the
    /// walk; the reversed order is the reverse of this one.
    pub fn iter(&self) -> (r: Vec<&T>)
        requires
            self.wf(),
        ensures
            r@.len() == self@.len(),
            forall|j: int| 0 <= j < self@.len() ==> *r@[j] == self@[j],
    {
        let mut out: Vec<&T> = Vec::new();
        collect_node(&self.root, &mut out);
        out
    }

    /// The elements overlapping the range between two boundaries, with the
    /// concrete offset range they occupy. An empty or inverted range yields
    /// no elements, its end boundary degenerating to its start.
    pub fn range(&self, start: Edge, end: Edge) -> (r: (Vec<&T>, (i64, i64)))
        requires
            self.wf(),
            nonneg(self@),
        ensures
            ({
                let si = edge_index(self@, start);
                let ei = if edge_index(self@, end) < si {
                    si
                } else {
                    edge_index(self@, end)
                };
                &&& r.0@.len() == ei - si
                &&& (forall|j: int| 0 <= j < ei - si ==> *r.0@[j] == self@[si + j])
                &&& r.1.0 as int == seq_off(self@.take(si))
                &&& r.1.1 as int == seq_off(self@.take(ei))
            }),
    {
        let all = self.iter();
        proof {
            lemma_seq_off_take_bounds(self@, self@.len() as int);
            assert(self@.take(self@.len() as int) =~= self@);
        }
        let (si, lo) = edge_scan(&all, start, Ghost(self@));
        let (ei0, hi0) = edge_scan(&all, end, Ghost(self@));
        let (ei, hi) = if ei0 < si {
            (si, lo)
        } else {
            (ei0, hi0)
        };
        let mut out: Vec<&T> = Vec::new();
        let mut j = si;
        while j < ei
            invariant
                si <= j <= ei,
                ei <= all@.len(),
                all@.len() == self@.len(),
                forall|i: int| 0 <= i < self@.len() ==> *all@[i] == self@[i],
                out@.len() == j - si,
                forall|i: int| 0 <= i < j - si ==> out@[i] == all@[si + i],
            decreases ei - j,
        {
            let e = all[j];
            out.push(e);
            j = j + 1;
        }
        (out, (lo, hi))
    }
}

} // verus!
