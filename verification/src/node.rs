//! Tree nodes of the rope, their abstraction to a sequence of elements, and
//! their well-formedness.

use vstd::prelude::*;

use crate::offset::{abs1, seq_abs, seq_off, ToOffset};
use crate::ORDER;

verus! {

/// An internal node: child nodes plus cumulative offset checkpoints.
///
/// `offsets[i]` caches the summed offset of every element held by
/// `children[0..=i]`, so a search can pick the right child without touching
/// the others.
pub(crate) struct INode<T> {
    pub offsets: Vec<i64>,
    pub children: Vec<Node<T>>,
}

/// A tree node: either a leaf holding elements in order, or an internal node
/// holding children of one common kind.
pub(crate) enum Node<T> {
    Leaf(Vec<T>),
    Internal(INode<T>),
}

impl<T: ToOffset> Node<T> {
    /// The elements held by this subtree, in order.
    pub(crate) open spec fn elems(self) -> Seq<T>
        decreases self,
    {
        match self {
            Node::Leaf(v) => v@,
            Node::Internal(ino) => Self::elems_of(ino.children@),
        }
    }

    /// The elements held by a row of subtrees, in order.
    pub(crate) open spec fn elems_of(cs: Seq<Node<T>>) -> Seq<T>
        decreases cs,
    {
        if cs.len() == 0 {
            Seq::empty()
        } else {
            Self::elems_of(cs.drop_last()) + cs.last().elems()
        }
    }

    /// How many elements (leaf) or children (internal) the node itself holds.
    pub(crate) open spec fn count(self) -> nat {
        match self {
            Node::Leaf(v) => v@.len(),
            Node::Internal(ino) => ino.children@.len(),
        }
    }

    pub(crate) open spec fn is_leaf(self) -> bool {
        self is Leaf
    }

    /// Distance from this node down to its leaves. Well-formed nodes have one
    /// common height among their children, so any path serves.
    pub(crate) open spec fn height(self) -> nat
        decreases self,
    {
        match self {
            Node::Leaf(_) => 0,
            Node::Internal(ino) => 1 + if ino.children@.len() > 0 {
                ino.children@[0].height()
            } else {
                0
            },
        }
    }

    /// Everything the balance invariant asks of a subtree, except the minimum
    /// occupancy of the node itself (which depends on whether it is the root):
    /// capacity caps, exact offset checkpoints, children of one height, and
    /// at least `ORDER` occupancy in every strictly lower node.
    pub(crate) open spec fn wf_core(self) -> bool
        decreases self,
    {
        match self {
            Node::Leaf(v) => v@.len() <= 2 * ORDER,
            Node::Internal(ino) => {
                let cs = ino.children@;
                &&& 1 <= cs.len() <= 2 * ORDER
                &&& ino.offsets@.len() == cs.len() - 1
                &&& (forall|i: int| 0 <= i < cs.len() ==> (#[trigger] cs[i]).wf_core())
                &&& (forall|i: int| 0 <= i < cs.len() ==> (#[trigger] cs[i]).count() >= ORDER)
                &&& (forall|i: int|
                    0 <= i < cs.len() ==> (#[trigger] cs[i]).height() == cs[0].height())
                &&& (forall|i: int|
                    0 <= i < ino.offsets@.len() ==> (#[trigger] ino.offsets@[i]) as int
                        == seq_off(Self::elems_of(cs.take(i + 1))))
            },
        }
    }

    /// A root-to-leaf path addresses one element slot: one child index per
    /// level, and an element index in the leaf. With `ins`, the one-past-end
    /// slot of the leaf is allowed too (an insertion point).
    pub(crate) open spec fn path_ok(self, p: Seq<usize>, ins: bool) -> bool
        decreases self,
    {
        match self {
            Node::Leaf(v) => p.len() == 1 && if ins {
                p[0] <= v@.len()
            } else {
                p[0] < v@.len()
            },
            Node::Internal(ino) => {
                let cs = ino.children@;
                &&& p.len() >= 2
                &&& (p[0] as int) < cs.len()
                &&& cs[p[0] as int].path_ok(p.drop_first(), ins)
            },
        }
    }

    /// The position, within this subtree's element sequence, of the slot a
    /// path addresses.
    pub(crate) open spec fn path_index(self, p: Seq<usize>) -> int
        decreases self,
    {
        match self {
            Node::Leaf(_) => p[0] as int,
            Node::Internal(ino) => {
                let cs = ino.children@;
                if (p[0] as int) < cs.len() {
                    Self::elems_of(cs.take(p[0] as int)).len() + cs[p[0] as int].path_index(
                        p.drop_first(),
                    )
                } else {
                    0
                }
            },
        }
    }

    /// A valid path addresses a position inside (or, for an insertion path,
    /// just past) the subtree's element sequence.
    pub(crate) proof fn lemma_path_index_bounds(n: Node<T>, p: Seq<usize>, ins: bool)
        requires
            n.path_ok(p, ins),
        ensures
            0 <= n.path_index(p),
            ins ==> n.path_index(p) <= n.elems().len(),
            !ins ==> n.path_index(p) < n.elems().len(),
        decreases n,
    {
        match n {
            Node::Leaf(_) => {},
            Node::Internal(ino) => {
                let cs = ino.children@;
                let k = p[0] as int;
                Self::lemma_path_index_bounds(cs[k], p.drop_first(), ins);
                Self::lemma_elems_decompose(cs, k);
            },
        }
    }

    /// Row elements add over concatenation.
    pub(crate) proof fn lemma_elems_of_concat(a: Seq<Node<T>>, b: Seq<Node<T>>)
        ensures
            Self::elems_of(a + b) == Self::elems_of(a) + Self::elems_of(b),
        decreases b.len(),
    {
        if b.len() == 0 {
            assert(a + b =~= a);
            assert(Self::elems_of(a) + Self::elems_of(b) =~= Self::elems_of(a));
        } else {
            Self::lemma_elems_of_concat(a, b.drop_last());
            assert((a + b).drop_last() =~= a + b.drop_last());
            assert((a + b).last() == b.last());
            assert(Self::elems_of(a) + Self::elems_of(b.drop_last()) + b.last().elems()
                =~= Self::elems_of(a) + (Self::elems_of(b.drop_last()) + b.last().elems()));
        }
    }

    /// One more subtree in a prefix contributes its elements at the end.
    pub(crate) proof fn lemma_elems_take_succ(cs: Seq<Node<T>>, k: int)
        requires
            0 <= k < cs.len(),
        ensures
            Self::elems_of(cs.take(k + 1)) == Self::elems_of(cs.take(k)) + cs[k].elems(),
    {
        assert(cs.take(k + 1).drop_last() =~= cs.take(k));
        assert(cs.take(k + 1).last() == cs[k]);
    }

    /// A well-formed subtree holds at least as many elements as its own
    /// occupancy count.
    pub(crate) proof fn lemma_elems_ge_count(n: Node<T>)
        requires
            n.wf_core(),
        ensures
            n.elems().len() >= n.count(),
        decreases n, 1int,
    {
        match n {
            Node::Leaf(_) => {},
            Node::Internal(ino) => {
                Self::lemma_row_elems_ge(ino.children@);
            },
        }
    }

    /// A row of well-formed, occupied subtrees holds at least one element per
    /// subtree.
    pub(crate) proof fn lemma_row_elems_ge(cs: Seq<Node<T>>)
        requires
            forall|i: int| 0 <= i < cs.len() ==> (#[trigger] cs[i]).wf_core(),
            forall|i: int| 0 <= i < cs.len() ==> (#[trigger] cs[i]).count() >= 1,
        ensures
            Self::elems_of(cs).len() >= cs.len(),
        decreases cs, 0int,
    {
        if cs.len() > 0 {
            assert(cs.drop_last() =~= cs.subrange(0, cs.len() - 1));
            assert(forall|i: int|
                0 <= i < cs.drop_last().len() ==> cs.drop_last()[i] == cs[i]);
            Self::lemma_row_elems_ge(cs.drop_last());
            Self::lemma_elems_ge_count(cs.last());
        }
    }

    /// After one subtree of a row absorbs an inserted element, every row
    /// prefix that covers that subtree holds the old prefix with the element
    /// inserted, and earlier prefixes are unchanged.
    pub(crate) proof fn lemma_prefix_after_child_insert(
        cs0: Seq<Node<T>>,
        csn: Seq<Node<T>>,
        k: int,
        li: int,
        x: T,
        m: int,
    )
        requires
            0 <= k < cs0.len(),
            csn == cs0.update(k, csn[k]),
            csn[k].elems() == cs0[k].elems().insert(li, x),
            0 <= li <= cs0[k].elems().len(),
            0 <= m <= cs0.len(),
        ensures
            m <= k ==> Self::elems_of(csn.take(m)) == Self::elems_of(cs0.take(m)),
            m > k ==> Self::elems_of(csn.take(m)) == Self::elems_of(cs0.take(m)).insert(
                Self::elems_of(cs0.take(k)).len() + li,
                x,
            ),
    {
        if m <= k {
            assert(csn.take(m) =~= cs0.take(m));
        } else {
            Self::lemma_elems_decompose(csn.take(m), k);
            Self::lemma_elems_decompose(cs0.take(m), k);
            assert(csn.take(m).take(k) =~= cs0.take(m).take(k));
            assert(cs0.take(m).take(k) =~= cs0.take(k));
            assert(csn.take(m).subrange(k + 1, m) =~= cs0.take(m).subrange(k + 1, m));
            assert(csn.take(m)[k] == csn[k]);
            assert(cs0.take(m)[k] == cs0[k]);
            let a = Self::elems_of(cs0.take(k));
            let b = cs0[k].elems();
            let c = Self::elems_of(cs0.take(m).subrange(k + 1, m));
            assert(a + b.insert(li, x) + c =~= (a + b + c).insert(a.len() + li, x));
        }
    }

    /// After one subtree of a row splits into two (absorbing an inserted
    /// element between them), row prefixes relate to the old ones: unchanged
    /// before the split, the left half's elements appended at the boundary,
    /// and the old prefix with the element inserted beyond it.
    #[verifier::rlimit(60)]
    pub(crate) proof fn lemma_prefix_after_child_split(
        cs0: Seq<Node<T>>,
        csn: Seq<Node<T>>,
        k: int,
        li: int,
        x: T,
        m: int,
    )
        requires
            0 <= k < cs0.len(),
            csn == cs0.update(k, csn[k]).insert(k + 1, csn[k + 1]),
            csn[k].elems() + csn[k + 1].elems() == cs0[k].elems().insert(li, x),
            0 <= li <= cs0[k].elems().len(),
            0 <= m <= csn.len(),
        ensures
            m <= k ==> Self::elems_of(csn.take(m)) == Self::elems_of(cs0.take(m)),
            m == k + 1 ==> Self::elems_of(csn.take(m)) == Self::elems_of(cs0.take(k))
                + csn[k].elems(),
            m >= k + 2 ==> Self::elems_of(csn.take(m)) == Self::elems_of(cs0.take(m - 1)).insert(
                Self::elems_of(cs0.take(k)).len() + li,
                x,
            ),
    {
        if m <= k {
            assert(csn.take(m) =~= cs0.take(m));
        } else if m == k + 1 {
            Self::lemma_elems_take_succ(csn, k);
            assert(csn.take(m).take(k) =~= csn.take(k));
            assert(csn.take(k) =~= cs0.take(k));
        } else {
            // decompose the new prefix around the two halves
            Self::lemma_elems_decompose(csn.take(m), k);
            Self::lemma_elems_decompose(csn.take(m).subrange(k + 1, m), 0);
            assert(csn.take(m).take(k) =~= cs0.take(k));
            assert(csn.take(m)[k] == csn[k]);
            assert(csn.take(m).subrange(k + 1, m)[0] == csn[k + 1]);
            assert(csn.take(m).subrange(k + 1, m).take(0) =~= Seq::<Node<T>>::empty());
            assert(csn.take(m).subrange(k + 1, m).subrange(1, m - k - 1) =~= cs0.take(m
                - 1).subrange(k + 1, m - 1));
            Self::lemma_elems_decompose(cs0.take(m - 1), k);
            assert(cs0.take(m - 1).take(k) =~= cs0.take(k));
            assert(cs0.take(m - 1)[k] == cs0[k]);
            let a = Self::elems_of(cs0.take(k));
            let b = cs0[k].elems();
            let c = Self::elems_of(cs0.take(m - 1).subrange(k + 1, m - 1));
            assert(Self::elems_of(csn.take(m)) == a + csn[k].elems() + (Seq::<T>::empty()
                + csn[k + 1].elems() + c));
            assert(a + csn[k].elems() + (Seq::<T>::empty() + csn[k + 1].elems() + c) =~= a + (
            csn[k].elems() + csn[k + 1].elems()) + c);
            assert(a + b.insert(li, x) + c =~= (a + b + c).insert(a.len() + li, x));
        }
    }

    /// A row's elements split at any subtree boundary.
    pub(crate) proof fn lemma_elems_decompose(cs: Seq<Node<T>>, k: int)
        requires
            0 <= k < cs.len(),
        ensures
            Self::elems_of(cs) == Self::elems_of(cs.take(k)) + cs[k].elems() + Self::elems_of(
                cs.subrange(k + 1, cs.len() as int),
            ),
    {
        assert(cs =~= cs.take(k + 1) + cs.subrange(k + 1, cs.len() as int));
        Self::lemma_elems_of_concat(cs.take(k + 1), cs.subrange(k + 1, cs.len() as int));
        Self::lemma_elems_take_succ(cs, k);
    }
}

} // verus!
