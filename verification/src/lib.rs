//! An ordered-sequence container (a rope) built as a variant of a B+ tree.
//!
//! Logically the rope is a sequence of elements, each carrying an offset (a
//! generalized length computed by [`ToOffset::to_offset`]). It supports
//! insertion and removal at an arbitrary position addressed by a [`Cursor`],
//! and search by cumulative offset, all in logarithmic time.
//!
//! Every public operation carries a contract over the rope's mathematical
//! view, a sequence of its elements; [`Rope::wf`] is the tree's invariant:
//! balance bounds, one common leaf depth, and exact cumulative-offset
//! checkpoints in every internal node.

use vstd::prelude::*;

pub mod cells;
mod insert;
pub mod iter;
pub mod laws;
pub mod lineset;
mod node;
pub mod offset;
mod ops;
mod remove;
pub mod search;
pub mod theming;
mod update;
pub mod wmapi;

use crate::node::Node;
use crate::offset::{seq_abs, seq_off, ToOffset};

verus! {

/// An ephemeral address of one element (or of the one-past-end position):
/// one child index per tree level, ending with an element index in a leaf.
/// A cursor is invalidated by any mutation of the rope it came from; it must
/// be recomputed before each positional operation.
#[derive(Debug, PartialEq, Eq)]
pub struct Cursor {
    pub(crate) indices: Vec<usize>,
}

/// The minimum number of children or elements in a single non-root node. The
/// actual number varies between `ORDER` and `ORDER * 2`. The root node is
/// exempt from the minimum.
pub const ORDER: usize = 8;

/// A rope: an ordered sequence of elements with logarithmic positional
/// insertion, removal, and offset search.
pub struct Rope<T> {
    root: Node<T>,
    len: i64,
}

impl<T: ToOffset> Rope<T> {
    /// The mathematical view of the rope: its elements, in order.
    pub closed spec fn view(&self) -> Seq<T> {
        self.root.elems()
    }

    /// The rope's invariant: the tree is balanced (every non-root node holds
    /// between `ORDER` and `2 * ORDER` children or elements, every leaf is at
    /// one common depth), every internal offset checkpoint equals the sum it
    /// caches, the cached total equals the sum over all elements, and that
    /// sum cannot overflow anywhere (the absolute offsets sum to at most
    /// `i64::MAX`).
    pub closed spec fn wf(&self) -> bool {
        &&& self.root.wf_core()
        &&& (self.root is Internal ==> self.root.count() >= 2)
        &&& self.len as int == seq_off(self@)
        &&& seq_abs(self@) <= i64::MAX
    }

    /// Whether a cursor addresses an element of this rope (`ins == false`),
    /// or an element slot including the one-past-end position of a leaf
    /// (`ins == true`, a valid insertion point).
    pub closed spec fn cursor_ok(&self, c: Cursor, ins: bool) -> bool {
        self.root.path_ok(c.indices@, ins)
    }

    /// The position in the rope's element sequence that a cursor addresses.
    pub closed spec fn cursor_index(&self, c: Cursor) -> int {
        self.root.path_index(c.indices@)
    }

    /// Construct an empty rope.
    pub fn new() -> (r: Self)
        ensures
            r.wf(),
            r@ == Seq::<T>::empty(),
    {
        let r = Rope { root: Node::Leaf(Vec::new()), len: 0 };
        proof {
            assert(r@ =~= Seq::<T>::empty());
        }
        r
    }

    /// The total offset of the rope: the sum of `to_offset` over all current
    /// elements (not necessarily the number of elements).
    pub fn offset_len(&self) -> (r: i64)
        requires
            self.wf(),
        ensures
            r as int == seq_off(self@),
    {
        self.len
    }

    /// Whether the rope holds no elements.
    pub fn is_empty(&self) -> (r: bool)
        requires
            self.wf(),
        ensures
            r <==> self@.len() == 0,
    {
        match &self.root {
            Node::Leaf(v) => v.len() == 0,
            Node::Internal(ino) => {
                proof {
                    Node::lemma_row_elems_ge(ino.children@);
                }
                false
            },
        }
    }

    /// Remove and return the last element, or nothing if the rope is empty.
    pub fn pop_back(&mut self) -> (r: Option<T>)
        requires
            old(self).wf(),
        ensures
            final(self).wf(),
            old(self)@.len() == 0 ==> r is None && final(self)@ == old(self)@,
            old(self)@.len() > 0 ==> r == Some(old(self)@.last()) && final(self)@ == old(
                self,
            )@.drop_last(),
            seq_abs(final(self)@) <= seq_abs(old(self)@),
    {
        if self.is_empty() {
            None
        } else {
            let c = self.last_cursor();
            let x = self.remove_at(c);
            proof {
                assert(old(self)@.remove(old(self)@.len() - 1) =~= old(self)@.drop_last());
                crate::offset::lemma_seq_abs_nonneg(
                    Seq::empty().push(old(self)@.last()),
                );
                crate::offset::lemma_seq_off_single(old(self)@.last());
            }
            Some(x)
        }
    }

    /// Remove and return the first element, or nothing if the rope is empty.
    pub fn pop_front(&mut self) -> (r: Option<T>)
        requires
            old(self).wf(),
        ensures
            final(self).wf(),
            old(self)@.len() == 0 ==> r is None && final(self)@ == old(self)@,
            old(self)@.len() > 0 ==> r == Some(old(self)@[0]) && final(self)@ == old(
                self,
            )@.drop_first(),
            seq_abs(final(self)@) <= seq_abs(old(self)@),
    {
        if self.is_empty() {
            None
        } else {
            let c = self.begin();
            let x = self.remove_at(c);
            proof {
                assert(old(self)@.remove(0) =~= old(self)@.drop_first());
                crate::offset::lemma_seq_abs_nonneg(Seq::empty().push(old(self)@[0]));
                crate::offset::lemma_seq_off_single(old(self)@[0]);
            }
            Some(x)
        }
    }

    /// The first element, or nothing if the rope is empty.
    pub fn first(&self) -> (r: Option<&T>)
        requires
            self.wf(),
        ensures
            self@.len() == 0 ==> r is None,
            self@.len() > 0 ==> r == Some(&self@[0]),
    {
        if self.is_empty() {
            None
        } else {
            let c = self.begin();
            Some(self.get_at(c))
        }
    }

    /// The last element, or nothing if the rope is empty.
    pub fn last(&self) -> (r: Option<&T>)
        requires
            self.wf(),
        ensures
            self@.len() == 0 ==> r is None,
            self@.len() > 0 ==> r == Some(&self@[self@.len() - 1]),
    {
        if self.is_empty() {
            None
        } else {
            let c = self.last_cursor();
            Some(self.get_at(c))
        }
    }
}

} // verus!
