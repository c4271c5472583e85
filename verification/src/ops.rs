//! Cursor acquisition and positional access.

use vstd::prelude::*;

use crate::node::Node;
use crate::offset::ToOffset;
use crate::{Cursor, Rope};

verus! {

/// Path to the first element slot of a subtree: all indices zero.
fn begin_path<T: ToOffset>(n: &Node<T>) -> (p: Vec<usize>)
    requires
        n.wf_core(),
    ensures
        n.path_ok(p@, true),
        n.elems().len() > 0 ==> n.path_ok(p@, false),
        n.path_index(p@) == 0,
    decreases *n,
{
    match n {
        Node::Leaf(_) => {
            let mut p: Vec<usize> = Vec::new();
            p.push(0);
            p
        },
        Node::Internal(ino) => {
            let mut p = begin_path(&ino.children[0]);
            let ghost sub = p@;
            p.insert(0, 0);
            proof {
                let cs = ino.children@;
                assert(p@.drop_first() =~= sub);
                assert(cs.take(0) =~= Seq::<Node<T>>::empty());
                Node::lemma_elems_ge_count(cs[0]);
            }
            p
        },
    }
}

/// Path to the last element of a subtree (`past == false`), or to its
/// one-past-end slot (`past == true`): last child at every level.
fn end_path<T: ToOffset>(n: &Node<T>, past: bool) -> (p: Vec<usize>)
    requires
        n.wf_core(),
        !past ==> n.count() >= 1,
    ensures
        n.path_ok(p@, true),
        past ==> n.path_index(p@) == n.elems().len(),
        !past ==> n.path_ok(p@, false) && n.path_index(p@) == n.elems().len() - 1,
    decreases *n,
{
    match n {
        Node::Leaf(v) => {
            let mut p: Vec<usize> = Vec::new();
            if past {
                p.push(v.len());
            } else {
                p.push(v.len() - 1);
            }
            p
        },
        Node::Internal(ino) => {
            let k = ino.children.len() - 1;
            let mut p = end_path(&ino.children[k], past);
            let ghost sub = p@;
            p.insert(0, k);
            proof {
                let cs = ino.children@;
                assert(p@.drop_first() =~= sub);
                Node::lemma_elems_decompose(cs, k as int);
                assert(cs.subrange(k as int + 1, cs.len() as int) =~= Seq::<Node<T>>::empty());
            }
            p
        },
    }
}

/// Descend a path and return the addressed element.
fn get_node<'a, T: ToOffset>(n: &'a Node<T>, p: &Vec<usize>, d: usize) -> (r: &'a T)
    requires
        d < p@.len(),
        n.path_ok(p@.skip(d as int), false),
    ensures
        *r == n.elems()[n.path_index(p@.skip(d as int))],
    decreases p@.len() - d,
{
    proof {
        assert(p@.skip(d as int)[0] == p@[d as int]);
    }
    match n {
        Node::Leaf(v) => &v[p[d]],
        Node::Internal(ino) => {
            let k = p[d];
            proof {
                vstd::std_specs::vec::axiom_spec_len(p);
                let cs = ino.children@;
                assert(p@.skip(d as int).drop_first() =~= p@.skip(d as int + 1));
                Node::lemma_path_index_bounds(cs[k as int], p@.skip(d as int + 1), false);
                Node::lemma_elems_decompose(cs, k as int);
            }
            get_node(&ino.children[k], p, d + 1)
        },
    }
}

impl<T: ToOffset> Rope<T> {
    /// A cursor addressing the first element slot of the rope: position zero.
    /// Valid even for an empty rope (as an insertion point).
    pub fn begin(&self) -> (c: Cursor)
        requires
            self.wf(),
        ensures
            self.cursor_ok(c, true),
            self@.len() > 0 ==> self.cursor_ok(c, false),
            self.cursor_index(c) == 0,
    {
        Cursor { indices: begin_path(&self.root) }
    }

    /// A cursor addressing the one-past-end position of the rope.
    pub fn end(&self) -> (c: Cursor)
        requires
            self.wf(),
        ensures
            self.cursor_ok(c, true),
            self.cursor_index(c) == self@.len(),
    {
        Cursor { indices: end_path(&self.root, true) }
    }

    /// A cursor addressing the last element of the rope, distinct from
    /// [`Rope::end`]. The rope must not be empty.
    pub fn last_cursor(&self) -> (c: Cursor)
        requires
            self.wf(),
            self@.len() > 0,
        ensures
            self.cursor_ok(c, false),
            self.cursor_index(c) == self@.len() - 1,
    {
        proof {
            if self.root is Leaf {
                assert(self.root.count() >= 1);
            }
        }
        Cursor { indices: end_path(&self.root, false) }
    }

    /// The element a cursor addresses. The cursor must have been obtained
    /// from this rope, unmodified since.
    pub fn get_at(&self, at: Cursor) -> (r: &T)
        requires
            self.wf(),
            self.cursor_ok(at, false),
        ensures
            *r == self@[self.cursor_index(at)],
    {
        proof {
            assert(at.indices@.skip(0) =~= at.indices@);
        }
        get_node(&self.root, &at.indices, 0)
    }
}

} // verus!
