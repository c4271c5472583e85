//! Laws of the container, stated over its mathematical model.

use vstd::prelude::*;

use crate::offset::{seq_off, ToOffset};

verus! {

/// The sequence obtained by starting from nothing and appending the elements
/// of `l` one at a time at the back, as [`crate::Rope::push_back`] does.
pub open spec fn built_back<T: ToOffset>(l: Seq<T>) -> Seq<T>
    decreases l.len(),
{
    if l.len() == 0 {
        Seq::empty()
    } else {
        built_back(l.drop_last()).push(l.last())
    }
}

/// Round trip: building a rope from a list by repeated `push_back` yields
/// exactly that list, so iterating it afterwards reproduces the list (the
/// iteration contract returns the rope's view verbatim).
pub proof fn lemma_round_trip<T: ToOffset>(l: Seq<T>)
    ensures
        built_back(l) == l,
    decreases l.len(),
{
    if l.len() == 0 {
        assert(built_back(l) =~= l);
    } else {
        lemma_round_trip(l.drop_last());
        assert(built_back(l) =~= l);
    }
}

/// Removal inverse: inserting `x` at position `i` and immediately removing
/// at that position returns `x`, restores the element order exactly, and
/// restores the total offset. `insert` and `remove_at` ensure precisely the
/// two sequence operations below, and `offset_len` returns the offset sum of
/// the view.
pub proof fn lemma_removal_inverse<T: ToOffset>(s: Seq<T>, i: int, x: T)
    requires
        0 <= i <= s.len(),
    ensures
        s.insert(i, x)[i] == x,
        s.insert(i, x).remove(i) == s,
        seq_off(s.insert(i, x).remove(i)) == seq_off(s),
{
    assert(s.insert(i, x).remove(i) =~= s);
}

/// Order preservation across the three placement operations: appending places
/// at the back, prepending at the front, and inserting at a position shifts
/// only what follows it. Iterating afterwards yields the elements in exactly
/// these logical places.
pub proof fn lemma_order_preservation<T: ToOffset>(s: Seq<T>, i: int, x: T)
    requires
        0 <= i <= s.len(),
    ensures
        s.push(x) == s.insert(s.len() as int, x),
        s.insert(0, x)[0] == x,
        s.insert(i, x)[i] == x,
        forall|j: int| 0 <= j < i ==> s.insert(i, x)[j] == s[j],
        forall|j: int| i <= j < s.len() ==> s.insert(i, x)[j + 1] == s[j],
{
    assert(s.push(x) =~= s.insert(s.len() as int, x));
}

} // verus!
