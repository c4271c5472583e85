//! The offset capability of rope elements.
//!
//! Every element of a rope has an offset: a signed length that is summed
//! over the elements to form cumulative positions. The offset of an element
//! is a pure function of the element alone.

use vstd::prelude::*;

verus! {

/// An element type that can report its own offset (its generalized length).
///
/// `spec_offset` is the mathematical offset of the element; `to_offset`
/// computes it. The executable result always equals the specification-level
/// value, so an element's offset fits in an `i64` whenever `to_offset` is
/// callable.
pub trait ToOffset: Sized {
    /// The offset of the element, as a mathematical integer.
    spec fn spec_offset(&self) -> int;

    /// Compute the offset of the element.
    fn to_offset(&self) -> (r: i64)
        ensures
            r as int == self.spec_offset(),
    ;
}

/// Strings measure themselves by their character count, saturating at
/// `i64::MAX` (unreachable in practice, but the saturation keeps the
/// executable result equal to the stated offset on every input).
impl ToOffset for String {
    open spec fn spec_offset(&self) -> int {
        if self@.len() > i64::MAX {
            i64::MAX as int
        } else {
            self@.len() as int
        }
    }

    fn to_offset(&self) -> (r: i64) {
        let n = self.as_str().unicode_len();
        if n as u64 > i64::MAX as u64 {
            i64::MAX
        } else {
            n as i64
        }
    }
}

/// The offset of a sequence of elements: the sum of the offsets of its
/// members, in order.
pub open spec fn seq_off<T: ToOffset>(s: Seq<T>) -> int
    decreases s.len(),
{
    if s.len() == 0 {
        0
    } else {
        seq_off(s.drop_last()) + s.last().spec_offset()
    }
}

/// The absolute value of a mathematical integer.
pub open spec fn abs1(x: int) -> int {
    if x < 0 {
        -x
    } else {
        x
    }
}

/// The sum of the absolute offsets of a sequence of elements. It bounds
/// every partial sum of offsets over any contiguous part of the sequence.
pub open spec fn seq_abs<T: ToOffset>(s: Seq<T>) -> int
    decreases s.len(),
{
    if s.len() == 0 {
        0
    } else {
        seq_abs(s.drop_last()) + abs1(s.last().spec_offset())
    }
}

/// Offsets add over concatenation.
pub proof fn lemma_seq_off_concat<T: ToOffset>(a: Seq<T>, b: Seq<T>)
    ensures
        seq_off(a + b) == seq_off(a) + seq_off(b),
    decreases b.len(),
{
    if b.len() == 0 {
        assert(a + b =~= a);
    } else {
        lemma_seq_off_concat(a, b.drop_last());
        assert((a + b).drop_last() =~= a + b.drop_last());
        assert((a + b).last() == b.last());
    }
}

/// Absolute offsets add over concatenation.
pub proof fn lemma_seq_abs_concat<T: ToOffset>(a: Seq<T>, b: Seq<T>)
    ensures
        seq_abs(a + b) == seq_abs(a) + seq_abs(b),
    decreases b.len(),
{
    if b.len() == 0 {
        assert(a + b =~= a);
    } else {
        lemma_seq_abs_concat(a, b.drop_last());
        assert((a + b).drop_last() =~= a + b.drop_last());
        assert((a + b).last() == b.last());
    }
}

/// An absolute-offset sum is never negative.
pub proof fn lemma_seq_abs_nonneg<T: ToOffset>(s: Seq<T>)
    ensures
        seq_abs(s) >= 0,
    decreases s.len(),
{
    if s.len() > 0 {
        lemma_seq_abs_nonneg(s.drop_last());
    }
}

/// An offset sum is bounded by the absolute-offset sum.
pub proof fn lemma_seq_off_le_abs<T: ToOffset>(s: Seq<T>)
    ensures
        abs1(seq_off(s)) <= seq_abs(s),
    decreases s.len(),
{
    if s.len() > 0 {
        lemma_seq_off_le_abs(s.drop_last());
    }
}

/// The absolute-offset sum of a contiguous part is bounded by that of the
/// whole sequence.
pub proof fn lemma_seq_abs_subrange<T: ToOffset>(s: Seq<T>, i: int, j: int)
    requires
        0 <= i <= j <= s.len(),
    ensures
        seq_abs(s.subrange(i, j)) <= seq_abs(s),
{
    assert(s =~= s.subrange(0, i) + s.subrange(i, j) + s.subrange(j, s.len() as int));
    lemma_seq_abs_concat(s.subrange(0, i) + s.subrange(i, j), s.subrange(j, s.len() as int));
    lemma_seq_abs_concat(s.subrange(0, i), s.subrange(i, j));
    lemma_seq_abs_nonneg(s.subrange(0, i));
    lemma_seq_abs_nonneg(s.subrange(j, s.len() as int));
}

/// Every element of the sequence has a nonnegative offset. Under this
/// condition the cumulative offsets of element right-boundaries are
/// monotonically non-decreasing, which the offset searches require.
pub open spec fn nonneg<T: ToOffset>(s: Seq<T>) -> bool {
    forall|i: int| 0 <= i < s.len() ==> (#[trigger] s[i]).spec_offset() >= 0
}

/// A one-element sequence sums to that element's offset.
pub proof fn lemma_seq_off_single<T: ToOffset>(x: T)
    ensures
        seq_off(Seq::empty().push(x)) == x.spec_offset(),
        seq_abs(Seq::empty().push(x)) == abs1(x.spec_offset()),
{
    assert(Seq::empty().push(x).drop_last() =~= Seq::<T>::empty());
    assert(seq_off(Seq::<T>::empty()) == 0);
    assert(seq_abs(Seq::<T>::empty()) == 0);
}

/// Inserting an element adds its offset to the sum.
pub proof fn lemma_seq_off_insert<T: ToOffset>(s: Seq<T>, i: int, x: T)
    requires
        0 <= i <= s.len(),
    ensures
        seq_off(s.insert(i, x)) == seq_off(s) + x.spec_offset(),
{
    assert(s.insert(i, x) =~= s.take(i) + (Seq::empty().push(x) + s.skip(i)));
    assert(s =~= s.take(i) + s.skip(i));
    lemma_seq_off_concat(s.take(i), Seq::empty().push(x) + s.skip(i));
    lemma_seq_off_concat(Seq::empty().push(x), s.skip(i));
    lemma_seq_off_concat(s.take(i), s.skip(i));
    lemma_seq_off_single(x);
}

/// Inserting an element adds its absolute offset to the absolute sum.
pub proof fn lemma_seq_abs_insert<T: ToOffset>(s: Seq<T>, i: int, x: T)
    requires
        0 <= i <= s.len(),
    ensures
        seq_abs(s.insert(i, x)) == seq_abs(s) + abs1(x.spec_offset()),
{
    assert(s.insert(i, x) =~= s.take(i) + (Seq::empty().push(x) + s.skip(i)));
    assert(s =~= s.take(i) + s.skip(i));
    lemma_seq_abs_concat(s.take(i), Seq::empty().push(x) + s.skip(i));
    lemma_seq_abs_concat(Seq::empty().push(x), s.skip(i));
    lemma_seq_abs_concat(s.take(i), s.skip(i));
    lemma_seq_off_single(x);
}

/// Removing an element subtracts its offset from the sum.
pub proof fn lemma_seq_off_remove<T: ToOffset>(s: Seq<T>, i: int)
    requires
        0 <= i < s.len(),
    ensures
        seq_off(s.remove(i)) == seq_off(s) - s[i].spec_offset(),
{
    assert(s.remove(i).insert(i, s[i]) =~= s);
    lemma_seq_off_insert(s.remove(i), i, s[i]);
}

/// Removing an element subtracts its absolute offset from the absolute sum.
pub proof fn lemma_seq_abs_remove<T: ToOffset>(s: Seq<T>, i: int)
    requires
        0 <= i < s.len(),
    ensures
        seq_abs(s.remove(i)) == seq_abs(s) - abs1(s[i].spec_offset()),
{
    assert(s.remove(i).insert(i, s[i]) =~= s);
    lemma_seq_abs_insert(s.remove(i), i, s[i]);
}

/// Updating an element adjusts the sum by the offset difference.
pub proof fn lemma_seq_off_update<T: ToOffset>(s: Seq<T>, i: int, x: T)
    requires
        0 <= i < s.len(),
    ensures
        seq_off(s.update(i, x)) == seq_off(s) - s[i].spec_offset() + x.spec_offset(),
        seq_abs(s.update(i, x)) == seq_abs(s) - abs1(s[i].spec_offset()) + abs1(x.spec_offset()),
{
    assert(s.update(i, x) =~= s.remove(i).insert(i, x));
    lemma_seq_off_remove(s, i);
    lemma_seq_abs_remove(s, i);
    lemma_seq_off_insert(s.remove(i), i, x);
    lemma_seq_abs_insert(s.remove(i), i, x);
}

/// The offset sum of any contiguous part is bounded in size by the
/// absolute-offset sum of the whole sequence.
pub proof fn lemma_seq_off_subrange_bound<T: ToOffset>(s: Seq<T>, i: int, j: int)
    requires
        0 <= i <= j <= s.len(),
    ensures
        abs1(seq_off(s.subrange(i, j))) <= seq_abs(s),
{
    lemma_seq_off_le_abs(s.subrange(i, j));
    lemma_seq_abs_subrange(s, i, j);
}

/// With nonnegative offsets, prefix sums are monotone.
pub proof fn lemma_seq_off_take_mono<T: ToOffset>(s: Seq<T>, i: int, j: int)
    requires
        nonneg(s),
        0 <= i <= j <= s.len(),
    ensures
        seq_off(s.take(i)) <= seq_off(s.take(j)),
    decreases j - i,
{
    if i < j {
        lemma_seq_off_take_succ(s, j - 1);
        lemma_seq_off_take_mono(s, i, j - 1);
    }
}

/// With nonnegative offsets, every prefix sum lies between zero and the
/// total.
pub proof fn lemma_seq_off_take_bounds<T: ToOffset>(s: Seq<T>, j: int)
    requires
        nonneg(s),
        0 <= j <= s.len(),
    ensures
        0 <= seq_off(s.take(j)),
        seq_off(s.take(j)) <= seq_off(s),
{
    assert(s.take(0) =~= Seq::<T>::empty());
    assert(s.take(s.len() as int) =~= s);
    lemma_seq_off_take_mono(s, 0, j);
    lemma_seq_off_take_mono(s, j, s.len() as int);
}

/// Extending a prefix by one element adds that element's offset.
pub proof fn lemma_seq_off_take_succ<T: ToOffset>(s: Seq<T>, j: int)
    requires
        0 <= j < s.len(),
    ensures
        seq_off(s.take(j + 1)) == seq_off(s.take(j)) + s[j].spec_offset(),
{
    assert(s.take(j + 1).drop_last() =~= s.take(j));
    assert(s.take(j + 1).last() == s[j]);
}

} // verus!
