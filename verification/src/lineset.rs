//! Line-group bookkeeping for virtualized views: sizes in level-of-detail
//! (LOD) groups.
//!
//! A lineset tracks line heights in groups whose size grows with their LOD
//! level; the functions here are the pure arithmetic of those levels: which
//! group sizes a level admits, the minimum level for a size, and how far out
//! of a viewport a level reaches.

use vstd::prelude::*;

use crate::offset::ToOffset;

verus! {

/// The type for line sizes and positions. Signed, since it also represents
/// differences.
pub type Size = i64;

/// The type for line indices. Signed, since it also represents differences.
pub type Index = i64;

/// A source of line sizes. `line_total_size` reports the total size of the
/// lines in `start..end`; the result may be approximate when `approx` is
/// true, and `end - start` must be one when it is false.
pub trait LinesetModel {
    fn line_total_size(&self, start: Index, end: Index, approx: bool) -> Size;
}

/// A line group: one or more adjacent lines tracked as a unit.
#[derive(Debug, Clone, Copy, PartialEq, Eq, Structural)]
pub struct LineGr {
    pub num_lines: Index,
    pub size: Size,
}

/// The rope offset of a line group: its line count and its total size.
#[derive(Debug, Clone, Copy, PartialEq, Eq, Structural)]
pub struct LineOff {
    pub index: Index,
    pub pos: Size,
}

impl LineOff {
    /// The line-count component.
    pub fn index(&self) -> (r: Index)
        ensures
            r == self.index,
    {
        self.index
    }

    /// The position (size) component.
    pub fn pos(&self) -> (r: Size)
        ensures
            r == self.pos,
    {
        self.pos
    }
}

/// A line group measures itself by its line count: ropes of line groups are
/// searched by line index.
impl ToOffset for LineGr {
    open spec fn spec_offset(&self) -> int {
        self.num_lines as int
    }

    fn to_offset(&self) -> (r: i64) {
        self.num_lines
    }
}

/// The starting point of a LOD group: every line group from `index` on, up
/// to the next `LodGr`, has sizes admitted by level `lod`.
#[derive(Debug, Clone, Copy, PartialEq, Eq, Structural)]
pub struct LodGr {
    pub index: Index,
    pub lod: u8,
}

/// Two to the given power.
pub open spec fn pow2(e: nat) -> nat
    decreases e,
{
    if e == 0 {
        1
    } else {
        2 * pow2((e - 1) as nat)
    }
}

/// Powers of two grow with the exponent.
pub proof fn lemma_pow2_mono(a: nat, b: nat)
    requires
        a <= b,
    ensures
        pow2(a) <= pow2(b),
        pow2(a) >= 1,
    decreases b,
{
    if a < b {
        lemma_pow2_mono(a, (b - 1) as nat);
    } else if a > 0 {
        lemma_pow2_mono((a - 1) as nat, (a - 1) as nat);
    }
}

/// The largest power of two below the signed 64-bit limit.
pub proof fn lemma_pow2_62()
    ensures
        pow2(62) == 0x4000_0000_0000_0000,
        pow2(63) == 0x8000_0000_0000_0000,
{
    reveal_with_fuel(pow2, 64);
}

/// Compute a power of two that fits the size type.
fn pow2_exec(e: u8) -> (r: i64)
    requires
        e <= 62,
    ensures
        r as int == pow2(e as nat),
        r >= 1,
{
    proof {
        lemma_pow2_62();
    }
    let mut i: u8 = 0;
    let mut r: i64 = 1;
    while i < e
        invariant
            i <= e <= 62,
            r as int == pow2(i as nat),
            r >= 1,
        decreases e - i,
    {
        proof {
            lemma_pow2_mono(i as nat + 1, 62);
            lemma_pow2_62();
        }
        r = r * 2;
        i = i + 1;
    }
    r
}

/// The valid line-group size range for a LOD level: from two to the level
/// less one (from one at level zero) up to two to the level, inclusive.
pub fn lod_size_range(lod: u8) -> (r: (Index, Index))
    requires
        lod <= 62,
    ensures
        lod == 0 ==> r.0 as int == 1,
        lod > 0 ==> r.0 as int == pow2((lod - 1) as nat),
        r.1 as int == pow2(lod as nat),
        1 <= r.0 <= r.1,
{
    proof {
        if lod > 0 {
            lemma_pow2_mono((lod - 1) as nat, lod as nat);
        }
    }
    if lod == 0 {
        (1, 1)
    } else {
        (pow2_exec(lod - 1), pow2_exec(lod))
    }
}

/// The minimum LOD level whose size range admits the given line-group size:
/// the smallest level whose upper size bound reaches `size`.
pub fn min_lod_for_size(size: Index) -> (r: u8)
    requires
        1 <= size,
    ensures
        size as int <= pow2(r as nat),
        r > 0 ==> size as int > pow2((r - 1) as nat),
        r <= 63,
{
    let mut lod: u8 = 0;
    let mut pow: i128 = 1;
    proof {
        lemma_pow2_62();
    }
    while pow < size as i128
        invariant
            1 <= size,
            lod <= 63,
            pow as int == pow2(lod as nat),
            lod > 0 ==> size as int > pow2((lod - 1) as nat),
            pow2(63) == 0x8000_0000_0000_0000,
        decreases 64 - lod,
    {
        proof {
            lemma_pow2_mono(lod as nat, 63);
            if lod == 63 {
                assert(pow as int == pow2(63));
                assert(false);
            }
        }
        pow = pow * 2;
        lod = lod + 1;
    }
    lod
}

/// How many lines outside a viewport the levels up to `lod` cover: the
/// viewport scale, doubled once per level past the first.
pub open spec fn lod_coverage_spec(lod: u8, scale: int) -> int {
    if lod > 0 {
        scale * pow2((lod - 1) as nat)
    } else {
        0
    }
}

/// Compute the coverage of a LOD level for a viewport scale.
pub fn lod_coverage(lod: u8, scale: Index) -> (r: Index)
    requires
        scale >= 0,
        lod_coverage_spec(lod, scale as int) <= i64::MAX,
    ensures
        r as int == lod_coverage_spec(lod, scale as int),
{
    if lod == 0 {
        return 0;
    }
    let mut i: u8 = 0;
    let mut r: i64 = scale;
    proof {
        assert(pow2(0) == 1);
    }
    while i + 1 < lod
        invariant
            scale >= 0,
            1 <= lod,
            i <= lod - 1,
            r as int == scale * pow2(i as nat),
            lod_coverage_spec(lod, scale as int) <= i64::MAX,
        decreases lod - i,
    {
        proof {
            lemma_pow2_mono(i as nat + 1, (lod - 1) as nat);
            assert(scale * pow2(i as nat + 1) <= scale * pow2((lod - 1) as nat))
                by (nonlinear_arith)
                requires
                    scale >= 0,
                    pow2(i as nat + 1) <= pow2((lod - 1) as nat),
            ;
            assert(scale * pow2(i as nat + 1) == (scale * pow2(i as nat)) * 2)
                by (nonlinear_arith);
            assert(scale * pow2(i as nat) >= 0) by (nonlinear_arith)
                requires
                    scale >= 0,
                    pow2(i as nat) >= 1,
            ;
            lemma_pow2_mono(0, i as nat);
        }
        r = r * 2;
        i = i + 1;
    }
    r
}

/// The smallest LOD level whose coverage reaches `i` lines, for the given
/// viewport scale.
pub fn inverse_lod_coverage(i: Index, scale: Index) -> (r: u8)
    requires
        i >= 0,
        scale >= 1,
    ensures
        lod_coverage_spec(r, scale as int) >= i,
        r > 0 ==> lod_coverage_spec((r - 1) as u8, scale as int) < i,
        r <= 64,
{
    if i == 0 {
        return 0;
    }
    let mut lod: u8 = 1;
    let mut cov: i128 = scale as i128;
    proof {
        lemma_pow2_62();
        assert(scale as int * pow2(0) == scale as int) by (nonlinear_arith)
            requires
                pow2(0) == 1,
        ;
    }
    while cov < i as i128
        invariant
            i >= 1,
            scale >= 1,
            1 <= lod <= 64,
            cov as int == scale as int * pow2((lod - 1) as nat),
            lod > 1 ==> lod_coverage_spec((lod - 1) as u8, scale as int) < i,
            lod == 1 ==> true,
            pow2(63) == 0x8000_0000_0000_0000,
        decreases 65 - lod,
    {
        proof {
            if lod == 64 {
                lemma_pow2_mono(63, 63);
                assert(scale as int * pow2(63) >= pow2(63)) by (nonlinear_arith)
                    requires
                        scale >= 1,
                        pow2(63) >= 1,
                ;
                assert(false);
            }
            lemma_pow2_mono((lod - 1) as nat, 63);
            assert(scale as int * pow2((lod - 1) as nat + 1) == (scale as int * pow2(
                (lod - 1) as nat,
            )) * 2) by (nonlinear_arith);
            assert(scale as int * pow2((lod - 1) as nat) <= scale as int * pow2(63))
                by (nonlinear_arith)
                requires
                    scale >= 0,
                    pow2((lod - 1) as nat) <= pow2(63),
            ;
            assert(scale as int * pow2((lod - 1) as nat) >= 0) by (nonlinear_arith)
                requires
                    scale >= 0,
                    pow2((lod - 1) as nat) >= 1,
            ;
            assert(scale as int <= 0x8000_0000_0000_0000int);
            assert(scale as int * pow2(63) <= 0x8000_0000_0000_0000int * 0x8000_0000_0000_0000int)
                by (nonlinear_arith)
                requires
                    0 <= scale as int <= 0x8000_0000_0000_0000int,
                    0 <= pow2(63) <= 0x8000_0000_0000_0000int,
            ;
        }
        cov = cov * 2;
        lod = lod + 1;
    }
    lod
}

/// Divide a size into two parts in proportion to `ratio`, keeping the total
/// unchanged: the first part gets the rounded share of the first weight.
pub fn divide_size(size: Size, ratio: [Size; 2]) -> (r: [Size; 2])
    requires
        size >= 0,
        ratio[0] >= 0,
        ratio[1] >= 0,
        ratio[0] + ratio[1] >= 1,
    ensures
        r[0] as int == (2 * size * ratio[0] + ratio[0] + ratio[1]) / (2 * (ratio[0] + ratio[1])),
        r[0] + r[1] == size,
        0 <= r[0] <= size,
{
    let t = ratio[0] as i128 + ratio[1] as i128;
    proof {
        let m = 0x7fff_ffff_ffff_ffffint;
        assert(size as int * ratio[0] as int <= m * m) by (nonlinear_arith)
            requires
                0 <= size as int <= m,
                0 <= ratio[0] as int <= m,
        ;
        assert(size as int * ratio[0] as int >= 0) by (nonlinear_arith)
            requires
                size as int >= 0,
                ratio[0] as int >= 0,
        ;
    }
    let prod = size as i128 * ratio[0] as i128;
    let num = prod * 2 + t;
    proof {
        // the share never exceeds the whole: the numerator stays below the
        // divisor times one more than the size
        vstd::arithmetic::div_mod::lemma_div_pos_is_pos(num as int, 2 * t as int);
        assert((prod as int * 2 + t as int) < (2 * t as int) * (size as int + 1)) by (nonlinear_arith)
            requires
                prod as int == size as int * ratio[0] as int,
                ratio[0] as int <= t as int,
                t as int >= 1,
                size as int >= 0,
        ;
        vstd::arithmetic::div_mod::lemma_multiply_divide_lt(
            num as int,
            2 * t as int,
            size as int + 1,
        );
    }
    let part = num / (2 * t);
    proof {
        assert(prod as int * 2 == 2 * size * ratio[0]) by (nonlinear_arith)
            requires
                prod as int == size as int * ratio[0] as int,
        ;
    }
    let part64 = part as i64;
    [part64, size - part64]
}

/// Remove the elements in positions `start..end` from a vector, keeping the
/// order of the rest.
pub fn vec_remove_range<T>(v: &mut Vec<T>, start: usize, end: usize)
    requires
        start <= end <= old(v)@.len(),
    ensures
        final(v)@ == old(v)@.subrange(0, start as int) + old(v)@.subrange(
            end as int,
            old(v)@.len() as int,
        ),
{
    let ghost v0 = v@;
    proof {
        assert(v@ =~= v0.subrange(0, end as int) + v0.subrange(end as int, v0.len() as int));
    }
    let mut n = end;
    while n > start
        invariant
            start <= n <= end <= v0.len(),
            v@ == v0.subrange(0, n as int) + v0.subrange(end as int, v0.len() as int),
        decreases n,
    {
        v.remove(n - 1);
        proof {
            assert(v@ =~= v0.subrange(0, n - 1) + v0.subrange(end as int, v0.len() as int));
        }
        n = n - 1;
    }
    proof {
        assert(v@ =~= v0.subrange(0, start as int) + v0.subrange(end as int, v0.len() as int));
        assert(v0 == old(v)@);
    }
}

} // verus!
