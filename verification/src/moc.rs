//! A MOC is a set of ordered, non-overlapping MOC elements, associated to a maximum depth.

use std::marker::PhantomData;
use std::ops::Range;
use vstd::arithmetic::div_mod::*;
use vstd::arithmetic::mul::*;
use vstd::arithmetic::power2::*;
use vstd::bits::*;
use vstd::prelude::*;

use crate::arith::{
    lemma_aligned_gt, lemma_aligned_le, lemma_block_bounds, lemma_block_change,
    lemma_pow2_multiple, lemma_round_range,
};
use crate::qty::{Frequency, MocQty, Time};
use crate::ranges::{
    all_non_empty, lemma_has_intro, lemma_has_push, merge_op, sorted_by_start, range_has, seq_has, sno, spec_contains_range, spec_range_sum,
    BoolOp, Ranges,
};

verus! {

/// Returns the maximum depth of an item the implementor contains.
pub trait HasMaxDepth {
    fn depth_max(&self) -> u8;
}

/// Marker trait telling that ranges lower bound or cells or indices in the implementor are
/// sorted according to the natural Z-order curve order.
pub trait ZSorted {}

/// Marker trait telling that the implementor contains non-overlapping items.
pub trait NonOverlapping {}

/// Commodity trait containing all MOC properties
pub trait MOCProperties: HasMaxDepth + ZSorted + NonOverlapping {}

/// All bounds of the ranges are multiples of `p`.
pub open spec fn aligned(s: Seq<Range<u64>>, p: int) -> bool {
    forall|k: int| 0 <= k < s.len() ==> (#[trigger] s[k]).start as int % p == 0 && s[k].end as int % p == 0
}

/// Membership is constant on each block `[q * p, q * p + p[`.
pub open spec fn block_closed(s: Seq<Range<u64>>, p: int) -> bool {
    forall|x: int, y: int|
        #![trigger seq_has(s, x), seq_has(s, y)]
        0 <= x && 0 <= y && x / p == y / p ==> (seq_has(s, x) <==> seq_has(s, y))
}

/// All ranges end at or before `m`.
pub open spec fn ends_le(s: Seq<Range<u64>>, m: int) -> bool {
    forall|k: int| 0 <= k < s.len() ==> (#[trigger] s[k]).end <= m
}

/// Length, at the deepest resolution, of a cell of depth `d` of the quantity `Q`.
pub open spec fn cell_len<Q: MocQty<u64>>(d: int) -> int {
    pow2(((Q::MAX_DEPTH - d) * Q::DIM) as nat) as int
}

pub proof fn lemma_aligned_block_closed(s: Seq<Range<u64>>, p: int)
    requires
        p > 0,
        aligned(s, p),
    ensures
        block_closed(s, p),
{
    assert forall|x: int, y: int|
        #![trigger seq_has(s, x), seq_has(s, y)]
        0 <= x && 0 <= y && x / p == y / p implies (seq_has(s, x) <==> seq_has(s, y)) by {
        if seq_has(s, x) {
            let k = choose|k: int| 0 <= k < s.len() && #[trigger] range_has(s[k], x);
            lemma_aligned_le(s[k].start as int, x, p);
            lemma_aligned_gt(s[k].end as int, x, p);
            lemma_block_bounds(y, p);
            lemma_has_intro(s, k, y);
        }
        if seq_has(s, y) {
            let k = choose|k: int| 0 <= k < s.len() && #[trigger] range_has(s[k], y);
            lemma_aligned_le(s[k].start as int, y, p);
            lemma_aligned_gt(s[k].end as int, y, p);
            lemma_block_bounds(x, p);
            lemma_has_intro(s, k, x);
        }
    }
}

pub proof fn lemma_block_closed_aligned(s: Seq<Range<u64>>, p: int)
    requires
        p > 0,
        sno(s),
        block_closed(s, p),
    ensures
        aligned(s, p),
{
    assert forall|k: int| 0 <= k < s.len() implies (#[trigger] s[k]).start as int % p == 0 && s[k].end as int % p == 0 by {
        let a = s[k].start as int;
        let b = s[k].end as int;
        lemma_has_intro(s, k, a);
        lemma_has_intro(s, k, b - 1);
        if a > 0 {
            if seq_has(s, a - 1) {
                let j = choose|j: int| 0 <= j < s.len() && #[trigger] range_has(s[j], a - 1);
                if j < k {
                    assert(s[j].end < s[k].start);
                } else if j > k {
                    assert(s[k].end < s[j].start);
                }
            }
            if (a - 1) / p == a / p {
                assert(seq_has(s, a - 1) <==> seq_has(s, a));
            }
            lemma_block_change(a, p);
        } else {
            lemma_mod_self_0(p);
            vstd::arithmetic::div_mod::lemma_small_mod(0, p as nat);
        }
        if seq_has(s, b) {
            let j = choose|j: int| 0 <= j < s.len() && #[trigger] range_has(s[j], b);
            if j < k {
                assert(s[j].end < s[k].start);
            } else if j > k {
                assert(s[k].end < s[j].start);
            }
        }
        if (b - 1) / p == b / p {
            assert(seq_has(s, b - 1) <==> seq_has(s, b));
        }
        lemma_block_change(b, p);
    }
}

/// Ranges ending at or before `m` hold no value at or above `m`, and conversely.
pub proof fn lemma_ends_le(s: Seq<Range<u64>>, m: int)
    requires
        all_non_empty(s),
    ensures
        ends_le(s, m) <==> (forall|x: int| x >= m ==> !#[trigger] seq_has(s, x)),
{
    if ends_le(s, m) {
        assert forall|x: int| x >= m implies !#[trigger] seq_has(s, x) by {
            if seq_has(s, x) {
                let k = choose|k: int| 0 <= k < s.len() && #[trigger] range_has(s[k], x);
            }
        }
    }
    if forall|x: int| x >= m ==> !#[trigger] seq_has(s, x) {
        assert forall|k: int| 0 <= k < s.len() implies (#[trigger] s[k]).end <= m by {
            lemma_has_intro(s, k, s[k].end - 1);
        }
    }
}

/// The cell length at a depth divides the cell length at a lower depth and the quantity
/// upper bound.
pub proof fn lemma_cell_len<Q: MocQty<u64>>(d1: int, d2: int)
    requires
        0 <= d1 <= d2 <= Q::MAX_DEPTH,
    ensures
        cell_len::<Q>(d2) > 0,
        cell_len::<Q>(d1) % cell_len::<Q>(d2) == 0,
        Q::spec_n_cells_max() % cell_len::<Q>(d2) == 0,
        cell_len::<Q>(d2) <= cell_len::<Q>(d1),
{
    Q::lemma_qty();
    let e1 = ((Q::MAX_DEPTH - d1) * Q::DIM) as nat;
    let e2 = ((Q::MAX_DEPTH - d2) * Q::DIM) as nat;
    assert(e2 <= e1) by (nonlinear_arith)
        requires
            e1 == (Q::MAX_DEPTH - d1) * Q::DIM,
            e2 == (Q::MAX_DEPTH - d2) * Q::DIM,
            d1 <= d2,
            Q::DIM >= 1,
    ;
    assert(e1 <= Q::MAX_SHIFT) by (nonlinear_arith)
        requires
            e1 == (Q::MAX_DEPTH - d1) * Q::DIM,
            0 <= d1,
            Q::MAX_SHIFT == Q::DIM * Q::MAX_DEPTH,
            Q::DIM >= 1,
    ;
    lemma_pow2_pos(e2);
    lemma_pow2_pos(e1);
    lemma_mod_self_0(pow2(e1) as int);
    lemma_pow2_multiple(pow2(e1) as int, e2, e1);
    lemma_mod_multiples_basic(Q::N_D0_CELLS as int, pow2(Q::MAX_SHIFT as nat) as int);
    lemma_mul_is_commutative(Q::N_D0_CELLS as int, pow2(Q::MAX_SHIFT as nat) as int);
    lemma_pow2_multiple(Q::spec_n_cells_max(), e2, Q::MAX_SHIFT as nat);
    if e2 < e1 {
        lemma_pow2_strictly_increases(e2, e1);
    }
}

/// A value aligned on the cells of a depth is aligned on the cells of any deeper depth.
pub proof fn lemma_aligned_deeper<Q: MocQty<u64>>(x: int, d1: int, d2: int)
    requires
        0 <= d1 <= d2 <= Q::MAX_DEPTH,
        x % cell_len::<Q>(d1) == 0,
    ensures
        x % cell_len::<Q>(d2) == 0,
{
    Q::lemma_qty();
    let e1 = ((Q::MAX_DEPTH - d1) * Q::DIM) as nat;
    let e2 = ((Q::MAX_DEPTH - d2) * Q::DIM) as nat;
    assert(e2 <= e1) by (nonlinear_arith)
        requires
            e1 == (Q::MAX_DEPTH - d1) * Q::DIM,
            e2 == (Q::MAX_DEPTH - d2) * Q::DIM,
            d1 <= d2,
            Q::DIM >= 1,
    ;
    lemma_pow2_multiple(x, e2, e1);
}

/// Ranges aligned on the cells of a depth are aligned on the cells of any deeper depth.
pub proof fn lemma_seq_aligned_deeper<Q: MocQty<u64>>(s: Seq<Range<u64>>, d1: int, d2: int)
    requires
        0 <= d1 <= d2 <= Q::MAX_DEPTH,
        aligned(s, cell_len::<Q>(d1)),
    ensures
        aligned(s, cell_len::<Q>(d2)),
{
    assert forall|k: int| 0 <= k < s.len() implies (#[trigger] s[k]).start as int % cell_len::<Q>(d2) == 0
        && s[k].end as int % cell_len::<Q>(d2) == 0 by {
        lemma_aligned_deeper::<Q>(s[k].start as int, d1, d2);
        lemma_aligned_deeper::<Q>(s[k].end as int, d1, d2);
    }
}

/// Canonical ranges, block-closed for `p` and holding no value at or above `m`, are aligned on
/// `p` and end at or before `m`.
pub proof fn lemma_wf_from_sets(s: Seq<Range<u64>>, p: int, m: int)
    requires
        p > 0,
        sno(s),
        block_closed(s, p),
        forall|x: int| x >= m ==> !#[trigger] seq_has(s, x),
    ensures
        aligned(s, p),
        ends_le(s, m),
{
    lemma_block_closed_aligned(s, p);
    lemma_ends_le(s, m);
}

/// A MOC made of (ordered and non-overlaping) ranges.
#[derive(Debug, PartialEq)]
pub struct RangeMOC<T, Q> {
    depth_max: u8,
    ranges: Ranges<T>,
    qty: PhantomData<Q>,
}

impl<Q: MocQty<u64>> RangeMOC<u64, Q> {
    /// Depth of the MOC.
    pub closed spec fn depth(&self) -> u8 {
        self.depth_max
    }

    /// Ranges of the MOC, at the deepest resolution of the quantity.
    pub closed spec fn rs(&self) -> Seq<Range<u64>> {
        self.ranges.0@
    }

    /// Well-formedness: canonical ranges below the quantity upper bound, whose bounds are
    /// aligned on the cells of the MOC depth.
    pub open spec fn wf(&self) -> bool {
        &&& self.depth() <= Q::MAX_DEPTH
        &&& sno(self.rs())
        &&& ends_le(self.rs(), Q::spec_n_cells_max())
        &&& aligned(self.rs(), cell_len::<Q>(self.depth() as int))
    }

    /// `x` is covered by the MOC.
    pub open spec fn has(&self, x: int) -> bool {
        seq_has(self.rs(), x)
    }

    pub fn new(depth_max: u8, ranges: Ranges<u64>) -> (r: Self)
        requires
            depth_max <= Q::MAX_DEPTH,
            ranges.is_sno(),
            ends_le(ranges.0@, Q::spec_n_cells_max()),
            aligned(ranges.0@, cell_len::<Q>(depth_max as int)),
        ensures
            r.wf(),
            r.depth() == depth_max,
            r.rs() == ranges.0@,
    {
        RangeMOC { depth_max, ranges, qty: PhantomData }
    }

    pub fn new_empty(depth_max: u8) -> (r: Self)
        requires
            depth_max <= Q::MAX_DEPTH,
        ensures
            r.wf(),
            r.depth() == depth_max,
            r.rs().len() == 0,
    {
        RangeMOC { depth_max, ranges: Ranges(Vec::new()), qty: PhantomData }
    }

    pub fn new_full_domain(depth_max: u8) -> (r: Self)
        requires
            depth_max <= Q::MAX_DEPTH,
        ensures
            r.wf(),
            r.depth() == depth_max,
            r.rs() == seq![Range { start: 0u64, end: Q::spec_n_cells_max() as u64 }],
    {
        let end = Q::n_cells_max();
        proof {
            Q::lemma_qty();
            lemma_cell_len::<Q>(depth_max as int, depth_max as int);
            lemma_mod_self_0(cell_len::<Q>(depth_max as int));
            vstd::arithmetic::div_mod::lemma_small_mod(0, cell_len::<Q>(depth_max as int) as nat);
        }
        let mut v: Vec<Range<u64>> = Vec::new();
        v.push(Range { start: 0, end });
        RangeMOC { depth_max, ranges: Ranges(v), qty: PhantomData }
    }

    pub fn depth_max(&self) -> (r: u8)
        ensures
            r == self.depth(),
    {
        self.depth_max
    }

    /// Returns the number of ranges the MOC contains
    pub fn len(&self) -> (r: usize)
        ensures
            r == self.rs().len(),
    {
        self.ranges.0.len()
    }

    pub fn is_empty(&self) -> (r: bool)
        ensures
            r == (self.rs().len() == 0),
    {
        self.len() == 0
    }

    /// Lower bound of the first range, if any.
    pub fn first_index(&self) -> (r: Option<u64>)
        ensures
            self.rs().len() == 0 ==> r.is_none(),
            self.rs().len() > 0 ==> r == Some(self.rs()[0].start),
    {
        if self.ranges.0.len() == 0 {
            None
        } else {
            Some(self.ranges.0[0].start)
        }
    }

    /// Upper bound (exclusive) of the last range, if any.
    pub fn last_index(&self) -> (r: Option<u64>)
        ensures
            self.rs().len() == 0 ==> r.is_none(),
            self.rs().len() > 0 ==> r == Some(self.rs().last().end),
    {
        let n = self.ranges.0.len();
        if n == 0 {
            None
        } else {
            Some(self.ranges.0[n - 1].end)
        }
    }

    pub fn moc_ranges(&self) -> (r: &Ranges<u64>)
        ensures
            r.0@ == self.rs(),
    {
        &self.ranges
    }

    pub fn into_moc_ranges(self) -> (r: Ranges<u64>)
        ensures
            r.0@ == self.rs(),
    {
        self.ranges
    }

    /// Sum of the lengths of the ranges.
    pub fn range_sum(&self) -> (r: u64)
        requires
            self.wf(),
        ensures
            r == spec_range_sum(self.rs()),
    {
        self.ranges.range_sum()
    }

    /// Number of cells of depth `depth_max` covered by the MOC.
    pub fn n_depth_max_cells(&self) -> (r: u64)
        requires
            self.wf(),
        ensures
            r == spec_range_sum(self.rs()) / cell_len::<Q>(self.depth() as int),
    {
        let range_sum = self.range_sum();
        let shift = Q::shift_from_depth_max(self.depth_max);
        proof {
            Q::lemma_qty();
            assert((Q::MAX_DEPTH - self.depth()) * Q::DIM <= Q::MAX_SHIFT) by (nonlinear_arith)
                requires
                    self.depth() <= Q::MAX_DEPTH,
                    Q::MAX_SHIFT == Q::DIM * Q::MAX_DEPTH,
                    Q::DIM >= 1,
            ;
            lemma_u64_shr_is_div(range_sum, shift as u64);
        }
        range_sum >> (shift as u64)
    }

    /// The value must be at the quantity maximum depth.
    pub fn contains_val(&self, x: &u64) -> (r: bool)
        requires
            self.wf(),
        ensures
            r == self.has(*x as int),
    {
        self.ranges.contains_val(x)
    }

    /// The value must be at the MOC depth (it is shifted, truncating, to the deepest resolution).
    pub fn contains_depth_max_val(&self, x: &u64) -> (r: bool)
        requires
            self.wf(),
        ensures
            r == self.has((*x << (((Q::MAX_DEPTH - self.depth()) * Q::DIM) as u64)) as int),
            *x * cell_len::<Q>(self.depth() as int) <= u64::MAX ==> r == self.has(
                *x * cell_len::<Q>(self.depth() as int),
            ),
    {
        let shift = Q::shift_from_depth_max(self.depth_max);
        proof {
            Q::lemma_qty();
            assert((Q::MAX_DEPTH - self.depth()) * Q::DIM <= Q::MAX_SHIFT) by (nonlinear_arith)
                requires
                    self.depth() <= Q::MAX_DEPTH,
                    Q::MAX_SHIFT == Q::DIM * Q::MAX_DEPTH,
                    Q::DIM >= 1,
            ;
            if *x * cell_len::<Q>(self.depth() as int) <= u64::MAX {
                lemma_u64_shl_is_mul(*x, shift as u64);
            }
        }
        let v = *x << (shift as u64);
        self.contains_val(&v)
    }

    /// Tells whether the cell `idx` of depth `depth` is entirely in a range of the MOC.
    pub fn contains_cell(&self, depth: u8, idx: u64) -> (r: bool)
        requires
            self.wf(),
            depth <= Q::MAX_DEPTH,
            (idx + 1) * cell_len::<Q>(depth as int) <= u64::MAX,
        ensures
            r == spec_contains_range(
                self.rs(),
                Range {
                    start: (idx * cell_len::<Q>(depth as int)) as u64,
                    end: ((idx + 1) * cell_len::<Q>(depth as int)) as u64,
                },
            ),
    {
        let shift = Q::shift_from_depth_max(depth);
        proof {
            Q::lemma_qty();
            assert((Q::MAX_DEPTH - depth) * Q::DIM <= Q::MAX_SHIFT) by (nonlinear_arith)
                requires
                    depth <= Q::MAX_DEPTH,
                    Q::MAX_SHIFT == Q::DIM * Q::MAX_DEPTH,
                    Q::DIM >= 1,
            ;
            lemma_pow2_pos(((Q::MAX_DEPTH - depth) * Q::DIM) as nat);
            lemma_mul_inequality(1, cell_len::<Q>(depth as int), idx + 1);
            lemma_mul_is_commutative(cell_len::<Q>(depth as int), idx + 1);
            lemma_mul_inequality(idx as int, idx + 1, cell_len::<Q>(depth as int));
            lemma_u64_shl_is_mul(idx, shift as u64);
            lemma_u64_shl_is_mul((idx + 1) as u64, shift as u64);
        }
        let range = Range { start: idx << (shift as u64), end: (idx + 1) << (shift as u64) };
        self.ranges.contains_range(&range)
    }

    /// Facts shared by the binary operations: both operands are aligned on the cells of the
    /// larger depth, hence block-closed.
    proof fn lemma_binary_operands(&self, rhs: &Self, d: u8)
        requires
            self.wf(),
            rhs.wf(),
            d == if self.depth() >= rhs.depth() { self.depth() } else { rhs.depth() },
        ensures
            cell_len::<Q>(d as int) > 0,
            block_closed(self.rs(), cell_len::<Q>(d as int)),
            block_closed(rhs.rs(), cell_len::<Q>(d as int)),
            Q::spec_n_cells_max() % cell_len::<Q>(d as int) == 0,
    {
        let p = cell_len::<Q>(d as int);
        Q::lemma_qty();
        lemma_cell_len::<Q>(self.depth() as int, d as int);
        lemma_cell_len::<Q>(rhs.depth() as int, d as int);
        let e = ((Q::MAX_DEPTH - d) * Q::DIM) as nat;
        let e1 = ((Q::MAX_DEPTH - self.depth()) * Q::DIM) as nat;
        let e2 = ((Q::MAX_DEPTH - rhs.depth()) * Q::DIM) as nat;
        assert(e <= e1 && e <= e2) by (nonlinear_arith)
            requires
                e == (Q::MAX_DEPTH - d) * Q::DIM,
                e1 == (Q::MAX_DEPTH - self.depth()) * Q::DIM,
                e2 == (Q::MAX_DEPTH - rhs.depth()) * Q::DIM,
                d >= self.depth(),
                d >= rhs.depth(),
                Q::DIM >= 1,
        ;
        let s = self.rs();
        let t = rhs.rs();
        assert(aligned(s, p)) by {
            assert forall|k: int| 0 <= k < s.len() implies (#[trigger] s[k]).start as int % p == 0 && s[k].end as int % p == 0 by {
                lemma_pow2_multiple(s[k].start as int, e, e1);
                lemma_pow2_multiple(s[k].end as int, e, e1);
            }
        }
        assert(aligned(t, p)) by {
            assert forall|k: int| 0 <= k < t.len() implies (#[trigger] t[k]).start as int % p == 0 && t[k].end as int % p == 0 by {
                lemma_pow2_multiple(t[k].start as int, e, e2);
                lemma_pow2_multiple(t[k].end as int, e, e2);
            }
        }
        lemma_aligned_block_closed(s, p);
        lemma_aligned_block_closed(t, p);
    }

    pub(crate) fn binary_op(&self, rhs: &Self, op: BoolOp) -> (r: Self)
        requires
            self.wf(),
            rhs.wf(),
        ensures
            r.wf(),
            r.depth() == if self.depth() >= rhs.depth() { self.depth() } else { rhs.depth() },
            forall|x: int| #[trigger] r.has(x) <==> op.spec_apply(self.has(x), rhs.has(x)),
    {
        let depth_max = if self.depth_max >= rhs.depth_max { self.depth_max } else { rhs.depth_max };
        let v = merge_op(&self.ranges.0, &rhs.ranges.0, op);
        proof {
            let p = cell_len::<Q>(depth_max as int);
            self.lemma_binary_operands(rhs, depth_max);
            lemma_ends_le(self.rs(), Q::spec_n_cells_max());
            lemma_ends_le(rhs.rs(), Q::spec_n_cells_max());
            assert forall|x: int, y: int|
                #![trigger seq_has(v@, x), seq_has(v@, y)]
                0 <= x && 0 <= y && x / p == y / p implies (seq_has(v@, x) <==> seq_has(v@, y)) by {
                assert(seq_has(self.rs(), x) <==> seq_has(self.rs(), y));
                assert(seq_has(rhs.rs(), x) <==> seq_has(rhs.rs(), y));
            }
            lemma_wf_from_sets(v@, p, Q::spec_n_cells_max());
        }
        RangeMOC { depth_max, ranges: Ranges(v), qty: PhantomData }
    }

    /// Intersection of the two MOCs.
    pub fn and(&self, rhs: &Self) -> (r: Self)
        requires
            self.wf(),
            rhs.wf(),
        ensures
            r.wf(),
            r.depth() == if self.depth() >= rhs.depth() { self.depth() } else { rhs.depth() },
            forall|x: int| #[trigger] r.has(x) <==> (self.has(x) && rhs.has(x)),
    {
        self.binary_op(rhs, BoolOp::And)
    }

    /// Same as [`RangeMOC::and`].
    pub fn intersection(&self, rhs: &Self) -> (r: Self)
        requires
            self.wf(),
            rhs.wf(),
        ensures
            r.wf(),
            r.depth() == if self.depth() >= rhs.depth() { self.depth() } else { rhs.depth() },
            forall|x: int| #[trigger] r.has(x) <==> (self.has(x) && rhs.has(x)),
    {
        self.and(rhs)
    }

    /// Union of the two MOCs.
    pub fn or(&self, rhs: &Self) -> (r: Self)
        requires
            self.wf(),
            rhs.wf(),
        ensures
            r.wf(),
            r.depth() == if self.depth() >= rhs.depth() { self.depth() } else { rhs.depth() },
            forall|x: int| #[trigger] r.has(x) <==> (self.has(x) || rhs.has(x)),
    {
        self.binary_op(rhs, BoolOp::Or)
    }

    /// Same as [`RangeMOC::or`].
    pub fn union(&self, rhs: &Self) -> (r: Self)
        requires
            self.wf(),
            rhs.wf(),
        ensures
            r.wf(),
            r.depth() == if self.depth() >= rhs.depth() { self.depth() } else { rhs.depth() },
            forall|x: int| #[trigger] r.has(x) <==> (self.has(x) || rhs.has(x)),
    {
        self.or(rhs)
    }

    /// Symmetric difference of the two MOCs.
    pub fn xor(&self, rhs: &Self) -> (r: Self)
        requires
            self.wf(),
            rhs.wf(),
        ensures
            r.wf(),
            r.depth() == if self.depth() >= rhs.depth() { self.depth() } else { rhs.depth() },
            forall|x: int| #[trigger] r.has(x) <==> (self.has(x) != rhs.has(x)),
    {
        self.binary_op(rhs, BoolOp::Xor)
    }

    /// Values of `self` not in `rhs`.
    pub fn minus(&self, rhs: &Self) -> (r: Self)
        requires
            self.wf(),
            rhs.wf(),
        ensures
            r.wf(),
            r.depth() == if self.depth() >= rhs.depth() { self.depth() } else { rhs.depth() },
            forall|x: int| #[trigger] r.has(x) <==> (self.has(x) && !rhs.has(x)),
    {
        self.binary_op(rhs, BoolOp::Minus)
    }

    /// Complement of the MOC in the domain of the quantity.
    pub fn complement(&self) -> (r: Self)
        requires
            self.wf(),
        ensures
            r.wf(),
            r.depth() == self.depth(),
            forall|x: int| #[trigger] r.has(x) <==> (0 <= x < Q::spec_n_cells_max() && !self.has(x)),
    {
        let ub = Q::n_cells_max();
        proof {
            Q::lemma_qty();
        }
        let ranges = self.ranges.complement_with_upper_bound(ub);
        proof {
            let p = cell_len::<Q>(self.depth() as int);
            let m = Q::spec_n_cells_max();
            lemma_cell_len::<Q>(self.depth() as int, self.depth() as int);
            lemma_aligned_block_closed(self.rs(), p);
            let v = ranges.0@;
            assert forall|x: int, y: int|
                #![trigger seq_has(v, x), seq_has(v, y)]
                0 <= x && 0 <= y && x / p == y / p implies (seq_has(v, x) <==> seq_has(v, y)) by {
                assert(seq_has(self.rs(), x) <==> seq_has(self.rs(), y));
                assert(ranges.has(x) == (0 <= x < m && !seq_has(self.rs(), x)));
                assert(ranges.has(y) == (0 <= y < m && !seq_has(self.rs(), y)));
                if x < m && y >= m {
                    lemma_aligned_gt(m, x, p);
                    lemma_block_bounds(y, p);
                }
                if y < m && x >= m {
                    lemma_aligned_gt(m, y, p);
                    lemma_block_bounds(x, p);
                }
            }
            assert forall|x: int| x >= m implies !#[trigger] seq_has(v, x) by {
                assert(ranges.has(x) == (0 <= x < m && !seq_has(self.rs(), x)));
            }
            lemma_wf_from_sets(v, p, m);
            assert forall|x: int| #[trigger] seq_has(v, x) <==> (0 <= x < m && !seq_has(self.rs(), x)) by {
                assert(ranges.has(x) == (0 <= x < m && !seq_has(self.rs(), x)));
            }
        }
        RangeMOC { depth_max: self.depth_max, ranges, qty: PhantomData }
    }

    /// Same as [`RangeMOC::complement`].
    pub fn not(&self) -> (r: Self)
        requires
            self.wf(),
        ensures
            r.wf(),
            r.depth() == self.depth(),
            forall|x: int| #[trigger] r.has(x) <==> (0 <= x < Q::spec_n_cells_max() && !self.has(x)),
    {
        self.complement()
    }
}

/// The range `r` rounded outwards to whole blocks of length `p`.
pub open spec fn rounded(r: Range<u64>, p: int) -> Range<u64> {
    Range { start: (((r.start as int) / p) * p) as u64, end: (((r.end - 1) / p) * p + p) as u64 }
}

/// `x` shares a block of length `p` with a value covered by `s`.
pub open spec fn degraded_has(s: Seq<Range<u64>>, p: int, x: int) -> bool {
    0 <= x && exists|y: int| #[trigger] seq_has(s, y) && y / p == x / p
}

/// The non-empty range `[a, b[` rounded outwards to whole blocks of `2^shift` values.
pub(crate) fn round_range(a: u64, b: u64, shift: u64, m: u64) -> (r: Range<u64>)
    requires
        a < b,
        b <= m,
        shift < 63,
        m < pow2(63),
        m as int % (pow2(shift as nat) as int) == 0,
    ensures
        r == rounded(Range { start: a, end: b }, pow2(shift as nat) as int),
        r.start as int == (a as int / pow2(shift as nat) as int) * pow2(shift as nat) as int,
        r.end as int == ((b - 1) / pow2(shift as nat) as int) * pow2(shift as nat) as int + pow2(shift as nat) as int,
        r.start < r.end <= m,
        r.start as int % pow2(shift as nat) as int == 0,
        r.end as int % pow2(shift as nat) as int == 0,
{
    let ghost p = pow2(shift as nat) as int;
    proof {
        lemma_pow2_pos(shift as nat);
        lemma_u64_pow2_no_overflow(shift as nat);
    }
    let qa = a >> shift;
    let qb = (b - 1) >> shift;
    proof {
        lemma_u64_shr_is_div(a, shift);
        lemma_u64_shr_is_div((b - 1) as u64, shift);
        lemma_block_bounds(a as int, p);
        lemma_block_bounds(b - 1, p);
        lemma_aligned_gt(m as int, b - 1, p);
        lemma_mul_inequality(qb as int, (qb + 1) as int, p);
        lemma_mul_is_distributive_add_other_way(p, qb as int, 1);
        lemma_mul_is_commutative(p, qb as int);
        lemma_mul_is_commutative(p, qb + 1);
        lemma_mul_is_commutative(p, qa as int);
        lemma_u64_shl_is_mul(qa, shift);
        lemma_u64_shl_is_mul((qb + 1) as u64, shift);
        lemma_mod_multiples_basic(qa as int, p);
        lemma_mod_multiples_basic(qb + 1, p);
    }
    let start = qa << shift;
    let end = (qb + 1) << shift;
    Range { start, end }
}

/// Rounds each (non-empty) range outwards to whole blocks of `2^shift` values.
fn degrade_ranges(v: &Vec<Range<u64>>, shift: u64, m: u64) -> (r: Vec<Range<u64>>)
    requires
        all_non_empty(v@),
        shift < 63,
        m < pow2(63),
        m as int % (pow2(shift as nat) as int) == 0,
        ends_le(v@, m as int),
    ensures
        r@.len() == v@.len(),
        forall|k: int| 0 <= k < v@.len() ==> #[trigger] r@[k] == rounded(v@[k], pow2(shift as nat) as int),
        all_non_empty(r@),
        ends_le(r@, m as int),
        aligned(r@, pow2(shift as nat) as int),
        forall|x: int| #[trigger] seq_has(r@, x) <==> degraded_has(v@, pow2(shift as nat) as int, x),
{
    let ghost p = pow2(shift as nat) as int;
    proof {
        lemma_pow2_pos(shift as nat);
        lemma_u64_pow2_no_overflow(shift as nat);
    }
    let n = v.len();
    let mut res: Vec<Range<u64>> = Vec::new();
    let mut k: usize = 0;
    while k < n
        invariant
            n == v@.len(),
            all_non_empty(v@),
            ends_le(v@, m as int),
            shift < 63,
            p == pow2(shift as nat),
            0 < p < u64::MAX,
            m < pow2(63),
            m as int % p == 0,
            k <= n,
            res@.len() == k,
            forall|j: int| 0 <= j < k ==> #[trigger] res@[j] == rounded(v@[j], p),
            forall|j: int|
                0 <= j < k ==> (#[trigger] res@[j]).start as int == (v@[j].start as int / p) * p
                    && res@[j].end as int == ((v@[j].end - 1) / p) * p + p,
            forall|j: int| 0 <= j < k ==> (#[trigger] res@[j]).end <= m && res@[j].start < res@[j].end,
            forall|j: int| 0 <= j < k ==> (#[trigger] res@[j]).start as int % p == 0 && res@[j].end as int % p == 0,
        decreases n - k,
    {
        proof {
            assert(v@[k as int].start < v@[k as int].end <= m);
        }
        let r = round_range(v[k].start, v[k].end, shift, m);
        res.push(r);
        k = k + 1;
    }
    proof {
        assert forall|x: int| #[trigger] seq_has(res@, x) <==> degraded_has(v@, p, x) by {
            if seq_has(res@, x) {
                let j = choose|j: int| 0 <= j < res@.len() && #[trigger] range_has(res@[j], x);
                lemma_round_range(v@[j].start as int, v@[j].end as int, p, x);
                let y = choose|y: int| v@[j].start <= y < v@[j].end && #[trigger] (y / p) == x / p;
                lemma_has_intro(v@, j, y);
            }
            if degraded_has(v@, p, x) {
                let y = choose|y: int| #[trigger] seq_has(v@, y) && y / p == x / p;
                let j = choose|j: int| 0 <= j < v@.len() && #[trigger] range_has(v@[j], y);
                lemma_round_range(v@[j].start as int, v@[j].end as int, p, x);
                lemma_has_intro(res@, j, x);
            }
        }
    }
    res
}

/// Rounding preserves the order of the lower bounds.
proof fn lemma_rounded_sorted(v: Seq<Range<u64>>, r: Seq<Range<u64>>, p: int)
    requires
        p > 0,
        sno(v),
        r.len() == v.len(),
        forall|k: int| 0 <= k < v.len() ==> #[trigger] r[k] == rounded(v[k], p),
    ensures
        sorted_by_start(r),
{
    assert forall|i: int, j: int| 0 <= i < j < r.len() implies (#[trigger] r[i]).start <= (#[trigger] r[j]).start by {
        assert(v[i].end < v[j].start);
        lemma_div_is_ordered(v[i].start as int, v[j].start as int, p);
        lemma_mul_inequality(v[i].start as int / p, v[j].start as int / p, p);
        lemma_block_bounds(v[i].start as int, p);
        lemma_block_bounds(v[j].start as int, p);
    }
}

impl<Q: MocQty<u64>> RangeMOC<u64, Q> {
    /// Degrades the MOC to the given depth: each range is rounded outwards to whole cells of
    /// depth `new_depth` (no effect when `new_depth` is at least the quantity maximum depth).
    pub fn degraded(&self, new_depth: u8) -> (r: Self)
        requires
            self.wf(),
        ensures
            r.wf(),
            r.depth() == if new_depth < self.depth() { new_depth } else { self.depth() },
            forall|x: int| #[trigger] r.has(x) <==> degraded_has(
                self.rs(),
                cell_len::<Q>(if new_depth < Q::MAX_DEPTH { new_depth as int } else { Q::MAX_DEPTH as int }),
                x,
            ),
    {
        let d = if new_depth < Q::MAX_DEPTH { new_depth } else { Q::MAX_DEPTH };
        let depth_max = if new_depth < self.depth_max { new_depth } else { self.depth_max };
        let shift = Q::shift_from_depth_max(d);
        let m = Q::n_cells_max();
        let ghost p = cell_len::<Q>(d as int);
        proof {
            Q::lemma_qty();
            lemma_cell_len::<Q>(d as int, d as int);
            assert((Q::MAX_DEPTH - d) * Q::DIM <= Q::MAX_SHIFT) by (nonlinear_arith)
                requires
                    d <= Q::MAX_DEPTH,
                    Q::MAX_SHIFT == Q::DIM * Q::MAX_DEPTH,
                    Q::DIM >= 1,
            ;
            lemma2_to64_rest();
        }
        let v = degrade_ranges(&self.ranges.0, shift as u64, m);
        proof {
            lemma_rounded_sorted(self.rs(), v@, p);
        }
        let ranges = Ranges::new_from_sorted(v);
        proof {
            let s = ranges.0@;
            let pd = cell_len::<Q>(depth_max as int);
            lemma_cell_len::<Q>(depth_max as int, d as int);
            lemma_cell_len::<Q>(depth_max as int, depth_max as int);
            lemma_cell_len::<Q>(self.depth() as int, self.depth() as int);
            assert forall|x: int| #[trigger] seq_has(s, x) <==> degraded_has(self.rs(), p, x) by {
                assert(ranges.has(x) <==> seq_has(v@, x));
            }
            lemma_aligned_block_closed(v@, p);
            lemma_aligned_block_closed(self.rs(), cell_len::<Q>(self.depth() as int));
            lemma_ends_le(v@, m as int);
            assert forall|x: int| x >= m implies !#[trigger] seq_has(s, x) by {
                assert(ranges.has(x) <==> seq_has(v@, x));
            }
            if new_depth < self.depth() {
                // the result depth is `d`
                assert forall|x: int, y: int|
                    #![trigger seq_has(s, x), seq_has(s, y)]
                    0 <= x && 0 <= y && x / p == y / p implies (seq_has(s, x) <==> seq_has(s, y)) by {
                    assert(ranges.has(x) <==> seq_has(v@, x));
                    assert(ranges.has(y) <==> seq_has(v@, y));
                }
            } else {
                // rounding on finer blocks does not change the set
                let pm = cell_len::<Q>(self.depth() as int);
                lemma_cell_len::<Q>(self.depth() as int, d as int);
                assert forall|x: int| #[trigger] seq_has(s, x) <==> seq_has(self.rs(), x) by {
                    assert(ranges.has(x) <==> seq_has(v@, x));
                    if degraded_has(self.rs(), p, x) {
                        let y = choose|y: int| #[trigger] seq_has(self.rs(), y) && y / p == x / p;
                        vstd::arithmetic::div_mod::lemma_div_denominator(x, p, pm / p);
                        vstd::arithmetic::div_mod::lemma_div_denominator(y, p, pm / p);
                        lemma_fundamental_div_mod(pm, p);
                        assert(seq_has(self.rs(), y) <==> seq_has(self.rs(), x));
                    }
                    if seq_has(self.rs(), x) && x >= 0 {
                        assert(seq_has(self.rs(), x) && x / p == x / p);
                    }
                }
                assert forall|x: int, y: int|
                    #![trigger seq_has(s, x), seq_has(s, y)]
                    0 <= x && 0 <= y && x / pm == y / pm implies (seq_has(s, x) <==> seq_has(s, y)) by {
                    assert(seq_has(self.rs(), x) <==> seq_has(self.rs(), y));
                }
            }
            lemma_wf_from_sets(s, pd, m as int);
        }
        RangeMOC { depth_max, ranges, qty: PhantomData }
    }
}

/// The range `r` extended by `p` on each side, within `[0, m[`.
pub open spec fn expanded_range(r: Range<u64>, p: int, m: int) -> Range<u64> {
    Range {
        start: if r.start > 0 { (r.start - p) as u64 } else { r.start },
        end: if r.end < m { (r.end + p) as u64 } else { r.end },
    }
}

/// `x` is in a range of `s` extended by `p` on each side (within `[0, m[`).
pub open spec fn expanded_has(s: Seq<Range<u64>>, p: int, m: int, x: int) -> bool {
    exists|k: int| 0 <= k < s.len() && #[trigger] range_has(expanded_range(s[k], p, m), x)
}

/// `x` is in a range of `s` longer than `2 p`, shrunk by `p` on each side.
pub open spec fn contracted_has(s: Seq<Range<u64>>, p: int, x: int) -> bool {
    exists|k: int|
        0 <= k < s.len() && (#[trigger] s[k]).end - s[k].start > 2 * p && s[k].start + p <= x < s[k].end - p
}

impl<Q: MocQty<u64>> RangeMOC<u64, Q> {
    /// Length of a cell of the MOC depth at the deepest resolution.
    fn one_at_depth_max(&self) -> (r: u64)
        requires
            self.wf(),
        ensures
            r == cell_len::<Q>(self.depth() as int),
            0 < r <= pow2(61),
            Q::spec_n_cells_max() % (r as int) == 0,
    {
        let shift = Q::shift_from_depth_max(self.depth_max);
        proof {
            Q::lemma_qty();
            lemma_cell_len::<Q>(self.depth() as int, self.depth() as int);
            assert((Q::MAX_DEPTH - self.depth()) * Q::DIM <= Q::MAX_SHIFT) by (nonlinear_arith)
                requires
                    self.depth() <= Q::MAX_DEPTH,
                    Q::MAX_SHIFT == Q::DIM * Q::MAX_DEPTH,
                    Q::DIM >= 1,
            ;
            if shift < 61 {
                lemma_pow2_strictly_increases(shift as nat, 61);
            }
            lemma2_to64_rest();
            lemma_u64_shl_is_mul(1, shift as u64);
        }
        1u64 << (shift as u64)
    }

    /// Adds to a 1D (time or frequency) MOC its external border of depth `depth_max`.
    fn expanded_1d(&self) -> (r: Self)
        requires
            self.wf(),
        ensures
            r.wf(),
            r.depth() == self.depth(),
            forall|x: int| #[trigger] r.has(x) <==> expanded_has(
                self.rs(),
                cell_len::<Q>(self.depth() as int),
                Q::spec_n_cells_max(),
                x,
            ),
    {
        let one = self.one_at_depth_max();
        let m = Q::n_cells_max();
        let ghost p = one as int;
        let s = &self.ranges.0;
        let n = s.len();
        let mut v: Vec<Range<u64>> = Vec::new();
        let mut k: usize = 0;
        proof {
            Q::lemma_qty();
            lemma2_to64_rest();
        }
        while k < n
            invariant
                s@ == self.rs(),
                n == s@.len(),
                self.wf(),
                p == one,
                p == cell_len::<Q>(self.depth() as int),
                0 < p <= pow2(61),
                m == Q::spec_n_cells_max(),
                m < pow2(63),
                m as int % p == 0,
                k <= n,
                v@.len() == k,
                forall|j: int| 0 <= j < k ==> #[trigger] v@[j] == expanded_range(s@[j], p, m as int),
                forall|j: int|
                    0 <= j < k ==> (#[trigger] v@[j]).start as int == (if s@[j].start > 0 { s@[j].start - p } else { 0 })
                        && v@[j].end as int == (if s@[j].end < m { s@[j].end + p } else { s@[j].end as int }),
            decreases n - k,
        {
            let a = s[k].start;
            let b = s[k].end;
            proof {
                assert(a as int % p == 0 && b as int % p == 0);
                if a > 0 {
                    lemma_aligned_gt(a as int, 0, p);
                    lemma_basic_div(0, p);
                }
                if b < m {
                    lemma_aligned_gt(m as int, b as int, p);
                    lemma_fundamental_div_mod(b as int, p);
                    lemma_mul_is_commutative(p, b as int / p);
                }
            }
            let start = if a > 0 { a - one } else { a };
            let end = if b < m { b + one } else { b };
            v.push(Range { start, end });
            k = k + 1;
        }
        proof {
            let e = v@;
            assert forall|j: int| 0 <= j < e.len() implies (#[trigger] e[j]).start < e[j].end && e[j].end <= m
                && e[j].start as int % p == 0 && e[j].end as int % p == 0 by {
                assert(s@[j].start as int % p == 0 && s@[j].end as int % p == 0);
                assert(s@[j].start < s@[j].end);
                lemma_mod_sub_multiples_vanish(s@[j].start as int, p);
                lemma_mod_add_multiples_vanish(s@[j].end as int, p);
                if s@[j].end < m {
                    lemma_aligned_gt(m as int, s@[j].end as int, p);
                    lemma_fundamental_div_mod(s@[j].end as int, p);
                    lemma_mul_is_commutative(p, s@[j].end as int / p);
                }
            }
            assert forall|i: int, j: int| 0 <= i < j < e.len() implies (#[trigger] e[i]).start <= (#[trigger] e[j]).start by {
                assert(s@[i].end < s@[j].start);
            }
        }
        let ranges = Ranges::new_from_sorted(v);
        proof {
            let r = ranges.0@;
            lemma_aligned_block_closed(v@, p);
            lemma_ends_le(v@, m as int);
            assert forall|x: int| #[trigger] seq_has(r, x) <==> seq_has(v@, x) by {
                assert(ranges.has(x) <==> seq_has(v@, x));
            }
            assert forall|x: int| #[trigger] seq_has(v@, x) <==> expanded_has(s@, p, m as int, x) by {
                if seq_has(v@, x) {
                    let j = choose|j: int| 0 <= j < v@.len() && #[trigger] range_has(v@[j], x);
                    assert(range_has(expanded_range(s@[j], p, m as int), x));
                }
                if expanded_has(s@, p, m as int, x) {
                    let j = choose|j: int| 0 <= j < s@.len() && #[trigger] range_has(expanded_range(s@[j], p, m as int), x);
                    lemma_has_intro(v@, j, x);
                }
            }
            assert forall|x: int, y: int|
                #![trigger seq_has(r, x), seq_has(r, y)]
                0 <= x && 0 <= y && x / p == y / p implies (seq_has(r, x) <==> seq_has(r, y)) by {
                assert(seq_has(v@, x) <==> seq_has(v@, y));
            }
            lemma_wf_from_sets(r, p, m as int);
        }
        RangeMOC { depth_max: self.depth_max, ranges, qty: PhantomData }
    }

    /// Removes from a 1D (time or frequency) MOC its internal border of depth `depth_max`.
    fn contracted_1d(&self) -> (r: Self)
        requires
            self.wf(),
        ensures
            r.wf(),
            r.depth() == self.depth(),
            forall|x: int| #[trigger] r.has(x) <==> contracted_has(
                self.rs(),
                cell_len::<Q>(self.depth() as int),
                x,
            ),
    {
        let one = self.one_at_depth_max();
        proof {
            lemma2_to64_rest();
            lemma2_to64();
            lemma_u64_shl_is_mul(one, 1);
        }
        let two = one << 1u64;
        let ghost p = one as int;
        let s = &self.ranges.0;
        let n = s.len();
        let mut v: Vec<Range<u64>> = Vec::new();
        let mut k: usize = 0;
        while k < n
            invariant
                s@ == self.rs(),
                n == s@.len(),
                self.wf(),
                p == one,
                p == cell_len::<Q>(self.depth() as int),
                0 < p <= pow2(61),
                two == 2 * p,
                k <= n,
                sno(v@),
                forall|j: int| 0 <= j < v@.len() ==> (#[trigger] v@[j]).end <= (if k > 0 { s@[k - 1].end as int } else { 0 }),
                ends_le(v@, Q::spec_n_cells_max()),
                aligned(v@, p),
                forall|x: int| #[trigger] seq_has(v@, x) <==> contracted_has(s@.take(k as int), p, x),
            decreases n - k,
        {
            let a = s[k].start;
            let b = s[k].end;
            let ghost old_v = v@;
            proof {
                lemma_has_push(s@.take(k as int), s@[k as int]);
                assert(s@.take(k + 1) == s@.take(k as int).push(s@[k as int]));
                if k > 0 {
                    assert(s@[k - 1].end < s@[k as int].start);
                }
                assert forall|x: int| contracted_has(s@.take(k + 1), p, x) <==> (contracted_has(s@.take(k as int), p, x) || (
                    b - a > 2 * p && a + p <= x < b - p)) by {
                    let t = s@.take(k + 1);
                    if contracted_has(t, p, x) {
                        let j = choose|j: int|
                            0 <= j < t.len() && (#[trigger] t[j]).end - t[j].start > 2 * p && t[j].start + p <= x < t[j].end - p;
                        if j < k {
                            assert(s@.take(k as int)[j] == t[j]);
                        }
                    }
                    if contracted_has(s@.take(k as int), p, x) {
                        let j = choose|j: int|
                            0 <= j < s@.take(k as int).len() && (#[trigger] s@.take(k as int)[j]).end - s@.take(k as int)[j].start > 2 * p
                                && s@.take(k as int)[j].start + p <= x < s@.take(k as int)[j].end - p;
                        assert(t[j] == s@.take(k as int)[j]);
                    }
                    if b - a > 2 * p && a + p <= x < b - p {
                        assert(t[k as int] == s@[k as int]);
                    }
                }
            }
            if b - a > two {
                proof {
                    lemma_has_push(v@, Range { start: (a + one) as u64, end: (b - one) as u64 });
                    lemma_mod_add_multiples_vanish(a as int, p);
                    lemma_mod_sub_multiples_vanish(b as int, p);
                }
                v.push(Range { start: a + one, end: b - one });
            }
            proof {
                assert forall|x: int| #[trigger] seq_has(v@, x) <==> contracted_has(s@.take(k + 1), p, x) by {
                    if b - a > 2 * p {
                        assert(v@ == old_v.push(Range { start: (a + one) as u64, end: (b - one) as u64 }));
                        assert(seq_has(old_v, x) <==> contracted_has(s@.take(k as int), p, x));
                    } else {
                        assert(v@ == old_v);
                    }
                }
            }
            k = k + 1;
        }
        proof {
            assert(s@.take(n as int) == s@);
            lemma_cell_len::<Q>(self.depth() as int, self.depth() as int);
        }
        RangeMOC { depth_max: self.depth_max, ranges: Ranges(v), qty: PhantomData }
    }
}

impl RangeMOC<u64, Time<u64>> {
    /// Adds the MOC external border of depth `depth_max`.
    pub fn expanded(&self) -> (r: Self)
        requires
            self.wf(),
        ensures
            r.wf(),
            r.depth() == self.depth(),
            forall|x: int| #[trigger] r.has(x) <==> expanded_has(
                self.rs(),
                cell_len::<Time<u64>>(self.depth() as int),
                <Time<u64> as MocQty<u64>>::spec_n_cells_max(),
                x,
            ),
    {
        self.expanded_1d()
    }

    /// Removes the MOC internal border of depth `depth_max`.
    pub fn contracted(&self) -> (r: Self)
        requires
            self.wf(),
        ensures
            r.wf(),
            r.depth() == self.depth(),
            forall|x: int| #[trigger] r.has(x) <==> contracted_has(
                self.rs(),
                cell_len::<Time<u64>>(self.depth() as int),
                x,
            ),
    {
        self.contracted_1d()
    }
}

impl RangeMOC<u64, Frequency<u64>> {
    /// Adds the MOC external border of depth `depth_max`.
    pub fn expanded(&self) -> (r: Self)
        requires
            self.wf(),
        ensures
            r.wf(),
            r.depth() == self.depth(),
            forall|x: int| #[trigger] r.has(x) <==> expanded_has(
                self.rs(),
                cell_len::<Frequency<u64>>(self.depth() as int),
                <Frequency<u64> as MocQty<u64>>::spec_n_cells_max(),
                x,
            ),
    {
        self.expanded_1d()
    }

    /// Removes the MOC internal border of depth `depth_max`.
    pub fn contracted(&self) -> (r: Self)
        requires
            self.wf(),
        ensures
            r.wf(),
            r.depth() == self.depth(),
            forall|x: int| #[trigger] r.has(x) <==> contracted_has(
                self.rs(),
                cell_len::<Frequency<u64>>(self.depth() as int),
                x,
            ),
    {
        self.contracted_1d()
    }
}

impl<Q: MocQty<u64>> HasMaxDepth for RangeMOC<u64, Q> {
    fn depth_max(&self) -> (r: u8)
        ensures
            r == self.depth(),
    {
        self.depth_max
    }
}

impl<Q> ZSorted for RangeMOC<u64, Q> {}

impl<Q> NonOverlapping for RangeMOC<u64, Q> {}

impl<Q: MocQty<u64>> MOCProperties for RangeMOC<u64, Q> {}

impl<Q: MocQty<u64>> RangeMOC<u64, Q> {
    /// The two MOCs have the same ranges (whatever their depths).
    pub fn eq_without_depth(&self, rhs: &Self) -> (r: bool)
        ensures
            r == (self.rs() == rhs.rs()),
    {
        let a = &self.ranges.0;
        let b = &rhs.ranges.0;
        if a.len() != b.len() {
            return false;
        }
        let mut i: usize = 0;
        while i < a.len()
            invariant
                a@ == self.rs(),
                b@ == rhs.rs(),
                a@.len() == b@.len(),
                i <= a@.len(),
                forall|j: int| 0 <= j < i ==> #[trigger] a@[j] == b@[j],
            decreases a@.len() - i,
        {
            if a[i].start != b[i].start || a[i].end != b[i].end {
                proof {
                    assert(a@[i as int].start != b@[i as int].start || a@[i as int].end != b@[i as int].end);
                    assert(self.rs()[i as int] != rhs.rs()[i as int]);
                }
                return false;
            }
            proof {
                assert(a@[i as int] == b@[i as int]);
            }
            i = i + 1;
        }
        proof {
            assert(a@ =~= b@);
        }
        true
    }
}

impl<Q: MocQty<u64>> RangeMOC<u64, Q> {
    /// An owned copy of the MOC.
    pub fn to_owned_moc(&self) -> (r: Self)
        ensures
            r.depth() == self.depth(),
            r.rs() == self.rs(),
    {
        let src = &self.ranges.0;
        let mut v: Vec<Range<u64>> = Vec::new();
        let mut i: usize = 0;
        while i < src.len()
            invariant
                i <= src@.len(),
                v@.len() == i,
                forall|j: int| 0 <= j < i ==> #[trigger] v@[j] == src@[j],
            decreases src@.len() - i,
        {
            v.push(Range { start: src[i].start, end: src[i].end });
            i = i + 1;
        }
        proof {
            assert(v@ =~= src@);
        }
        RangeMOC { depth_max: self.depth_max, ranges: Ranges(v), qty: PhantomData }
    }
}

/// A MOC given by the NUNIQ indices of its cells, sorted following the Z-order curve.
#[derive(Debug, PartialEq)]
pub struct NUniqMOC<T> {
    pub depth_max: u8,
    pub zsorted_nuniq: Vec<T>,
}

impl<T> NUniqMOC<T> {
    pub fn new(depth_max: u8, zsorted_nuniq: Vec<T>) -> (r: Self)
        ensures
            r.depth_max == depth_max,
            r.zsorted_nuniq == zsorted_nuniq,
    {
        Self { depth_max, zsorted_nuniq }
    }
}

} // verus!
