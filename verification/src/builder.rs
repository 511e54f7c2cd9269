//! Building a MOC of a given depth from ranges (or cells) given in any order: the ranges are
//! degraded to the MOC depth, buffered, and the buffer is merged into the MOC when full.

use std::marker::PhantomData;
use std::ops::Range;
use vstd::arithmetic::div_mod::*;
use vstd::arithmetic::mul::*;
use vstd::arithmetic::power2::*;
use vstd::bits::*;
use vstd::prelude::*;

use crate::moc::{
    aligned, cell_len, degraded_has, ends_le, lemma_aligned_block_closed, lemma_cell_len, lemma_ends_le,
    lemma_wf_from_sets, round_range, RangeMOC,
};
use crate::qty::MocQty;
use crate::arith::lemma_div_char;
use crate::ranges::{all_non_empty, lemma_has_intro, lemma_has_push, range_has, seq_has, sno, sorted_by_start, Ranges};

verus! {

/// Default number of ranges buffered before being merged into the MOC.
pub const DEFAULT_BUFFER_CAPACITY: usize = 100_000;

/// A MOC builder: ranges of values at the deepest resolution are pushed in any order.
pub struct RangeMocBuilder<T, Q> {
    depth: u8,
    shift: u64,
    buff: Vec<Range<T>>,
    capacity: usize,
    sorted: bool,
    moc: Option<RangeMOC<T, Q>>,
    qty: PhantomData<Q>,
}

/// `x` lies in a cell of length `p` holding a value of the range `r`.
pub open spec fn range_degraded_has(r: Range<u64>, p: int, x: int) -> bool {
    0 <= x && exists|y: int| r.start <= y < r.end && #[trigger] (y / p) == x / p
}

impl<Q: MocQty<u64>> RangeMocBuilder<u64, Q> {
    /// Depth of the MOC being built.
    pub closed spec fn spec_depth(&self) -> u8 {
        self.depth
    }

    /// Length of a cell of the builder depth.
    pub open spec fn p(&self) -> int {
        cell_len::<Q>(self.spec_depth() as int)
    }

    pub closed spec fn wf(&self) -> bool {
        &&& self.depth <= Q::MAX_DEPTH
        &&& self.shift == (Q::MAX_DEPTH - self.depth) * Q::DIM
        &&& self.capacity >= 1
        &&& forall|k: int|
            0 <= k < self.buff@.len() ==> (#[trigger] self.buff@[k]).start < self.buff@[k].end && self.buff@[k].end
                <= Q::spec_n_cells_max() && self.buff@[k].start as int % self.p() == 0 && self.buff@[k].end as int
                % self.p() == 0
        &&& self.sorted ==> sno(self.buff@)
        &&& self.moc matches Some(m) ==> m.wf() && m.depth() == self.depth
    }

    /// `x` is in the MOC being built.
    pub closed spec fn has(&self, x: int) -> bool {
        (self.moc matches Some(m) && m.has(x)) || seq_has(self.buff@, x)
    }

    proof fn lemma_p(&self)
        requires
            self.wf(),
        ensures
            self.p() == pow2(self.shift as nat),
            self.p() > 0,
            self.shift < 63,
            Q::spec_n_cells_max() % self.p() == 0,
            Q::spec_n_cells_max() < pow2(63),
    {
        Q::lemma_qty();
        lemma_cell_len::<Q>(self.depth as int, self.depth as int);
        assert(self.shift <= Q::MAX_SHIFT) by (nonlinear_arith)
            requires
                self.shift == (Q::MAX_DEPTH - self.depth) * Q::DIM,
                Q::MAX_SHIFT == Q::DIM * Q::MAX_DEPTH,
                1 <= Q::DIM,
                self.depth <= Q::MAX_DEPTH,
        ;
    }

    /// A builder of a MOC of depth `depth`, buffering `buf_capacity` ranges (100 000 by default).
    pub fn new(depth: u8, buf_capacity: Option<usize>) -> (r: Self)
        requires
            depth <= Q::MAX_DEPTH,
        ensures
            r.wf(),
            r.spec_depth() == depth,
            forall|x: int| !#[trigger] r.has(x),
    {
        let shift = Q::shift_from_depth_max(depth) as u64;
        let capacity = match buf_capacity {
            Some(c) => if c == 0 { 1 } else { c },
            None => DEFAULT_BUFFER_CAPACITY,
        };
        RangeMocBuilder { depth, shift, buff: Vec::new(), capacity, sorted: true, moc: None, qty: PhantomData }
    }

    /// A builder adding ranges to the given MOC.
    pub fn from(buf_capacity: Option<usize>, moc: RangeMOC<u64, Q>) -> (r: Self)
        requires
            moc.wf(),
        ensures
            r.wf(),
            r.spec_depth() == moc.depth(),
            forall|x: int| #[trigger] r.has(x) <==> moc.has(x),
    {
        let depth = moc.depth_max();
        let shift = Q::shift_from_depth_max(depth) as u64;
        let capacity = match buf_capacity {
            Some(c) => if c == 0 { 1 } else { c },
            None => DEFAULT_BUFFER_CAPACITY,
        };
        RangeMocBuilder { depth, shift, buff: Vec::new(), capacity, sorted: true, moc: Some(moc), qty: PhantomData }
    }

    /// Adds the values of `new_range` (at the deepest resolution), degraded to the builder
    /// depth: the cells of the builder depth holding a value of the range are added. An empty
    /// range adds nothing.
    pub fn push(&mut self, new_range: Range<u64>)
        requires
            old(self).wf(),
            new_range.end <= Q::spec_n_cells_max(),
        ensures
            final(self).wf(),
            final(self).spec_depth() == old(self).spec_depth(),
            forall|x: int| #[trigger] final(self).has(x) <==> (old(self).has(x) || range_degraded_has(new_range, old(self).p(), x)),
    {
        let ghost old_self = *self;
        let ghost p = self.p();
        proof {
            self.lemma_p();
        }
        if new_range.start >= new_range.end {
            proof {
                assert forall|x: int| !range_degraded_has(new_range, p, x) by {}
            }
            return;
        }
        let m = Q::n_cells_max();
        let nr = round_range(new_range.start, new_range.end, self.shift, m);
        proof {
            assert forall|x: int| range_has(nr, x) <==> #[trigger] range_degraded_has(new_range, p, x) by {
                if 0 <= x {
                    crate::arith::lemma_round_range(new_range.start as int, new_range.end as int, p, x);
                }
            }
        }
        let n = self.buff.len();
        if n == 0 {
            self.buff.push(nr);
            proof {
                lemma_has_push(old_self.buff@, nr);
                assert(sno(self.buff@));
            }
        } else {
            let last_start = self.buff[n - 1].start;
            let last_end = self.buff[n - 1].end;
            if nr.end < last_start || last_end < nr.start {
                // Disjoint and not adjacent: a new range.
                let after = last_end < nr.start;
                self.sorted = self.sorted && after;
                self.buff.push(nr);
                proof {
                    lemma_has_push(old_self.buff@, nr);
                    if self.sorted {
                        let b = self.buff@;
                        assert forall|i: int, j: int| 0 <= i < j < b.len() implies (#[trigger] b[i]).end < (#[trigger] b[j]).start by {
                            if j == b.len() - 1 && i < n - 1 {
                                assert(b[i].end < b[n - 1].start);
                            }
                        }
                    }
                }
            } else {
                // Overlapping or adjacent: merged into the last range.
                let start = if nr.start < last_start { nr.start } else { last_start };
                let end = if last_end < nr.end { nr.end } else { last_end };
                if nr.start < last_start {
                    self.sorted = false;
                }
                let ghost b0 = self.buff@;
                self.buff.set(n - 1, Range { start, end });
                proof {
                    let b = self.buff@;
                    assert forall|x: int| #[trigger] seq_has(b, x) <==> (seq_has(b0, x) || range_has(nr, x)) by {
                        if seq_has(b, x) {
                            let k = choose|k: int| 0 <= k < b.len() && #[trigger] range_has(b[k], x);
                            if k == n - 1 {
                                if !range_has(nr, x) {
                                    lemma_has_intro(b0, k, x);
                                }
                            } else {
                                lemma_has_intro(b0, k, x);
                            }
                        }
                        if seq_has(b0, x) {
                            let k = choose|k: int| 0 <= k < b0.len() && #[trigger] range_has(b0[k], x);
                            lemma_has_intro(b, k, x);
                        }
                        if range_has(nr, x) {
                            lemma_has_intro(b, n - 1, x);
                        }
                    }
                    if self.sorted {
                        assert forall|i: int, j: int| 0 <= i < j < b.len() implies (#[trigger] b[i]).end < (#[trigger] b[j]).start by {
                            if j == n - 1 {
                                assert(b0[i].end < b0[j].start);
                            } else {
                                assert(b0[i].end < b0[j].start);
                            }
                        }
                    }
                }
            }
        }
        if self.buff.len() >= self.capacity {
            self.drain_buffer();
        }
    }

    /// Merges the buffered ranges into the MOC.
    fn drain_buffer(&mut self)
        requires
            old(self).wf(),
        ensures
            final(self).wf(),
            final(self).spec_depth() == old(self).spec_depth(),
            final(self).moc is Some,
            final(self).buff@.len() == 0,
            forall|x: int| #[trigger] final(self).has(x) <==> old(self).has(x),
    {
        let ghost old_self = *self;
        let ghost p = self.p();
        proof {
            self.lemma_p();
        }
        let mut data: Vec<Range<u64>> = Vec::new();
        std::mem::swap(&mut data, &mut self.buff);
        proof {
            assert(all_non_empty(data@));
            if self.sorted {
                assert(sorted_by_start(data@)) by {
                    assert forall|i: int, j: int| 0 <= i < j < data@.len() implies (#[trigger] data@[i]).start <= (
                    #[trigger] data@[j]).start by {
                        assert(data@[i].end < data@[j].start);
                    }
                }
            }
        }
        let ranges = if self.sorted {
            Ranges::new_from_sorted(data)
        } else {
            Ranges::new_from(data)
        };
        proof {
            let d = data@;
            let v = ranges.0@;
            let m = Q::spec_n_cells_max();
            assert(aligned(d, p));
            lemma_aligned_block_closed(d, p);
            assert forall|x: int, y: int|
                #![trigger seq_has(v, x), seq_has(v, y)]
                0 <= x && 0 <= y && x / p == y / p implies (seq_has(v, x) <==> seq_has(v, y)) by {
                assert(ranges.has(x) <==> seq_has(d, x));
                assert(ranges.has(y) <==> seq_has(d, y));
            }
            assert forall|x: int| x >= m implies !#[trigger] seq_has(v, x) by {
                assert(ranges.has(x) <==> seq_has(d, x));
                if seq_has(d, x) {
                    let k = choose|k: int| 0 <= k < d.len() && #[trigger] range_has(d[k], x);
                }
            }
            lemma_wf_from_sets(v, p, m);
        }
        let fresh = RangeMOC::new(self.depth, ranges);
        let merged = match &self.moc {
            Some(prev) => prev.or(&fresh),
            None => fresh,
        };
        self.moc = Some(merged);
        self.sorted = true;
        proof {
            assert forall|x: int| #[trigger] self.has(x) <==> old_self.has(x) by {
                assert(ranges.has(x) <==> seq_has(data@, x));
                assert(fresh.has(x) <==> ranges.has(x));
            }
        }
    }

    /// The MOC made of all the pushed ranges.
    pub fn into_moc(self) -> (r: RangeMOC<u64, Q>)
        requires
            self.wf(),
        ensures
            r.wf(),
            r.depth() == self.spec_depth(),
            forall|x: int| #[trigger] r.has(x) <==> self.has(x),
    {
        let mut b = self;
        b.drain_buffer();
        proof {
            assert forall|x: int| #[trigger] b.moc->Some_0.has(x) <==> self.has(x) by {
                assert(!seq_has(b.buff@, x));
                assert(b.has(x) <==> self.has(x));
            }
        }
        match b.moc {
            Some(m) => m,
            None => RangeMOC::new_empty(b.depth),
        }
    }
}

/// `x` lies in a cell of length `p` holding a value of one of the ranges of `s`; empty ranges
/// hold no value.
pub open spec fn ranges_degraded_has(s: Seq<Range<u64>>, p: int, x: int) -> bool {
    exists|k: int| 0 <= k < s.len() && #[trigger] range_degraded_has(s[k], p, x)
}

impl<Q: MocQty<u64>> RangeMOC<u64, Q> {
    /// The MOC of depth `depth` of the given ranges of values at the deepest resolution: each
    /// range is degraded to the depth (the cells holding a value of the range are taken).
    pub fn from_maxdepth_ranges(depth: u8, ranges: Vec<Range<u64>>, buf_capacity: Option<usize>) -> (r: Self)
        requires
            depth <= Q::MAX_DEPTH,
            forall|k: int| 0 <= k < ranges@.len() ==> (#[trigger] ranges@[k]).end <= Q::spec_n_cells_max(),
        ensures
            r.wf(),
            r.depth() == depth,
            forall|x: int| #[trigger] r.has(x) <==> ranges_degraded_has(ranges@, cell_len::<Q>(depth as int), x),
    {
        let mut builder = RangeMocBuilder::<u64, Q>::new(depth, buf_capacity);
        let ghost p = cell_len::<Q>(depth as int);
        let n = ranges.len();
        let mut i: usize = 0;
        while i < n
            invariant
                n == ranges@.len(),
                i <= n,
                builder.wf(),
                builder.spec_depth() == depth,
                p == builder.p(),
                forall|k: int| 0 <= k < ranges@.len() ==> (#[trigger] ranges@[k]).end <= Q::spec_n_cells_max(),
                forall|x: int| #[trigger] builder.has(x) <==> ranges_degraded_has(ranges@.take(i as int), p, x),
            decreases n - i,
        {
            let r = Range { start: ranges[i].start, end: ranges[i].end };
            builder.push(r);
            proof {
                let t = ranges@.take(i + 1);
                assert forall|x: int| #[trigger] builder.has(x) <==> ranges_degraded_has(t, p, x) by {
                    if ranges_degraded_has(t, p, x) {
                        let k = choose|k: int| 0 <= k < t.len() && #[trigger] range_degraded_has(t[k], p, x);
                        if k < i {
                            assert(range_degraded_has(ranges@.take(i as int)[k], p, x));
                        }
                    }
                    if ranges_degraded_has(ranges@.take(i as int), p, x) {
                        let k = choose|k: int| 0 <= k < i && #[trigger] range_degraded_has(ranges@.take(i as int)[k], p, x);
                        assert(range_degraded_has(t[k], p, x));
                    }
                    if range_degraded_has(r, p, x) {
                        assert(range_degraded_has(t[i as int], p, x));
                    }
                }
            }
            i = i + 1;
        }
        proof {
            assert(ranges@.take(n as int) =~= ranges@);
        }
        builder.into_moc()
    }
}

/// The range of values, at the deepest resolution, of the cell `c = (depth, idx)`.
pub open spec fn cell_range<Q: MocQty<u64>>(c: (u8, u64)) -> Range<u64> {
    Range {
        start: (c.1 * cell_len::<Q>(c.0 as int)) as u64,
        end: ((c.1 + 1) * cell_len::<Q>(c.0 as int)) as u64,
    }
}

/// The cell `c = (depth, idx)` exists: its depth is at most the quantity maximum depth and
/// it lies in the domain.
pub open spec fn valid_cell<Q: MocQty<u64>>(c: (u8, u64)) -> bool {
    c.0 <= Q::MAX_DEPTH && (c.1 + 1) * cell_len::<Q>(c.0 as int) <= Q::spec_n_cells_max()
}

/// The range of values, at the deepest resolution, of the cell `idx` of depth `depth`.
pub(crate) fn cell_to_range<Q: MocQty<u64>>(depth: u8, idx: u64) -> (r: Range<u64>)
    requires
        valid_cell::<Q>((depth, idx)),
    ensures
        r == cell_range::<Q>((depth, idx)),
        r.start as int == idx * cell_len::<Q>(depth as int),
        r.end as int == (idx + 1) * cell_len::<Q>(depth as int),
        r.end <= Q::spec_n_cells_max(),
{
    let shift = Q::shift_from_depth_max(depth);
    proof {
        Q::lemma_qty();
        lemma2_to64();
        lemma2_to64_rest();
        assert((Q::MAX_DEPTH - depth) * Q::DIM <= Q::MAX_SHIFT) by (nonlinear_arith)
            requires
                depth <= Q::MAX_DEPTH,
                Q::MAX_SHIFT == Q::DIM * Q::MAX_DEPTH,
                Q::DIM >= 1,
        ;
        lemma_pow2_pos(((Q::MAX_DEPTH - depth) * Q::DIM) as nat);
        lemma_mul_inequality(idx as int, idx + 1, cell_len::<Q>(depth as int));
        lemma_mul_inequality(1, cell_len::<Q>(depth as int), idx + 1);
        lemma_mul_is_commutative(cell_len::<Q>(depth as int), idx + 1);
        lemma_mul_is_commutative(cell_len::<Q>(depth as int), idx as int);
        lemma_u64_shl_is_mul(idx, shift as u64);
        lemma_u64_shl_is_mul((idx + 1) as u64, shift as u64);
    }
    Range { start: idx << (shift as u64), end: (idx + 1) << (shift as u64) }
}

/// A cell of the builder depth, seen as a range, degrades to itself.
proof fn lemma_cell_degraded(idx: int, p: int, x: int)
    requires
        p > 0,
        0 <= idx,
    ensures
        range_degraded_has(Range { start: (idx * p) as u64, end: ((idx + 1) * p) as u64 }, p, x)
            <== (0 <= x && x / p == idx && (idx + 1) * p <= u64::MAX),
        (idx + 1) * p <= u64::MAX ==> (range_degraded_has(
            Range { start: (idx * p) as u64, end: ((idx + 1) * p) as u64 },
            p,
            x,
        ) ==> x / p == idx),
{
    lemma_mul_is_distributive_add_other_way(p, idx, 1);
    lemma_mul_is_commutative(p, idx);
    lemma_mul_nonnegative(idx, p);
    if (idx + 1) * p <= u64::MAX {
        if 0 <= x && x / p == idx {
            lemma_div_char(idx * p, p, idx);
            assert((idx * p) / p == x / p);
        }
        if range_degraded_has(Range { start: (idx * p) as u64, end: ((idx + 1) * p) as u64 }, p, x) {
            let y = choose|y: int| (idx * p) <= y < (idx + 1) * p && #[trigger] (y / p) == x / p;
            lemma_div_char(y, p, idx);
        }
    }
}

/// `x` lies in a cell, of the depth of the cells of length `p`, whose index is in `cells`.
pub open spec fn fixed_depth_cells_has(cells: Seq<u64>, p: int, x: int) -> bool {
    0 <= x && exists|k: int| 0 <= k < cells.len() && #[trigger] cells[k] == x / p
}

impl<Q: MocQty<u64>> RangeMocBuilder<u64, Q> {
    /// Adds the cell `idx` of the builder depth.
    pub fn push_cell(&mut self, idx: u64)
        requires
            old(self).wf(),
            valid_cell::<Q>((old(self).spec_depth(), idx)),
        ensures
            final(self).wf(),
            final(self).spec_depth() == old(self).spec_depth(),
            forall|x: int| #[trigger] final(self).has(x) <==> (old(self).has(x) || (0 <= x && x / old(self).p() == idx)),
    {
        let ghost p = self.p();
        proof {
            self.lemma_p();
            Q::lemma_qty();
            lemma2_to64();
            lemma2_to64_rest();
        }
        let r = cell_to_range::<Q>(self.depth, idx);
        self.push(r);
        proof {
            assert forall|x: int| range_degraded_has(r, p, x) <==> (0 <= x && x / p == idx) by {
                lemma_cell_degraded(idx as int, p, x);
            }
        }
    }
}

impl<Q: MocQty<u64>> RangeMocBuilder<u64, Q> {
    /// Pushes the cells of the builder depth.
    fn push_fixed_depth_cells(&mut self, cells: &Vec<u64>)
        requires
            old(self).wf(),
            forall|k: int| 0 <= k < cells@.len() ==> valid_cell::<Q>((old(self).spec_depth(), #[trigger] cells@[k])),
        ensures
            final(self).wf(),
            final(self).spec_depth() == old(self).spec_depth(),
            forall|x: int| #[trigger] final(self).has(x) <==> (old(self).has(x) || fixed_depth_cells_has(cells@, old(self).p(), x)),
    {
        let ghost b0 = *self;
        let ghost p = self.p();
        let depth = self.depth;
        proof {
            self.lemma_p();
            Q::lemma_qty();
            lemma2_to64();
            lemma2_to64_rest();
        }
        let n = cells.len();
        let mut i: usize = 0;
        while i < n
            invariant
                n == cells@.len(),
                i <= n,
                self.wf(),
                self.spec_depth() == depth,
                depth == b0.spec_depth(),
                p == self.p(),
                p > 0,
                Q::spec_n_cells_max() < pow2(63),
                pow2(63) < u64::MAX,
                forall|k: int| 0 <= k < cells@.len() ==> valid_cell::<Q>((depth, #[trigger] cells@[k])),
                forall|x: int| #[trigger] self.has(x) <==> (b0.has(x) || fixed_depth_cells_has(cells@.take(i as int), p, x)),
            decreases n - i,
        {
            let idx = cells[i];
            proof {
                assert(valid_cell::<Q>((depth, cells@[i as int])));
            }
            self.push_cell(idx);
            proof {
                let t = cells@.take(i + 1);
                let t0 = cells@.take(i as int);
                assert forall|x: int| #[trigger] self.has(x) <==> (b0.has(x) || fixed_depth_cells_has(t, p, x)) by {
                    if fixed_depth_cells_has(t, p, x) {
                        let k = choose|k: int| 0 <= k < t.len() && #[trigger] t[k] == x / p;
                        if k < i {
                            assert(t0[k] == x / p);
                        }
                    }
                    if fixed_depth_cells_has(t0, p, x) {
                        let k = choose|k: int| 0 <= k < t0.len() && #[trigger] t0[k] == x / p;
                        assert(t[k] == x / p);
                    }
                    if 0 <= x && x / p == idx {
                        assert(t[i as int] == x / p);
                    }
                }
            }
            i = i + 1;
        }
        proof {
            assert(cells@.take(n as int) =~= cells@);
        }
    }
}

impl<Q: MocQty<u64>> RangeMOC<u64, Q> {
    /// The MOC of depth `depth` made of the given cells of depth `depth`.
    pub fn from_fixed_depth_cells(depth: u8, cells: Vec<u64>, buf_capacity: Option<usize>) -> (r: Self)
        requires
            depth <= Q::MAX_DEPTH,
            forall|k: int| 0 <= k < cells@.len() ==> valid_cell::<Q>((depth, #[trigger] cells@[k])),
        ensures
            r.wf(),
            r.depth() == depth,
            forall|x: int| #[trigger] r.has(x) <==> fixed_depth_cells_has(cells@, cell_len::<Q>(depth as int), x),
    {
        let mut builder = RangeMocBuilder::<u64, Q>::new(depth, buf_capacity);
        builder.push_fixed_depth_cells(&cells);
        builder.into_moc()
    }

    /// Adds to the MOC the given cells of its depth.
    pub fn append_fixed_depth_cells(self, depth: u8, cells: Vec<u64>, buf_capacity: Option<usize>) -> (r: Self)
        requires
            self.wf(),
            depth == self.depth(),
            forall|k: int| 0 <= k < cells@.len() ==> valid_cell::<Q>((depth, #[trigger] cells@[k])),
        ensures
            r.wf(),
            r.depth() == depth,
            forall|x: int| #[trigger] r.has(x) <==> (self.has(x) || fixed_depth_cells_has(cells@, cell_len::<Q>(depth as int), x)),
    {
        let mut builder = RangeMocBuilder::<u64, Q>::from(buf_capacity, self);
        builder.push_fixed_depth_cells(&cells);
        builder.into_moc()
    }

    /// The MOC of depth `depth` made of the given cells `(depth, index)`, of any depth: each
    /// cell is degraded to the MOC depth.
    pub fn from_cells(depth: u8, cells: Vec<(u8, u64)>, buf_capacity: Option<usize>) -> (r: Self)
        requires
            depth <= Q::MAX_DEPTH,
            forall|k: int| 0 <= k < cells@.len() ==> valid_cell::<Q>(#[trigger] cells@[k]),
        ensures
            r.wf(),
            r.depth() == depth,
            forall|x: int| #[trigger] r.has(x) <==> exists|k: int|
                0 <= k < cells@.len() && #[trigger] range_degraded_has(
                    cell_range::<Q>(cells@[k]),
                    cell_len::<Q>(depth as int),
                    x,
                ),
    {
        let mut builder = RangeMocBuilder::<u64, Q>::new(depth, buf_capacity);
        let ghost p = cell_len::<Q>(depth as int);
        let n = cells.len();
        let mut i: usize = 0;
        while i < n
            invariant
                n == cells@.len(),
                i <= n,
                builder.wf(),
                builder.spec_depth() == depth,
                p == builder.p(),
                forall|k: int| 0 <= k < cells@.len() ==> valid_cell::<Q>(#[trigger] cells@[k]),
                forall|x: int| #[trigger] builder.has(x) <==> exists|k: int|
                    0 <= k < i && #[trigger] range_degraded_has(cell_range::<Q>(cells@[k]), p, x),
            decreases n - i,
        {
            let (d, idx) = cells[i];
            proof {
                assert(valid_cell::<Q>(cells@[i as int]));
            }
            let r = cell_to_range::<Q>(d, idx);
            builder.push(r);
            proof {
                assert forall|x: int| #[trigger] builder.has(x) <==> exists|k: int|
                    0 <= k < i + 1 && #[trigger] range_degraded_has(cell_range::<Q>(cells@[k]), p, x) by {
                    if range_degraded_has(r, p, x) {
                        assert(range_degraded_has(cell_range::<Q>(cells@[i as int]), p, x));
                    }
                }
            }
            i = i + 1;
        }
        builder.into_moc()
    }
}

} // verus!
