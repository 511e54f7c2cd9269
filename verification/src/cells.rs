//! Cells of a MOC: the decomposition of its ranges into the largest cells they hold.

use std::marker::PhantomData;
use std::ops::Range;
use vstd::arithmetic::div_mod::*;
use vstd::arithmetic::mul::*;
use vstd::arithmetic::power2::*;
use vstd::bits::*;
use vstd::prelude::*;

use crate::arith::{lemma_aligned_gt, lemma_aligned_le, lemma_div_char};
use crate::moc::{aligned, cell_len, ends_le, lemma_aligned_deeper, lemma_cell_len, RangeMOC};
use crate::qty::MocQty;
use crate::ranges::{range_has, seq_has, sno};

verus! {

/// A cell: a depth and an index at that depth.
#[derive(Clone, Copy, Debug, PartialEq, Eq)]
pub struct Cell {
    pub depth: u8,
    pub idx: u64,
}

impl Cell {
    pub fn new(depth: u8, idx: u64) -> (r: Self)
        ensures
            r.depth == depth,
            r.idx == idx,
    {
        Cell { depth, idx }
    }
}

/// `lo` is a multiple of the length of the cells of depth `d`.
pub open spec fn aligned_at<Q: MocQty<u64>>(lo: int, d: int) -> bool {
    lo % cell_len::<Q>(d) == 0
}

/// `[lo, hi[` lies in one of the ranges.
pub open spec fn block_in(s: Seq<Range<u64>>, lo: int, hi: int) -> bool {
    exists|k: int| 0 <= k < s.len() && (#[trigger] s[k]).start <= lo && hi <= s[k].end
}

/// Start of the cell of depth `d` holding `x`.
pub open spec fn block_start<Q: MocQty<u64>>(d: int, x: int) -> int {
    (x / cell_len::<Q>(d)) * cell_len::<Q>(d)
}

/// The cell of depth `d` starting at `lo` is a cell of the MOC made of the ranges `s` at depth
/// `dmax`: it is covered by the ranges while its parent cell is not.
pub open spec fn is_moc_cell<Q: MocQty<u64>>(s: Seq<Range<u64>>, dmax: int, d: int, lo: int) -> bool {
    &&& 0 <= d <= dmax
    &&& 0 <= lo
    &&& aligned_at::<Q>(lo, d)
    &&& block_in(s, lo, lo + cell_len::<Q>(d))
    &&& d > 0 ==> !block_in(
        s,
        block_start::<Q>(d - 1, lo),
        block_start::<Q>(d - 1, lo) + cell_len::<Q>(d - 1),
    )
}

/// Lower bound, at the deepest resolution, of the cell.
pub open spec fn cell_lo<Q: MocQty<u64>>(c: Cell) -> int {
    c.idx * cell_len::<Q>(c.depth as int)
}

/// `x` (at the deepest resolution) lies in the cell.
pub open spec fn cell_has<Q: MocQty<u64>>(c: Cell, x: int) -> bool {
    cell_lo::<Q>(c) <= x < cell_lo::<Q>(c) + cell_len::<Q>(c.depth as int)
}

/// `x` lies in one of the cells.
pub open spec fn cells_has<Q: MocQty<u64>>(cs: Seq<Cell>, x: int) -> bool {
    exists|j: int| 0 <= j < cs.len() && #[trigger] cell_has::<Q>(cs[j], x)
}

/// The cell `(d, lo)` fits in `[.., b[` at position `lo`.
pub open spec fn fits<Q: MocQty<u64>>(lo: int, b: int, d: int) -> bool {
    aligned_at::<Q>(lo, d) && lo + cell_len::<Q>(d) <= b
}

/// Length of the cells of depth `d` at the deepest resolution.
pub fn cell_len_u64<Q: MocQty<u64>>(d: u8) -> (r: u64)
    requires
        d <= Q::MAX_DEPTH,
    ensures
        r == cell_len::<Q>(d as int),
        0 < r <= pow2(61),
{
    let shift = Q::shift_from_depth_max(d);
    proof {
        Q::lemma_qty();
        lemma_cell_len::<Q>(d as int, d as int);
        assert((Q::MAX_DEPTH - d) * Q::DIM <= Q::MAX_SHIFT) by (nonlinear_arith)
            requires
                d <= Q::MAX_DEPTH,
                Q::MAX_SHIFT == Q::DIM * Q::MAX_DEPTH,
                Q::DIM >= 1,
        ;
        if shift < 61 {
            lemma_pow2_strictly_increases(shift as nat, 61);
        }
        lemma2_to64_rest();
        lemma_u64_shl_is_mul(1, shift as u64);
    }
    1u64 << (shift as u64)
}

/// Two cells sharing a value are nested: the deeper one lies in the other one.
pub proof fn lemma_nested<Q: MocQty<u64>>(d1: int, lo1: int, d2: int, lo2: int, x: int)
    requires
        0 <= d2 <= d1 <= Q::MAX_DEPTH,
        aligned_at::<Q>(lo1, d1),
        aligned_at::<Q>(lo2, d2),
        lo1 <= x < lo1 + cell_len::<Q>(d1),
        lo2 <= x < lo2 + cell_len::<Q>(d2),
    ensures
        lo2 <= lo1,
        lo1 + cell_len::<Q>(d1) <= lo2 + cell_len::<Q>(d2),
{
    let l1 = cell_len::<Q>(d1);
    let l2 = cell_len::<Q>(d2);
    lemma_cell_len::<Q>(d2, d1);
    lemma_aligned_deeper::<Q>(lo2, d2, d1);
    lemma_mod_adds(lo2, l2, l1);
    lemma_fundamental_div_mod(lo1, l1);
    lemma_mul_is_commutative(l1, lo1 / l1);
    lemma_div_char(x, l1, lo1 / l1);
    lemma_aligned_le(lo2, x, l1);
    lemma_aligned_gt(lo2 + l2, x, l1);
}

/// The cell of depth `d` holding `x` starts at `block_start(d, x)` and is aligned.
pub proof fn lemma_block_start<Q: MocQty<u64>>(d: int, x: int)
    requires
        0 <= d <= Q::MAX_DEPTH,
        0 <= x,
    ensures
        aligned_at::<Q>(block_start::<Q>(d, x), d),
        0 <= block_start::<Q>(d, x) <= x < block_start::<Q>(d, x) + cell_len::<Q>(d),
{
    let l = cell_len::<Q>(d);
    lemma_cell_len::<Q>(d, d);
    crate::arith::lemma_block_bounds(x, l);
    lemma_mod_multiples_basic(x / l, l);
    lemma_div_pos_is_pos(x, l);
    lemma_mul_nonnegative(x / l, l);
}

/// No cell aligned on its depth that starts in `[a, p[` and ends after `p` fits in `[a, b[`.
pub open spec fn no_straddle<Q: MocQty<u64>>(a: int, b: int, p: int) -> bool {
    forall|d: int, lo: int|
        0 <= d <= Q::MAX_DEPTH && #[trigger] aligned_at::<Q>(lo, d) && a <= lo < p && p < lo + cell_len::<Q>(d)
            ==> lo + cell_len::<Q>(d) > b
}

/// One step of the greedy decomposition of the range `s[kk] == [a, b[`: at `p`, the cell of
/// smallest depth that fits is a cell of the MOC, it is the only cell of the MOC starting in it,
/// and no cell straddles its end.
pub proof fn lemma_greedy_step<Q: MocQty<u64>>(
    s: Seq<Range<u64>>,
    kk: int,
    p: int,
    d: int,
    dmax: int,
)
    requires
        sno(s),
        0 <= kk < s.len(),
        0 <= dmax <= Q::MAX_DEPTH,
        s[kk].start <= p < s[kk].end,
        0 <= d <= dmax,
        fits::<Q>(p, s[kk].end as int, d),
        forall|e: int| 0 <= e < d ==> !#[trigger] fits::<Q>(p, s[kk].end as int, e),
        no_straddle::<Q>(s[kk].start as int, s[kk].end as int, p),
    ensures
        is_moc_cell::<Q>(s, dmax, d, p),
        no_straddle::<Q>(s[kk].start as int, s[kk].end as int, p + cell_len::<Q>(d)),
        forall|e: int, lo: int|
            #![trigger is_moc_cell::<Q>(s, dmax, e, lo)]
            is_moc_cell::<Q>(s, dmax, e, lo) && p <= lo < p + cell_len::<Q>(d) ==> e == d && lo == p,
{
    let a = s[kk].start as int;
    let b = s[kk].end as int;
    let l = cell_len::<Q>(d);
    let p2 = p + l;
    lemma_cell_len::<Q>(d, d);
    assert(block_in(s, p, p + l)) by {
        assert(s[kk].start <= p && p + l <= s[kk].end);
    }
    if d > 0 {
        let plo = block_start::<Q>(d - 1, p);
        let phi = plo + cell_len::<Q>(d - 1);
        lemma_block_start::<Q>(d - 1, p);
        if block_in(s, plo, phi) {
            let k = choose|k: int| 0 <= k < s.len() && (#[trigger] s[k]).start <= plo && phi <= s[k].end;
            if k < kk {
                assert(s[k].end < s[kk].start);
            } else if k > kk {
                assert(s[kk].end < s[k].start);
            }
            if plo == p {
                assert(fits::<Q>(p, b, d - 1));
            } else {
                assert(aligned_at::<Q>(plo, d - 1));
            }
        }
    }
    assert forall|e: int, lo: int|
        0 <= e <= Q::MAX_DEPTH && #[trigger] aligned_at::<Q>(lo, e) && a <= lo < p2 && p2 < lo + cell_len::<Q>(e)
        implies lo + cell_len::<Q>(e) > b by {
        if lo + cell_len::<Q>(e) <= b {
            if lo < p {
            } else if e >= d {
                lemma_nested::<Q>(e, lo, d, p, lo);
            } else {
                lemma_nested::<Q>(d, p, e, lo, lo);
                assert(fits::<Q>(p, b, e));
            }
        }
    }
    assert forall|e: int, lo: int|
        #![trigger is_moc_cell::<Q>(s, dmax, e, lo)]
        is_moc_cell::<Q>(s, dmax, e, lo) && p <= lo < p2 implies e == d && lo == p by {
        lemma_cell_len::<Q>(e, e);
        if e >= d {
            lemma_nested::<Q>(e, lo, d, p, lo);
            if e > d {
                let plo = block_start::<Q>(e - 1, lo);
                lemma_block_start::<Q>(e - 1, lo);
                lemma_nested::<Q>(e - 1, plo, d, p, lo);
                assert(s[kk].start <= plo && plo + cell_len::<Q>(e - 1) <= s[kk].end);
                assert(block_in(s, plo, plo + cell_len::<Q>(e - 1)));
            }
        } else {
            lemma_nested::<Q>(d, p, e, lo, lo);
            let k = choose|k: int| 0 <= k < s.len() && (#[trigger] s[k]).start <= lo && lo + cell_len::<Q>(e) <= s[k].end;
            if k < kk {
                assert(s[k].end < s[kk].start);
            } else if k > kk {
                assert(s[kk].end < s[k].start);
            }
            assert(fits::<Q>(p, b, e));
        }
    }
}

/// All the values of `[lo, hi[` are in the set `f`.
pub open spec fn covers(f: spec_fn(int) -> bool, lo: int, hi: int) -> bool {
    forall|x: int| lo <= x < hi ==> #[trigger] f(x)
}

/// The cell of depth `d` starting at `lo` is a cell of the set `f` seen as a MOC of depth
/// `dmax`: it is included in the set while its parent cell is not.
pub open spec fn is_cell_of<Q: MocQty<u64>>(f: spec_fn(int) -> bool, dmax: int, d: int, lo: int) -> bool {
    &&& 0 <= d <= dmax
    &&& 0 <= lo
    &&& aligned_at::<Q>(lo, d)
    &&& covers(f, lo, lo + cell_len::<Q>(d))
    &&& d > 0 ==> !covers(f, block_start::<Q>(d - 1, lo), block_start::<Q>(d - 1, lo) + cell_len::<Q>(d - 1))
}

/// For canonical ranges, lying in one range is being covered.
pub proof fn lemma_block_in_covers(s: Seq<Range<u64>>, f: spec_fn(int) -> bool, lo: int, hi: int)
    requires
        sno(s),
        lo < hi,
        forall|x: int| #[trigger] f(x) == seq_has(s, x),
    ensures
        block_in(s, lo, hi) <==> covers(f, lo, hi),
{
    if block_in(s, lo, hi) {
        let k = choose|k: int| 0 <= k < s.len() && (#[trigger] s[k]).start <= lo && hi <= s[k].end;
        assert forall|x: int| lo <= x < hi implies #[trigger] f(x) by {
            assert(range_has(s[k], x));
        }
    }
    if covers(f, lo, hi) {
        assert(f(lo));
        let k = choose|k: int| 0 <= k < s.len() && #[trigger] range_has(s[k], lo);
        if s[k].end < hi {
            assert(f(s[k].end as int));
            let k2 = choose|k2: int| 0 <= k2 < s.len() && #[trigger] range_has(s[k2], s[k].end as int);
            if k2 < k {
                assert(s[k2].end < s[k].start);
            } else if k2 > k {
                assert(s[k].end < s[k2].start);
            }
        }
        assert(s[k].start <= lo && hi <= s[k].end);
    }
}

/// For canonical ranges, the cells of the MOC are the cells of the set of values it covers.
pub proof fn lemma_moc_cell_set<Q: MocQty<u64>>(s: Seq<Range<u64>>, f: spec_fn(int) -> bool, dmax: int, d: int, lo: int)
    requires
        sno(s),
        forall|x: int| #[trigger] f(x) == seq_has(s, x),
        0 <= d <= Q::MAX_DEPTH,
    ensures
        is_moc_cell::<Q>(s, dmax, d, lo) <==> is_cell_of::<Q>(f, dmax, d, lo),
{
    lemma_cell_len::<Q>(d, d);
    lemma_block_in_covers(s, f, lo, lo + cell_len::<Q>(d));
    if d > 0 {
        lemma_cell_len::<Q>(d - 1, d - 1);
        let b = block_start::<Q>(d - 1, lo);
        lemma_block_in_covers(s, f, b, b + cell_len::<Q>(d - 1));
    }
}

/// The number of cells of depth `d` times their length is the size of the quantity domain.
pub proof fn lemma_n_cells_len<Q: MocQty<u64>>(d: int)
    requires
        0 <= d <= Q::MAX_DEPTH,
    ensures
        Q::N_D0_CELLS * pow2((d * Q::DIM) as nat) * cell_len::<Q>(d) == Q::spec_n_cells_max(),
{
    Q::lemma_qty();
    let e1 = (d * Q::DIM) as nat;
    let e2 = ((Q::MAX_DEPTH - d) * Q::DIM) as nat;
    assert(e1 + e2 == Q::MAX_SHIFT) by (nonlinear_arith)
        requires
            e1 == d * Q::DIM,
            e2 == (Q::MAX_DEPTH - d) * Q::DIM,
            Q::MAX_SHIFT == Q::DIM * Q::MAX_DEPTH,
            0 <= d <= Q::MAX_DEPTH,
    ;
    lemma_pow2_adds(e1, e2);
    lemma_mul_is_associative(Q::N_D0_CELLS as int, pow2(e1) as int, pow2(e2) as int);
}

/// A cell of depth `d` ending within the domain has an index lower than the number of cells.
pub proof fn lemma_cell_idx_bound<Q: MocQty<u64>>(d: int, idx: int)
    requires
        0 <= d <= Q::MAX_DEPTH,
        0 <= idx,
        (idx + 1) * cell_len::<Q>(d) <= Q::spec_n_cells_max(),
    ensures
        idx < Q::N_D0_CELLS * pow2((d * Q::DIM) as nat),
{
    lemma_n_cells_len::<Q>(d);
    lemma_cell_len::<Q>(d, d);
    let nc = Q::N_D0_CELLS * pow2((d * Q::DIM) as nat);
    if idx + 1 > nc {
        lemma_mul_strict_inequality(nc as int, idx + 1, cell_len::<Q>(d));
    }
}

/// Membership after pushing a cell.
pub proof fn lemma_cells_has_push<Q: MocQty<u64>>(cs: Seq<Cell>, c: Cell)
    ensures
        forall|x: int| #[trigger] cells_has::<Q>(cs.push(c), x) <==> (cells_has::<Q>(cs, x) || cell_has::<Q>(c, x)),
{
    let t = cs.push(c);
    assert forall|x: int| #[trigger] cells_has::<Q>(t, x) <==> (cells_has::<Q>(cs, x) || cell_has::<Q>(c, x)) by {
        if cells_has::<Q>(t, x) {
            let j = choose|j: int| 0 <= j < t.len() && #[trigger] cell_has::<Q>(t[j], x);
            if j < cs.len() {
                assert(cell_has::<Q>(cs[j], x));
            }
        }
        if cells_has::<Q>(cs, x) {
            let j = choose|j: int| 0 <= j < cs.len() && #[trigger] cell_has::<Q>(cs[j], x);
            assert(cell_has::<Q>(t[j], x));
        }
        if cell_has::<Q>(c, x) {
            assert(cell_has::<Q>(t[cs.len() as int], x));
        }
    }
}

/// The range `k` of `s` holds `x`, for some `k < n`.
pub open spec fn in_first_ranges(s: Seq<Range<u64>>, n: int, x: int) -> bool {
    exists|k: int| 0 <= k < n && #[trigger] range_has(s[k], x)
}

impl<Q: MocQty<u64>> RangeMOC<u64, Q> {
    /// The cells of the MOC, ordered by their lower bound: each range is split into the largest
    /// cells it holds, from its lower bound.
    pub fn cells(&self) -> (res: Vec<Cell>)
        requires
            self.wf(),
        ensures
            forall|j: int|
                0 <= j < res@.len() ==> is_moc_cell::<Q>(
                    self.rs(),
                    self.depth() as int,
                    (#[trigger] res@[j]).depth as int,
                    cell_lo::<Q>(res@[j]),
                ),
            forall|d: int, lo: int|
                #[trigger] is_moc_cell::<Q>(self.rs(), self.depth() as int, d, lo) ==> exists|j: int|
                    0 <= j < res@.len() && (#[trigger] res@[j]).depth == d && cell_lo::<Q>(res@[j]) == lo,
            forall|i: int, j: int|
                0 <= i < j < res@.len() ==> cell_lo::<Q>(#[trigger] res@[i]) + cell_len::<Q>(res@[i].depth as int)
                    <= cell_lo::<Q>(#[trigger] res@[j]),
            forall|x: int| #[trigger] cells_has::<Q>(res@, x) <==> self.has(x),
    {
        let s = &self.moc_ranges().0;
        let n = s.len();
        let dmax = self.depth_max();
        let ghost sq = self.rs();
        let ghost m = Q::spec_n_cells_max();
        let mut out: Vec<Cell> = Vec::new();
        let ghost mut los: Seq<int> = Seq::empty();
        proof {
            Q::lemma_qty();
            lemma_cell_len::<Q>(dmax as int, dmax as int);
        }
        let mut k: usize = 0;
        while k < n
            invariant
                s@ == sq,
                sq == self.rs(),
                self.wf(),
                n == sq.len(),
                dmax == self.depth(),
                m == Q::spec_n_cells_max(),
                0 < m < pow2(63),
                k <= n,
                out@.len() == los.len(),
                forall|j: int| 0 <= j < los.len() ==> #[trigger] los[j] == cell_lo::<Q>(out@[j]),
                forall|j: int|
                    0 <= j < out@.len() ==> is_moc_cell::<Q>(sq, dmax as int, (#[trigger] out@[j]).depth as int, los[j]),
                forall|d: int, lo: int|
                    #[trigger] is_moc_cell::<Q>(sq, dmax as int, d, lo) && in_first_ranges(sq, k as int, lo) ==> exists|j: int|
                        0 <= j < out@.len() && (#[trigger] out@[j]).depth == d && los[j] == lo,
                forall|i: int, j: int|
                    0 <= i < j < out@.len() ==> #[trigger] los[i] + cell_len::<Q>(out@[i].depth as int) <= #[trigger] los[j],
                forall|j: int|
                    0 <= j < out@.len() ==> #[trigger] los[j] + cell_len::<Q>(out@[j].depth as int) <= (if k > 0 {
                        sq[k - 1].end as int
                    } else {
                        0
                    }),
                forall|x: int| #[trigger] cells_has::<Q>(out@, x) <==> in_first_ranges(sq, k as int, x),
            decreases n - k,
        {
            let a = s[k].start;
            let b = s[k].end;
            let mut p = a;
            proof {
                assert(sq[k as int].start < sq[k as int].end);
                assert(sq[k as int].end <= m);
                assert(aligned_at::<Q>(a as int, dmax as int));
                if k > 0 {
                    assert(sq[k - 1].end < sq[k as int].start);
                }
            }
            while p < b
                invariant
                    s@ == sq,
                    sq == self.rs(),
                    self.wf(),
                    n == sq.len(),
                    dmax == self.depth(),
                    m == Q::spec_n_cells_max(),
                    0 < m < pow2(63),
                    k < n,
                    a == sq[k as int].start,
                    b == sq[k as int].end,
                    a < b <= m,
                    aligned_at::<Q>(b as int, dmax as int),
                    a <= p <= b,
                    aligned_at::<Q>(p as int, dmax as int),
                    no_straddle::<Q>(a as int, b as int, p as int),
                    out@.len() == los.len(),
                    forall|j: int| 0 <= j < los.len() ==> #[trigger] los[j] == cell_lo::<Q>(out@[j]),
                    forall|j: int|
                        0 <= j < out@.len() ==> is_moc_cell::<Q>(sq, dmax as int, (#[trigger] out@[j]).depth as int, los[j]),
                    forall|d: int, lo: int|
                        #[trigger] is_moc_cell::<Q>(sq, dmax as int, d, lo) && (in_first_ranges(sq, k as int, lo) || a <= lo < p)
                            ==> exists|j: int| 0 <= j < out@.len() && (#[trigger] out@[j]).depth == d && los[j] == lo,
                    forall|i: int, j: int|
                        0 <= i < j < out@.len() ==> #[trigger] los[i] + cell_len::<Q>(out@[i].depth as int) <= #[trigger] los[j],
                    forall|j: int| 0 <= j < out@.len() ==> #[trigger] los[j] + cell_len::<Q>(out@[j].depth as int) <= p,
                    forall|x: int|
                        #[trigger] cells_has::<Q>(out@, x) <==> (in_first_ranges(sq, k as int, x) || a <= x < p),
                decreases b - p,
            {
                let mut d: u8 = 0;
                let mut l = cell_len_u64::<Q>(0);
                proof {
                    Q::lemma_qty();
                    lemma2_to64_rest();
                    lemma_cell_len::<Q>(0, dmax as int);
                    crate::arith::lemma_aligned_gt(b as int, p as int, cell_len::<Q>(dmax as int));
                    lemma_fundamental_div_mod(p as int, cell_len::<Q>(dmax as int));
                    lemma_mul_is_commutative(cell_len::<Q>(dmax as int), p as int / cell_len::<Q>(dmax as int));
                    assert(fits::<Q>(p as int, b as int, dmax as int));
                }
                while !(p % l == 0 && p + l <= b)
                    invariant
                        dmax <= Q::MAX_DEPTH,
                        d <= dmax,
                        l == cell_len::<Q>(d as int),
                        0 < l <= 0x2000_0000_0000_0000,
                        p < b <= 0x8000_0000_0000_0000,
                        fits::<Q>(p as int, b as int, dmax as int),
                        forall|e: int| 0 <= e < d ==> !#[trigger] fits::<Q>(p as int, b as int, e),
                    decreases dmax - d,
                {
                    proof {
                        assert(!fits::<Q>(p as int, b as int, d as int));
                    }
                    d = d + 1;
                    l = cell_len_u64::<Q>(d);
                    proof {
                        lemma2_to64_rest();
                    }
                }
                proof {
                    assert(fits::<Q>(p as int, b as int, d as int));
                    lemma_greedy_step::<Q>(sq, k as int, p as int, d as int, dmax as int);
                }
                let shift = Q::shift_from_depth_max(d);
                proof {
                    Q::lemma_qty();
                    assert((Q::MAX_DEPTH - d) * Q::DIM <= Q::MAX_SHIFT) by (nonlinear_arith)
                        requires
                            d <= Q::MAX_DEPTH,
                            Q::MAX_SHIFT == Q::DIM * Q::MAX_DEPTH,
                            Q::DIM >= 1,
                    ;
                    lemma_u64_shr_is_div(p, shift as u64);
                    lemma_fundamental_div_mod(p as int, l as int);
                    lemma_mul_is_commutative(l as int, p as int / l as int);
                }
                let c = Cell { depth: d, idx: p >> (shift as u64) };
                let ghost old_out = out@;
                let ghost old_los = los;
                out.push(c);
                proof {
                    assert(cell_lo::<Q>(c) == p);
                    los = los.push(p as int);
                    lemma_cells_has_push::<Q>(old_out, c);
                    assert(out@ == old_out.push(c));
                    assert forall|d2: int, lo: int|
                        #[trigger] is_moc_cell::<Q>(sq, dmax as int, d2, lo) && (in_first_ranges(sq, k as int, lo) || a <= lo < p + l)
                            implies exists|j: int| 0 <= j < out@.len() && (#[trigger] out@[j]).depth == d2 && los[j] == lo by {
                        if in_first_ranges(sq, k as int, lo) || a <= lo < p {
                            let j = choose|j: int| 0 <= j < old_out.len() && (#[trigger] old_out[j]).depth == d2 && old_los[j] == lo;
                            assert(out@[j] == old_out[j]);
                        } else {
                            assert(d2 == d && lo == p);
                            assert(out@[old_out.len() as int] == c);
                        }
                    }
                    lemma_cell_len::<Q>(d as int, dmax as int);
                    lemma_mod_adds(p as int, l as int, cell_len::<Q>(dmax as int));
                }
                p = p + l;
            }
            proof {
                assert forall|x: int| #[trigger] in_first_ranges(sq, k + 1, x) <==> (in_first_ranges(sq, k as int, x) || a <= x < b) by {
                    if in_first_ranges(sq, k + 1, x) {
                        let k2 = choose|k2: int| 0 <= k2 < k + 1 && #[trigger] range_has(sq[k2], x);
                    }
                    if a <= x < b {
                        assert(range_has(sq[k as int], x));
                    }
                    if in_first_ranges(sq, k as int, x) {
                        let k2 = choose|k2: int| 0 <= k2 < k && #[trigger] range_has(sq[k2], x);
                        assert(range_has(sq[k2], x));
                    }
                }
            }
            k = k + 1;
        }
        proof {
            assert forall|x: int| #[trigger] cells_has::<Q>(out@, x) <==> self.has(x) by {
                if in_first_ranges(sq, n as int, x) {
                    let k2 = choose|k2: int| 0 <= k2 < n && #[trigger] range_has(sq[k2], x);
                    assert(seq_has(sq, x));
                }
                if seq_has(sq, x) {
                    let k2 = choose|k2: int| 0 <= k2 < sq.len() && #[trigger] range_has(sq[k2], x);
                    assert(in_first_ranges(sq, n as int, x));
                }
            }
            assert forall|d: int, lo: int|
                #[trigger] is_moc_cell::<Q>(sq, dmax as int, d, lo) implies exists|j: int|
                    0 <= j < out@.len() && (#[trigger] out@[j]).depth == d && cell_lo::<Q>(out@[j]) == lo by {
                lemma_cell_len::<Q>(d, d);
                let k2 = choose|k2: int| 0 <= k2 < sq.len() && (#[trigger] sq[k2]).start <= lo && lo + cell_len::<Q>(d) <= sq[k2].end;
                assert(range_has(sq[k2], lo));
                assert(in_first_ranges(sq, n as int, lo));
                let j = choose|j: int| 0 <= j < out@.len() && (#[trigger] out@[j]).depth == d && los[j] == lo;
            }
        }
        out
    }
}

/// Cells of depth at most `dmax` lying in the domain of the quantity, sorted by lower bound and
/// not overlapping.
pub open spec fn cells_wf<Q: MocQty<u64>>(cs: Seq<Cell>, dmax: int) -> bool {
    &&& 0 <= dmax <= Q::MAX_DEPTH
    &&& forall|j: int|
        0 <= j < cs.len() ==> (#[trigger] cs[j]).depth <= dmax && cell_lo::<Q>(cs[j]) + cell_len::<Q>(cs[j].depth as int)
            <= Q::spec_n_cells_max()
    &&& forall|a: int, b: int|
        0 <= a < b < cs.len() ==> cell_lo::<Q>(#[trigger] cs[a]) + cell_len::<Q>(cs[a].depth as int) <= cell_lo::<Q>(
            #[trigger] cs[b],
        )
}

/// A MOC made of cells.
#[derive(Debug, PartialEq)]
pub struct CellMOC<T, Q> {
    depth_max: u8,
    cells: Vec<Cell>,
    idx: PhantomData<T>,
    qty: PhantomData<Q>,
}

impl<Q: MocQty<u64>> RangeMOC<u64, Q> {
    /// The indices of the cells of depth `depth_max` of the MOC, in increasing order.
    pub fn flatten_to_fixed_depth_cells(&self) -> (r: Vec<u64>)
        requires
            self.wf(),
        ensures
            forall|i: int, j: int| 0 <= i < j < r@.len() ==> r@[i] < r@[j],
            forall|x: int| #[trigger] self.has(x) <==> (0 <= x && exists|j: int|
                0 <= j < r@.len() && #[trigger] r@[j] == x / cell_len::<Q>(self.depth() as int)),
    {
        let p = cell_len_u64::<Q>(self.depth_max());
        let ghost pi = p as int;
        let rs = &self.moc_ranges().0;
        let n = rs.len();
        let mut r: Vec<u64> = Vec::new();
        let ghost mut last_end: int = 0;
        let mut i: usize = 0;
        while i < n
            invariant
                self.wf(),
                rs@ == self.rs(),
                n == rs@.len(),
                i <= n,
                pi == p,
                p == cell_len::<Q>(self.depth() as int),
                p > 0,
                0 <= last_end,
                i < n ==> last_end <= rs@[i as int].start,
                last_end % pi == 0,
                forall|j: int| 0 <= j < r@.len() ==> (#[trigger] r@[j]) < last_end / pi,
                forall|a: int, b: int| 0 <= a < b < r@.len() ==> r@[a] < r@[b],
                forall|x: int| #[trigger] seq_has(rs@.take(i as int), x) <==> (0 <= x && exists|j: int|
                    0 <= j < r@.len() && #[trigger] r@[j] == x / pi),
            decreases n - i,
        {
            let a = rs[i].start / p;
            let b = rs[i].end / p;
            let ghost ri = rs@[i as int];
            proof {
                assert(ri.start as int % pi == 0 && ri.end as int % pi == 0);
                assert(ri.start < ri.end);
                lemma_fundamental_div_mod(ri.start as int, pi);
                lemma_fundamental_div_mod(ri.end as int, pi);
                lemma_fundamental_div_mod(last_end, pi);
                lemma_mul_is_commutative(pi, a as int);
                lemma_mul_is_commutative(pi, b as int);
                lemma_mul_is_commutative(pi, last_end / pi);
                if b <= a {
                    lemma_mul_inequality(b as int, a as int, pi);
                }
                if a < last_end / pi {
                    lemma_mul_inequality(a as int + 1, last_end / pi, pi);
                    lemma_mul_is_distributive_add_other_way(pi, a as int, 1);
                }
            }
            let ghost r0 = r@;
            let mut c = a;
            while c < b
                invariant
                    a <= c <= b,
                    pi > 0,
                    a as int * pi == ri.start,
                    b as int * pi == ri.end,
                    last_end / pi <= a,
                    forall|j: int| 0 <= j < r0.len() ==> (#[trigger] r0[j]) < last_end / pi,
                    forall|u: int, v: int| 0 <= u < v < r0.len() ==> r0[u] < r0[v],
                    r@.len() == r0.len() + (c - a),
                    forall|j: int| 0 <= j < r0.len() ==> #[trigger] r@[j] == r0[j],
                    forall|j: int| r0.len() <= j < r@.len() ==> #[trigger] r@[j] == a + (j - r0.len()),
                decreases b - c,
            {
                r.push(c);
                c = c + 1;
            }
            proof {
                let t0 = rs@.take(i as int);
                let t1 = rs@.take(i + 1);
                assert forall|u: int, v: int| 0 <= u < v < r@.len() implies r@[u] < r@[v] by {
                    if u < r0.len() && v >= r0.len() {
                        assert(r0[u] < last_end / pi);
                    } else if u < r0.len() {
                        assert(r0[u] < r0[v]);
                    }
                }
                assert forall|x: int| #[trigger] seq_has(t1, x) <==> (0 <= x && exists|j: int|
                    0 <= j < r@.len() && #[trigger] r@[j] == x / pi) by {
                    if 0 <= x {
                        lemma_div_char(x, pi, x / pi);
                        lemma_mul_is_distributive_add_other_way(pi, x / pi, 1);
                        lemma_mul_is_commutative(pi, x / pi);
                        if a <= x / pi {
                            lemma_mul_inequality(a as int, x / pi, pi);
                        } else {
                            lemma_mul_inequality(x / pi + 1, a as int, pi);
                        }
                        if x / pi < b {
                            lemma_mul_inequality(x / pi + 1, b as int, pi);
                        } else {
                            lemma_mul_inequality(b as int, x / pi, pi);
                        }
                    }
                    if seq_has(t1, x) {
                        let k = choose|k: int| 0 <= k < t1.len() && #[trigger] range_has(t1[k], x);
                        if k < i {
                            assert(range_has(t0[k], x));
                            assert(seq_has(t0, x));
                            let j = choose|j: int| 0 <= j < r0.len() && #[trigger] r0[j] == x / pi;
                            assert(r@[j] == x / pi);
                        } else {
                            assert(r@[r0.len() + (x / pi - a)] == x / pi);
                        }
                    }
                    if 0 <= x && exists|j: int| 0 <= j < r@.len() && #[trigger] r@[j] == x / pi {
                        let j = choose|j: int| 0 <= j < r@.len() && #[trigger] r@[j] == x / pi;
                        if j < r0.len() {
                            assert(r0[j] == x / pi);
                            assert(seq_has(t0, x));
                            let k = choose|k: int| 0 <= k < t0.len() && #[trigger] range_has(t0[k], x);
                            assert(range_has(t1[k], x));
                        } else {
                            assert(range_has(t1[i as int], x));
                        }
                    }
                }
                lemma_mod_multiples_basic(b as int, pi);
                lemma_div_multiples_vanish(b as int, pi);
                lemma_mul_is_commutative(b as int, pi);
                if i + 1 < n {
                    assert(rs@[i as int].end < rs@[i + 1].start);
                }
                last_end = ri.end as int;
            }
            i = i + 1;
        }
        proof {
            assert(rs@.take(n as int) =~= rs@);
        }
        r
    }
}

impl<Q: MocQty<u64>> CellMOC<u64, Q> {
    /// Depth of the MOC.
    pub closed spec fn depth(&self) -> u8 {
        self.depth_max
    }

    /// Cells of the MOC.
    pub closed spec fn cs(&self) -> Seq<Cell> {
        self.cells@
    }

    pub open spec fn wf(&self) -> bool {
        cells_wf::<Q>(self.cs(), self.depth() as int)
    }

    /// The cells must be sorted, not overlapping, of depth at most `depth_max`.
    pub fn new(depth_max: u8, cells: Vec<Cell>) -> (r: Self)
        ensures
            r.depth() == depth_max,
            r.cs() == cells@,
    {
        CellMOC { depth_max, cells, idx: PhantomData, qty: PhantomData }
    }

    pub fn depth_max(&self) -> (r: u8)
        ensures
            r == self.depth(),
    {
        self.depth_max
    }

    /// Number of cells.
    pub fn len(&self) -> (r: usize)
        ensures
            r == self.cs().len(),
    {
        self.cells.len()
    }

    pub fn is_empty(&self) -> (r: bool)
        ensures
            r == (self.cs().len() == 0),
    {
        self.cells.len() == 0
    }

    /// Borrows the cells.
    pub fn cells(&self) -> (r: &Vec<Cell>)
        ensures
            r@ == self.cs(),
    {
        &self.cells
    }

    /// The MOC of the ranges covered by the cells.
    pub fn to_range_moc(&self) -> (r: RangeMOC<u64, Q>)
        requires
            self.wf(),
        ensures
            r.wf(),
            r.depth() == self.depth(),
            forall|x: int| #[trigger] r.has(x) <==> cells_has::<Q>(self.cs(), x),
    {
        let cs = &self.cells;
        let n = cs.len();
        let dmax = self.depth_max;
        let ghost m = Q::spec_n_cells_max();
        proof {
            Q::lemma_qty();
            lemma2_to64();
            lemma2_to64_rest();
        }
        let mut v: Vec<Range<u64>> = Vec::new();
        let mut j: usize = 0;
        while j < n
            invariant
                cs@ == self.cs(),
                self.wf(),
                dmax == self.depth(),
                m == Q::spec_n_cells_max(),
                m < 0x8000_0000_0000_0000,
                n == cs@.len(),
                j <= n,
                v@.len() == j,
                forall|q: int|
                    0 <= q < j ==> (#[trigger] v@[q]).start == cell_lo::<Q>(cs@[q]) && v@[q].end == cell_lo::<Q>(cs@[q])
                        + cell_len::<Q>(cs@[q].depth as int),
            decreases n - j,
        {
            let c = cs[j];
            proof {
                assert(c == cs@[j as int]);
                assert(c.depth <= dmax);
                lemma_cell_len::<Q>(c.depth as int, c.depth as int);
                lemma_mul_nonnegative(c.idx as int, cell_len::<Q>(c.depth as int));
            }
            let cl = cell_len_u64::<Q>(c.depth);
            let lo = c.idx * cl;
            v.push(Range { start: lo, end: lo + cl });
            j = j + 1;
        }
        proof {
            assert(crate::ranges::all_non_empty(v@)) by {
                assert forall|k: int| 0 <= k < v@.len() implies (#[trigger] v@[k]).start < v@[k].end by {
                    lemma_cell_len::<Q>(cs@[k].depth as int, cs@[k].depth as int);
                }
            }
            assert(crate::ranges::sorted_by_start(v@)) by {
                assert forall|a: int, b: int| 0 <= a < b < v@.len() implies (#[trigger] v@[a]).start <= (#[trigger] v@[b]).start by {
                    lemma_cell_len::<Q>(cs@[a].depth as int, cs@[a].depth as int);
                }
            }
        }
        let ranges = crate::ranges::Ranges::new_from_sorted(v);
        proof {
            let p = cell_len::<Q>(dmax as int);
            lemma_cell_len::<Q>(dmax as int, dmax as int);
            let w = ranges.0@;
            assert forall|x: int| #[trigger] seq_has(w, x) <==> cells_has::<Q>(self.cs(), x) by {
                assert(ranges.has(x) <==> seq_has(v@, x));
                if seq_has(v@, x) {
                    let k = choose|k: int| 0 <= k < v@.len() && #[trigger] range_has(v@[k], x);
                    assert(cell_has::<Q>(cs@[k], x));
                }
                if cells_has::<Q>(self.cs(), x) {
                    let k = choose|k: int| 0 <= k < cs@.len() && #[trigger] cell_has::<Q>(cs@[k], x);
                    assert(range_has(v@[k], x));
                }
            }
            assert(crate::moc::block_closed(w, p)) by {
                assert forall|x: int, y: int|
                    #![trigger seq_has(w, x), seq_has(w, y)]
                    0 <= x && 0 <= y && x / p == y / p implies (seq_has(w, x) <==> seq_has(w, y)) by {
                    lemma_block_start::<Q>(dmax as int, x);
                    lemma_block_start::<Q>(dmax as int, y);
                    let b = block_start::<Q>(dmax as int, x);
                    assert(block_start::<Q>(dmax as int, y) == b);
                    if cells_has::<Q>(self.cs(), x) {
                        let k = choose|k: int| 0 <= k < cs@.len() && #[trigger] cell_has::<Q>(cs@[k], x);
                        lemma_cell_idx_nonneg::<Q>(cs@[k]);
                        lemma_nested::<Q>(dmax as int, b, cs@[k].depth as int, cell_lo::<Q>(cs@[k]), x);
                        assert(cell_has::<Q>(cs@[k], y));
                    }
                    if cells_has::<Q>(self.cs(), y) {
                        let k = choose|k: int| 0 <= k < cs@.len() && #[trigger] cell_has::<Q>(cs@[k], y);
                        lemma_cell_idx_nonneg::<Q>(cs@[k]);
                        lemma_nested::<Q>(dmax as int, b, cs@[k].depth as int, cell_lo::<Q>(cs@[k]), y);
                        assert(cell_has::<Q>(cs@[k], x));
                    }
                }
            }
            assert forall|x: int| x >= m implies !#[trigger] seq_has(w, x) by {
                if cells_has::<Q>(self.cs(), x) {
                    let k = choose|k: int| 0 <= k < cs@.len() && #[trigger] cell_has::<Q>(cs@[k], x);
                }
            }
            crate::moc::lemma_wf_from_sets(w, p, m);
        }
        RangeMOC::new(dmax, ranges)
    }
}

/// The lower bound of a cell is aligned on its depth and non-negative.
pub proof fn lemma_cell_idx_nonneg<Q: MocQty<u64>>(c: Cell)
    requires
        c.depth <= Q::MAX_DEPTH,
    ensures
        cell_lo::<Q>(c) >= 0,
        aligned_at::<Q>(cell_lo::<Q>(c), c.depth as int),
{
    lemma_cell_len::<Q>(c.depth as int, c.depth as int);
    lemma_mul_nonnegative(c.idx as int, cell_len::<Q>(c.depth as int));
    lemma_mod_multiples_basic(c.idx as int, cell_len::<Q>(c.depth as int));
}

} // verus!
