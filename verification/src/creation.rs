//! Creation of MOCs in the store from values at the deepest resolution (times in microseconds
//! since JD=0, frequency or HEALPix cell indices), and filtering of values by a stored MOC.

use std::ops::Range;
use vstd::arithmetic::power2::*;
use vstd::bits::*;
use vstd::prelude::*;
use vstd::string::*;

use crate::builder::{fixed_depth_cells_has, range_degraded_has, ranges_degraded_has, valid_cell, RangeMocBuilder};
use crate::moc::{cell_len, RangeMOC};
use crate::qty::{Frequency, Hpx, MocQty, Time};
use crate::store::{append_decimal, decimal, not_found_text, InternalMoc, U64MocStore};

verus! {

/// Message of the error given for a depth larger than the maximum depth `max`.
pub open spec fn wrong_depth_text(depth: nat, max: nat) -> Seq<char> {
    "Wrong depth. Actual: "@ + decimal(depth) + ". Expected: max "@ + decimal(max)
}

/// The message of the error given for a depth above the maximum, both written in decimal.
fn wrong_depth_msg(depth: u8, max: u8) -> (r: String)
    ensures
        r@ == wrong_depth_text(depth as nat, max as nat),
{
    let mut s = String::from_str("Wrong depth. Actual: ");
    append_decimal(&mut s, depth as u64);
    s.append(". Expected: max ");
    append_decimal(&mut s, max as u64);
    proof {
        assert(s@ =~= wrong_depth_text(depth as nat, max as nat));
    }
    s
}

/// Checks that `depth` is at most the maximum depth of the quantity.
pub fn check_depth<Q: MocQty<u64>>(depth: u8) -> (r: Result<(), String>)
    ensures
        r is Ok <==> depth <= Q::MAX_DEPTH,
        r matches Err(e) ==> e@ == wrong_depth_text(depth as nat, Q::MAX_DEPTH as nat),
{
    if depth > Q::MAX_DEPTH {
        Err(wrong_depth_msg(depth, Q::MAX_DEPTH))
    } else {
        Ok(())
    }
}

/// The cells of depth `depth` holding the given values at the deepest resolution.
fn cells_of_values<Q: MocQty<u64>>(depth: u8, values: &Vec<u64>) -> (cells: Vec<u64>)
    requires
        depth <= Q::MAX_DEPTH,
        forall|k: int| 0 <= k < values@.len() ==> (#[trigger] values@[k]) < Q::spec_n_cells_max(),
    ensures
        cells@.len() == values@.len(),
        forall|k: int| 0 <= k < values@.len() ==> #[trigger] cells@[k] == values@[k] as int / cell_len::<Q>(depth as int),
        forall|k: int| 0 <= k < cells@.len() ==> valid_cell::<Q>((depth, #[trigger] cells@[k])),
{
    let shift = Q::shift_from_depth_max(depth) as u64;
    let ghost p = cell_len::<Q>(depth as int);
    proof {
        Q::lemma_qty();
        crate::moc::lemma_cell_len::<Q>(depth as int, depth as int);
        assert((Q::MAX_DEPTH - depth) * Q::DIM <= Q::MAX_SHIFT) by (nonlinear_arith)
            requires
                depth <= Q::MAX_DEPTH,
                Q::MAX_SHIFT == Q::DIM * Q::MAX_DEPTH,
                Q::DIM >= 1,
        ;
    }
    let n = values.len();
    let mut cells: Vec<u64> = Vec::new();
    let mut i: usize = 0;
    while i < n
        invariant
            n == values@.len(),
            i <= n,
            shift < 63,
            p == pow2(shift as nat),
            p == cell_len::<Q>(depth as int),
            p > 0,
            Q::spec_n_cells_max() % p == 0,
            depth <= Q::MAX_DEPTH,
            forall|k: int| 0 <= k < values@.len() ==> (#[trigger] values@[k]) < Q::spec_n_cells_max(),
            cells@.len() == i,
            forall|k: int| 0 <= k < i ==> #[trigger] cells@[k] == values@[k] as int / p,
            forall|k: int| 0 <= k < i ==> valid_cell::<Q>((depth, #[trigger] cells@[k])),
        decreases n - i,
    {
        let v = values[i];
        proof {
            lemma_u64_shr_is_div(v, shift);
            let c = v as int / p;
            crate::arith::lemma_aligned_gt(Q::spec_n_cells_max(), v as int, p);
            vstd::arithmetic::mul::lemma_mul_is_distributive_add_other_way(p, c, 1);
            vstd::arithmetic::mul::lemma_mul_is_commutative(p, c);
            vstd::arithmetic::mul::lemma_mul_is_commutative(p, c + 1);
        }
        cells.push(v >> shift);
        i = i + 1;
    }
    cells
}

/// `x` lies in a cell of length `p` holding one of the values.
pub open spec fn values_cells_has(values: Seq<u64>, p: int, x: int) -> bool {
    0 <= x && exists|k: int| 0 <= k < values.len() && #[trigger] (values[k] as int / p) == x / p
}

impl RangeMOC<u64, Time<u64>> {
    /// The T-MOC of depth `depth` of the cells holding the given times (in microseconds since
    /// JD=0).
    pub fn from_microsec_since_jd0(depth: u8, usec: Vec<u64>, buf_capacity: Option<usize>) -> (r: Self)
        requires
            depth <= <Time<u64> as MocQty<u64>>::MAX_DEPTH,
            forall|k: int| 0 <= k < usec@.len() ==> (#[trigger] usec@[k]) < <Time<u64> as MocQty<u64>>::spec_n_cells_max(),
        ensures
            r.wf(),
            r.depth() == depth,
            forall|x: int| #[trigger] r.has(x) <==> values_cells_has(usec@, cell_len::<Time<u64>>(depth as int), x),
    {
        let ghost p = cell_len::<Time<u64>>(depth as int);
        let cells = cells_of_values::<Time<u64>>(depth, &usec);
        let ghost cs = cells@;
        let r = RangeMOC::from_fixed_depth_cells(depth, cells, buf_capacity);
        proof {
            assert forall|x: int| #[trigger] r.has(x) <==> values_cells_has(usec@, p, x) by {
                if fixed_depth_cells_has(cs, p, x) {
                    let k = choose|k: int| 0 <= k < cs.len() && #[trigger] cs[k] == x / p;
                    assert(usec@[k] as int / p == x / p);
                }
                if values_cells_has(usec@, p, x) {
                    let k = choose|k: int| 0 <= k < usec@.len() && #[trigger] (usec@[k] as int / p) == x / p;
                    assert(cs[k] == x / p);
                }
            }
        }
        r
    }

    /// The T-MOC of depth `depth` of the given time ranges (in microseconds since JD=0), each
    /// degraded to the depth.
    pub fn from_microsec_ranges_since_jd0(depth: u8, ranges: Vec<Range<u64>>, buf_capacity: Option<usize>) -> (r: Self)
        requires
            depth <= <Time<u64> as MocQty<u64>>::MAX_DEPTH,
            forall|k: int| 0 <= k < ranges@.len() ==> (#[trigger] ranges@[k]).end <= <Time<u64> as MocQty<u64>>::spec_n_cells_max(),
        ensures
            r.wf(),
            r.depth() == depth,
            forall|x: int| #[trigger] r.has(x) <==> ranges_degraded_has(ranges@, cell_len::<Time<u64>>(depth as int), x),
    {
        RangeMOC::from_maxdepth_ranges(depth, ranges, buf_capacity)
    }
}

/// Message of the error given when filtering positions with a MOC that is not a S-MOC.
pub open spec fn not_smoc_filter_text() -> Seq<char> {
    "Can't filter coos on a MOC different from a S-MOC"@
}

/// Message of the error given when filtering times with a MOC that is not a T-MOC.
pub open spec fn not_tmoc_filter_text() -> Seq<char> {
    "Can't filter time on a MOC different from a T-MOC"@
}

/// `1` for `true`, `0` for `false`.
pub open spec fn flag(b: bool) -> u8 {
    if b {
        1
    } else {
        0
    }
}

/// The cell `c` (if any) of the depth of the S-MOC is in the S-MOC.
pub open spec fn smoc_has_cell(m: RangeMOC<u64, Hpx<u64>>, c: Option<u64>) -> bool {
    c matches Some(h) && valid_cell::<Hpx<u64>>((m.depth(), h)) && m.has(h * cell_len::<Hpx<u64>>(m.depth() as int))
}

impl U64MocStore {
    /// Stores the T-MOC of depth `depth` of the cells holding the given times (in microseconds
    /// since JD=0), returning its index.
    pub fn from_microsec_values(&mut self, depth: u8, usec: Vec<u64>) -> (r: Result<usize, String>)
        requires
            old(self).wf(),
            forall|k: int| 0 <= k < usec@.len() ==> (#[trigger] usec@[k]) < <Time<u64> as MocQty<u64>>::spec_n_cells_max(),
        ensures
            final(self).wf(),
            r is Ok <==> depth <= <Time<u64> as MocQty<u64>>::MAX_DEPTH,
            r matches Err(e) ==> e@ == wrong_depth_text(depth as nat, <Time<u64> as MocQty<u64>>::MAX_DEPTH as nat)
                && final(self).entries() == old(self).entries(),
            r matches Ok(k) ==> !old(self).entries().dom().contains(k) && final(self).entries() == old(self).entries().insert(
                k,
                (1u8, final(self).entries()[k].1),
            ) && (final(self).entries()[k].1 matches InternalMoc::Time(m) && m.depth() == depth && forall|x: int|
                #[trigger] m.has(x) <==> values_cells_has(usec@, cell_len::<Time<u64>>(depth as int), x)),
    {
        match check_depth::<Time<u64>>(depth) {
            Err(e) => Err(e),
            Ok(()) => {
                let m = RangeMOC::<u64, Time<u64>>::from_microsec_since_jd0(depth, usec, None);
                Ok(self.add(InternalMoc::Time(m)))
            },
        }
    }

    /// Stores the T-MOC of depth `depth` of the given time ranges (in microseconds since
    /// JD=0), returning its index.
    pub fn from_microsec_ranges(&mut self, depth: u8, ranges: Vec<Range<u64>>) -> (r: Result<usize, String>)
        requires
            old(self).wf(),
            forall|k: int| 0 <= k < ranges@.len() ==> (#[trigger] ranges@[k]).end <= <Time<u64> as MocQty<u64>>::spec_n_cells_max(),
        ensures
            final(self).wf(),
            r is Ok <==> depth <= <Time<u64> as MocQty<u64>>::MAX_DEPTH,
            r matches Err(e) ==> e@ == wrong_depth_text(depth as nat, <Time<u64> as MocQty<u64>>::MAX_DEPTH as nat)
                && final(self).entries() == old(self).entries(),
            r matches Ok(k) ==> !old(self).entries().dom().contains(k) && final(self).entries() == old(self).entries().insert(
                k,
                (1u8, final(self).entries()[k].1),
            ) && (final(self).entries()[k].1 matches InternalMoc::Time(m) && m.depth() == depth && forall|x: int|
                #[trigger] m.has(x) <==> ranges_degraded_has(ranges@, cell_len::<Time<u64>>(depth as int), x)),
    {
        match check_depth::<Time<u64>>(depth) {
            Err(e) => Err(e),
            Ok(()) => {
                let m = RangeMOC::<u64, Time<u64>>::from_microsec_ranges_since_jd0(depth, ranges, None);
                Ok(self.add(InternalMoc::Time(m)))
            },
        }
    }

    /// Stores the F-MOC of depth `depth` of the cells holding the given frequency indices (at
    /// the deepest resolution), returning its index.
    pub fn from_freq_values(&mut self, depth: u8, hashes: Vec<u64>) -> (r: Result<usize, String>)
        requires
            old(self).wf(),
            forall|k: int| 0 <= k < hashes@.len() ==> (#[trigger] hashes@[k]) < <Frequency<u64> as MocQty<u64>>::spec_n_cells_max(),
        ensures
            final(self).wf(),
            r is Ok <==> depth <= <Frequency<u64> as MocQty<u64>>::MAX_DEPTH,
            r matches Err(e) ==> e@ == wrong_depth_text(depth as nat, <Frequency<u64> as MocQty<u64>>::MAX_DEPTH as nat)
                && final(self).entries() == old(self).entries(),
            r matches Ok(k) ==> !old(self).entries().dom().contains(k) && final(self).entries() == old(self).entries().insert(
                k,
                (1u8, final(self).entries()[k].1),
            ) && (final(self).entries()[k].1 matches InternalMoc::Frequency(m) && m.depth() == depth && forall|x: int|
                #[trigger] m.has(x) <==> values_cells_has(hashes@, cell_len::<Frequency<u64>>(depth as int), x)),
    {
        match check_depth::<Frequency<u64>>(depth) {
            Err(e) => Err(e),
            Ok(()) => {
                let ghost p = cell_len::<Frequency<u64>>(depth as int);
                let cells = cells_of_values::<Frequency<u64>>(depth, &hashes);
                let ghost cs = cells@;
                let m = RangeMOC::<u64, Frequency<u64>>::from_fixed_depth_cells(depth, cells, None);
                proof {
                    assert forall|x: int| #[trigger] m.has(x) <==> values_cells_has(hashes@, p, x) by {
                        if fixed_depth_cells_has(cs, p, x) {
                            let k = choose|k: int| 0 <= k < cs.len() && #[trigger] cs[k] == x / p;
                            assert(hashes@[k] as int / p == x / p);
                        }
                        if values_cells_has(hashes@, p, x) {
                            let k = choose|k: int| 0 <= k < hashes@.len() && #[trigger] (hashes@[k] as int / p) == x / p;
                            assert(cs[k] == x / p);
                        }
                    }
                }
                Ok(self.add(InternalMoc::Frequency(m)))
            },
        }
    }

    /// Stores the F-MOC of depth `depth` of the given ranges of frequency indices (at the
    /// deepest resolution), returning its index.
    pub fn from_freq_ranges(&mut self, depth: u8, ranges: Vec<Range<u64>>) -> (r: Result<usize, String>)
        requires
            old(self).wf(),
            forall|k: int| 0 <= k < ranges@.len() ==> (#[trigger] ranges@[k]).end <= <Frequency<u64> as MocQty<u64>>::spec_n_cells_max(),
        ensures
            final(self).wf(),
            r is Ok <==> depth <= <Frequency<u64> as MocQty<u64>>::MAX_DEPTH,
            r matches Err(e) ==> e@ == wrong_depth_text(depth as nat, <Frequency<u64> as MocQty<u64>>::MAX_DEPTH as nat)
                && final(self).entries() == old(self).entries(),
            r matches Ok(k) ==> !old(self).entries().dom().contains(k) && final(self).entries() == old(self).entries().insert(
                k,
                (1u8, final(self).entries()[k].1),
            ) && (final(self).entries()[k].1 matches InternalMoc::Frequency(m) && m.depth() == depth && forall|x: int|
                #[trigger] m.has(x) <==> ranges_degraded_has(ranges@, cell_len::<Frequency<u64>>(depth as int), x)),
    {
        match check_depth::<Frequency<u64>>(depth) {
            Err(e) => Err(e),
            Ok(()) => {
                let m = RangeMOC::<u64, Frequency<u64>>::from_maxdepth_ranges(depth, ranges, None);
                Ok(self.add(InternalMoc::Frequency(m)))
            },
        }
    }

    /// Stores the S-MOC of depth `depth` made of the given HEALPix cells of depth `depth`,
    /// returning its index.
    pub fn from_hpx_cells(&mut self, depth: u8, cells: Vec<u64>) -> (r: Result<usize, String>)
        requires
            old(self).wf(),
            depth <= 29 ==> forall|k: int| 0 <= k < cells@.len() ==> valid_cell::<Hpx<u64>>((depth, #[trigger] cells@[k])),
        ensures
            final(self).wf(),
            r is Ok <==> depth <= <Hpx<u64> as MocQty<u64>>::MAX_DEPTH,
            r matches Err(e) ==> e@ == wrong_depth_text(depth as nat, <Hpx<u64> as MocQty<u64>>::MAX_DEPTH as nat)
                && final(self).entries() == old(self).entries(),
            r matches Ok(k) ==> !old(self).entries().dom().contains(k) && final(self).entries() == old(self).entries().insert(
                k,
                (1u8, final(self).entries()[k].1),
            ) && (final(self).entries()[k].1 matches InternalMoc::Space(m) && m.depth() == depth && forall|x: int|
                #[trigger] m.has(x) <==> fixed_depth_cells_has(cells@, cell_len::<Hpx<u64>>(depth as int), x)),
    {
        proof {
            crate::qty::lemma_hpx_consts();
        }
        match check_depth::<Hpx<u64>>(depth) {
            Err(e) => Err(e),
            Ok(()) => {
                let m = RangeMOC::<u64, Hpx<u64>>::from_fixed_depth_cells(depth, cells, None);
                Ok(self.add(InternalMoc::Space(m)))
            },
        }
    }

    /// For each given cell (of the depth of the S-MOC at the index), `1` if it is in the
    /// S-MOC, else `0` (also for no cell or a cell out of the domain).
    pub fn filter_cells(&self, index: usize, cells: &Vec<Option<u64>>) -> (r: Result<Vec<u8>, String>)
        requires
            self.wf(),
        ensures
            r is Ok <==> self.entries().dom().contains(index) && self.entries()[index].1 is Space,
            match r {
                Err(e) => if !self.entries().dom().contains(index) {
                    e@ == not_found_text(index as nat)
                } else {
                    e@ == not_smoc_filter_text()
                },
                Ok(v) => self.entries()[index].1 matches InternalMoc::Space(m) && v@.len() == cells@.len() && forall|i: int|
                    0 <= i < cells@.len() ==> #[trigger] v@[i] == flag(smoc_has_cell(m, cells@[i])),
            },
    {
        match self.get(index) {
            Err(e) => Err(e),
            Ok(InternalMoc::Space(m)) => {
                proof {
                    assert(self.entries().dom().contains(index));
                }
                Ok(filter_smoc_cells(m, cells))
            },
            Ok(_) => Err("Can't filter coos on a MOC different from a S-MOC".to_owned()),
        }
    }

    /// For each given time (in microseconds since JD=0), `1` if it is in the T-MOC at the
    /// index, else `0`.
    pub fn filter_times(&self, index: usize, usec: &Vec<u64>) -> (r: Result<Vec<u8>, String>)
        requires
            self.wf(),
        ensures
            r is Ok <==> self.entries().dom().contains(index) && self.entries()[index].1 is Time,
            match r {
                Err(e) => if !self.entries().dom().contains(index) {
                    e@ == not_found_text(index as nat)
                } else {
                    e@ == not_tmoc_filter_text()
                },
                Ok(v) => self.entries()[index].1 matches InternalMoc::Time(m) && v@.len() == usec@.len() && forall|i: int|
                    0 <= i < usec@.len() ==> #[trigger] v@[i] == flag(m.has(usec@[i] as int)),
            },
    {
        match self.get(index) {
            Err(e) => Err(e),
            Ok(InternalMoc::Time(m)) => {
                proof {
                    assert(self.entries().dom().contains(index));
                }
                let n = usec.len();
                let mut v: Vec<u8> = Vec::new();
                let mut i: usize = 0;
                while i < n
                    invariant
                        n == usec@.len(),
                        i <= n,
                        m.wf(),
                        v@.len() == i,
                        forall|j: int| 0 <= j < i ==> #[trigger] v@[j] == flag(m.has(usec@[j] as int)),
                    decreases n - i,
                {
                    let b = m.contains_val(&usec[i]);
                    v.push(if b { 1u8 } else { 0u8 });
                    i = i + 1;
                }
                Ok(v)
            },
            Ok(_) => Err("Can't filter time on a MOC different from a T-MOC".to_owned()),
        }
    }
}

/// For each given cell of the depth of the S-MOC, `1` if it is in the S-MOC, else `0`.
fn filter_smoc_cells(m: &RangeMOC<u64, Hpx<u64>>, cells: &Vec<Option<u64>>) -> (v: Vec<u8>)
    requires
        m.wf(),
    ensures
        v@.len() == cells@.len(),
        forall|i: int| 0 <= i < cells@.len() ==> #[trigger] v@[i] == flag(smoc_has_cell(*m, cells@[i])),
{
    let depth = m.depth_max();
    let ncells = Hpx::<u64>::n_cells(depth);
    let ghost p = cell_len::<Hpx<u64>>(depth as int);
    proof {
        crate::qty::lemma_hpx_consts();
        crate::cells::lemma_n_cells_len::<Hpx<u64>>(depth as int);
    }
    let n = cells.len();
    let mut v: Vec<u8> = Vec::new();
    let mut i: usize = 0;
    while i < n
        invariant
            n == cells@.len(),
            i <= n,
            m.wf(),
            depth == m.depth(),
            depth <= 29,
            p == cell_len::<Hpx<u64>>(depth as int),
            ncells == <Hpx<u64> as crate::qty::MocableQty>::N_D0_CELLS * pow2((depth * <Hpx<u64> as crate::qty::MocableQty>::DIM) as nat),
            ncells * p == <Hpx<u64> as MocQty<u64>>::spec_n_cells_max(),
            v@.len() == i,
            forall|j: int| 0 <= j < i ==> #[trigger] v@[j] == flag(smoc_has_cell(*m, cells@[j])),
        decreases n - i,
    {
        let b = match cells[i] {
            Some(h) => {
                if h < ncells {
                    proof {
                        crate::moc::lemma_cell_len::<Hpx<u64>>(depth as int, depth as int);
                        vstd::arithmetic::mul::lemma_mul_inequality(h + 1, ncells as int, p);
                        vstd::arithmetic::mul::lemma_mul_is_distributive_add_other_way(p, h as int, 1);
                        vstd::arithmetic::mul::lemma_mul_is_commutative(p, h as int);
                        vstd::arithmetic::mul::lemma_mul_is_commutative(p, h + 1);
                        Hpx::<u64>::lemma_qty();
                        lemma2_to64();
                        lemma2_to64_rest();
                        assert((h + 1) * p <= ncells * p);
                        assert(valid_cell::<Hpx<u64>>((depth, h)));
                        assert(h * p <= u64::MAX);
                    }
                    m.contains_depth_max_val(&h)
                } else {
                    proof {
                        crate::moc::lemma_cell_len::<Hpx<u64>>(depth as int, depth as int);
                        vstd::arithmetic::mul::lemma_mul_strict_inequality(ncells as int, h + 1, p);
                        assert(!valid_cell::<Hpx<u64>>((depth, h)));
                    }
                    false
                }
            },
            None => false,
        };
        proof {
            assert(b == smoc_has_cell(*m, cells@[i as int]));
        }
        v.push(if b { 1u8 } else { 0u8 });
        i = i + 1;
    }
    v
}

/// `x` lies in a cell (of length `p`) whose index is in one of the ranges of `ranges`.
pub open spec fn depth_ranges_has(ranges: Seq<Range<u64>>, p: int, x: int) -> bool {
    0 <= x && exists|k: int| 0 <= k < ranges.len() && #[trigger] ranges[k].start <= x / p && x / p < ranges[k].end
}

/// The values of the aligned range `[s p, e p[` are those whose cell index lies in `[s, e[`.
proof fn lemma_aligned_range(s: int, e: int, p: int, x: int)
    requires
        p > 0,
        0 <= s,
        0 <= x,
    ensures
        (s * p <= x < e * p) <==> (s <= x / p < e),
{
    let q = x / p;
    let r = x % p;
    vstd::arithmetic::div_mod::lemma_fundamental_div_mod(x, p);
    assert(0 <= r < p);
    assert(x == p * q + r);
    assert((s * p <= x) <==> (s <= q)) by (nonlinear_arith)
        requires
            x == p * q + r,
            0 <= r < p,
            p > 0,
    ;
    assert((x < e * p) <==> (q < e)) by (nonlinear_arith)
        requires
            x == p * q + r,
            0 <= r < p,
            p > 0,
    ;
}

impl RangeMOC<u64, Hpx<u64>> {
    /// The MOC of depth `depth_max` of the ranges of cell indices of depth `depth_max` (the ranges
    /// of a HEALPix BMOC).
    pub fn from_bmoc_ranges(depth_max: u8, ranges: Vec<Range<u64>>) -> (r: Self)
        requires
            depth_max <= 29,
            forall|k: int| 0 <= k < ranges@.len() ==> (#[trigger] ranges@[k]).end * cell_len::<Hpx<u64>>(depth_max as int) <= Hpx::<u64>::spec_n_cells_max(),
        ensures
            r.wf(),
            r.depth() == depth_max,
            forall|x: int| #[trigger] r.has(x) <==> depth_ranges_has(ranges@, cell_len::<Hpx<u64>>(depth_max as int), x),
    {
        let ghost p = cell_len::<Hpx<u64>>(depth_max as int);
        proof {
            crate::qty::lemma_hpx_consts();
        }
        let shift = Hpx::<u64>::shift_from_depth_max(depth_max) as u64;
        let mut builder = RangeMocBuilder::<u64, Hpx<u64>>::new(depth_max, None);
        proof {
            Hpx::<u64>::lemma_qty();
            lemma2_to64();
            lemma2_to64_rest();
            crate::moc::lemma_cell_len::<Hpx<u64>>(depth_max as int, depth_max as int);
            assert(p == pow2(shift as nat));
        }
        let n = ranges.len();
        let mut i: usize = 0;
        while i < n
            invariant
                n == ranges@.len(),
                i <= n,
                depth_max <= 29,
                p == cell_len::<Hpx<u64>>(depth_max as int),
                p == pow2(shift as nat),
                p > 0,
                shift < 64,
                Hpx::<u64>::spec_n_cells_max() < pow2(63),
                builder.wf(),
                builder.spec_depth() == depth_max,
                builder.p() == p,
                forall|k: int| 0 <= k < ranges@.len() ==> (#[trigger] ranges@[k]).end * p <= Hpx::<u64>::spec_n_cells_max(),
                forall|x: int| #[trigger] builder.has(x) <==> depth_ranges_has(ranges@.take(i as int), p, x),
            decreases n - i,
        {
            let a = ranges[i].start;
            let b = ranges[i].end;
            proof {
                lemma2_to64_rest();
                assert(b * p <= Hpx::<u64>::spec_n_cells_max());
                vstd::arithmetic::mul::lemma_mul_nonnegative(b as int, p);
                if a <= b {
                    vstd::arithmetic::mul::lemma_mul_inequality(a as int, b as int, p);
                }
                lemma_u64_shl_is_mul(b, shift);
                if a <= b {
                    lemma_u64_shl_is_mul(a, shift);
                }
            }
            let range = if a < b { Range { start: a << shift, end: b << shift } } else { Range { start: 0, end: 0 } };
            let ghost b_old = builder;
            builder.push(range);
            proof {
                let t1 = ranges@.take(i + 1);
                let t0 = ranges@.take(i as int);
                assert forall|x: int| #[trigger] builder.has(x) <==> depth_ranges_has(t1, p, x) by {
                    assert(builder.has(x) <==> (b_old.has(x) || range_degraded_has(range, p, x)));
                    if a < b && 0 <= x {
                        lemma_aligned_range(a as int, b as int, p, x);
                        if range_degraded_has(range, p, x) {
                            let y = choose|y: int| range.start <= y < range.end && #[trigger] (y / p) == x / p;
                            lemma_aligned_range(a as int, b as int, p, y);
                        }
                        if a <= x / p < b {
                            assert(x / p == x / p);
                            let y = x;
                            assert(range.start <= y < range.end);
                            assert(range_degraded_has(range, p, x));
                        }
                    }
                    if depth_ranges_has(t1, p, x) {
                        let k = choose|k: int| 0 <= k < t1.len() && #[trigger] t1[k].start <= x / p && x / p < t1[k].end;
                        if k < i {
                            assert(t0[k].start <= x / p);
                        }
                    }
                    if depth_ranges_has(t0, p, x) {
                        let k = choose|k: int| 0 <= k < t0.len() && #[trigger] t0[k].start <= x / p && x / p < t0[k].end;
                        assert(t1[k].start <= x / p);
                    }
                    if 0 <= x && a <= x / p < b {
                        assert(t1[i as int].start <= x / p);
                    }
                }
            }
            i += 1;
        }
        proof {
            assert(ranges@.take(n as int) =~= ranges@);
        }
        builder.into_moc()
    }
}

} // verus!
