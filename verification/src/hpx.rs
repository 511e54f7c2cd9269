//! Operations on spatial (HEALPix) MOCs relying on the neighbourhood of HEALPix cells.

use std::ops::Range;
use vstd::arithmetic::div_mod::*;
use vstd::arithmetic::mul::*;
use vstd::arithmetic::power2::*;
use vstd::prelude::*;

use crate::arith::{lemma_block_bounds, lemma_div_char};
use crate::cells::{
    cell_len_u64, cell_lo, is_cell_of, is_moc_cell, lemma_cell_idx_bound, lemma_moc_cell_set,
    lemma_n_cells_len, Cell,
};
use crate::moc::{aligned, block_closed, cell_len, ends_le, lemma_aligned_block_closed, lemma_cell_len, lemma_wf_from_sets, RangeMOC};
use crate::qty::{Hpx, MocQty};
use crate::builder::{cell_range, cell_to_range, valid_cell};
use crate::ranges::{lemma_has_intro, lemma_has_push, range_has, seq_has, sno, Ranges};

verus! {

/// The cells of depth `depth + delta_depth` appended by
/// `cdshealpix::nested::append_external_edge(depth, hash, delta_depth, ..)`.
pub uninterp spec fn hpx_external_edge(depth: u8, hash: u64, delta_depth: u8) -> Seq<u64>;

/// Calls `cdshealpix::nested::append_external_edge`, which appends to `dest` the cells of depth
/// `depth + delta_depth` surrounding the cell `hash` of depth `depth` (the cells outside it
/// sharing an edge or a vertex with it). The contract states that the cells are appended, after
/// the values already in `dest`, and names the appended list, which depends on the arguments
/// alone; which cells it holds is not stated. The function panics on a hash not lower than
/// `12 * 4^depth`.
#[verifier::external_body]
pub(crate) fn append_external_edge(depth: u8, hash: u64, delta_depth: u8, dest: &mut Vec<u64>)
    requires
        depth as int + delta_depth as int <= 29,
        (hash as int) < 12 * pow2((2 * depth) as nat),
    ensures
        final(dest)@ == old(dest)@ + hpx_external_edge(depth, hash, delta_depth),
{
    cdshealpix::nested::append_external_edge(depth, hash, delta_depth, dest)
}

/// The cells of depth `dmax` surrounding the cell of depth `d` starting at `lo`.
pub open spec fn edge_of(d: int, lo: int, dmax: int) -> Seq<u64> {
    hpx_external_edge(d as u8, (lo / cell_len::<Hpx<u64>>(d)) as u64, (dmax - d) as u8)
}

/// `x` lies in the domain, in a cell of depth `dmax` surrounding a cell of the set `f` seen
/// as a MOC of depth `dmax`.
pub open spec fn in_ext_edge(f: spec_fn(int) -> bool, dmax: int, x: int) -> bool {
    &&& 0 <= x < <Hpx<u64> as MocQty<u64>>::spec_n_cells_max()
    &&& exists|d: int, lo: int|
        #[trigger] is_cell_of::<Hpx<u64>>(f, dmax, d, lo) && edge_of(d, lo, dmax).contains(
            (x / cell_len::<Hpx<u64>>(dmax)) as u64,
        )
}

impl RangeMOC<u64, Hpx<u64>> {
    /// The MOC, at the same depth, of the cells surrounding the cells of this MOC.
    fn external_edge_moc(&self) -> (r: Self)
        requires
            self.wf(),
        ensures
            r.wf(),
            r.depth() == self.depth(),
            forall|x: int| #[trigger] r.has(x) <==> in_ext_edge(hpx_set(*self), self.depth() as int, x),
    {
        let dmax = self.depth_max();
        let cells = self.cells();
        let nc = cells.len();
        let ghost f = hpx_set(*self);
        let ghost dm = dmax as int;
        let mut ext: Vec<u64> = Vec::new();
        let mut i: usize = 0;
        while i < nc
            invariant
                self.wf(),
                dmax == self.depth(),
                dm == dmax as int,
                nc == cells@.len(),
                i <= nc,
                forall|j: int|
                    0 <= j < cells@.len() ==> is_moc_cell::<Hpx<u64>>(
                        self.rs(),
                        dm,
                        (#[trigger] cells@[j]).depth as int,
                        cell_lo::<Hpx<u64>>(cells@[j]),
                    ),
                forall|h: u64|
                    #[trigger] ext@.contains(h) <==> exists|j: int|
                        0 <= j < i && edge_of(
                            (#[trigger] cells@[j]).depth as int,
                            cell_lo::<Hpx<u64>>(cells@[j]),
                            dm,
                        ).contains(h),
            decreases nc - i,
        {
            let c = cells[i];
            proof {
                assert(c == cells@[i as int]);
                assert(is_moc_cell::<Hpx<u64>>(self.rs(), dm, c.depth as int, cell_lo::<Hpx<u64>>(c)));
                let l = cell_len::<Hpx<u64>>(c.depth as int);
                lemma_cell_len::<Hpx<u64>>(c.depth as int, c.depth as int);
                let k = choose|k: int|
                    0 <= k < self.rs().len() && (#[trigger] self.rs()[k]).start <= cell_lo::<Hpx<u64>>(c)
                        && cell_lo::<Hpx<u64>>(c) + l <= self.rs()[k].end;
                assert(self.rs()[k].end <= <Hpx<u64> as MocQty<u64>>::spec_n_cells_max());
                lemma_mul_is_distributive_add_other_way(l, c.idx as int, 1);
                lemma_cell_idx_bound::<Hpx<u64>>(c.depth as int, c.idx as int);
                assert((c.depth * 2) as nat == (2 * c.depth) as nat);
                lemma_mul_is_commutative(c.idx as int, l);
                lemma_div_by_multiple(c.idx as int, l);
                crate::qty::lemma_hpx_consts();
            }
            let ghost old_ext = ext@;
            append_external_edge(c.depth, c.idx, dmax - c.depth, &mut ext);
            proof {
                let e = edge_of(c.depth as int, cell_lo::<Hpx<u64>>(c), dm);
                assert(cell_lo::<Hpx<u64>>(c) / cell_len::<Hpx<u64>>(c.depth as int) == c.idx);
                assert(ext@ == old_ext + e);
                assert forall|h: u64|
                    #[trigger] ext@.contains(h) <==> exists|j: int|
                        0 <= j < i + 1 && edge_of(
                            (#[trigger] cells@[j]).depth as int,
                            cell_lo::<Hpx<u64>>(cells@[j]),
                            dm,
                        ).contains(h) by {
                    if ext@.contains(h) {
                        let k = choose|k: int| 0 <= k < ext@.len() && ext@[k] == h;
                        if k < old_ext.len() {
                            assert(old_ext[k] == h);
                            assert(old_ext.contains(h));
                        } else {
                            assert(e[k - old_ext.len()] == h);
                            assert(e.contains(h));
                            assert(cells@[i as int] == c);
                        }
                    }
                    if exists|j: int|
                        0 <= j < i + 1 && edge_of(
                            (#[trigger] cells@[j]).depth as int,
                            cell_lo::<Hpx<u64>>(cells@[j]),
                            dm,
                        ).contains(h) {
                        let j = choose|j: int|
                            0 <= j < i + 1 && edge_of(
                                (#[trigger] cells@[j]).depth as int,
                                cell_lo::<Hpx<u64>>(cells@[j]),
                                dm,
                            ).contains(h);
                        if j < i {
                            assert(old_ext.contains(h));
                            let k = choose|k: int| 0 <= k < old_ext.len() && old_ext[k] == h;
                            assert(ext@[k] == h);
                        } else {
                            assert(cells@[j] == c);
                            let k = choose|k: int| 0 <= k < e.len() && e[k] == h;
                            assert(ext@[old_ext.len() + k] == h);
                        }
                    }
                }
            }
            i = i + 1;
        }
        let l = cell_len_u64::<Hpx<u64>>(dmax);
        let ncells = Hpx::<u64>::n_cells(dmax);
        let ghost m = <Hpx<u64> as MocQty<u64>>::spec_n_cells_max();
        proof {
            lemma_n_cells_len::<Hpx<u64>>(dm);
            Hpx::<u64>::lemma_qty();
            lemma2_to64_rest();
        }
        let ne = ext.len();
        let mut rv: Vec<Range<u64>> = Vec::new();
        let mut k: usize = 0;
        while k < ne
            invariant
                ne == ext@.len(),
                k <= ne,
                l == cell_len::<Hpx<u64>>(dm),
                0 < l,
                ncells * l == m,
                m < 0x8000_0000_0000_0000,
                forall|q: int| 0 <= q < rv@.len() ==> (#[trigger] rv@[q]).start < rv@[q].end,
                forall|x: int|
                    #[trigger] seq_has(rv@, x) <==> exists|q: int|
                        0 <= q < k && (#[trigger] ext@[q]) < ncells && ext@[q] * l <= x < ext@[q] * l + l,
            decreases ne - k,
        {
            let h = ext[k];
            let ghost old_rv = rv@;
            if h < ncells {
                proof {
                    lemma_mul_inequality(h as int + 1, ncells as int, l as int);
                    lemma_mul_is_distributive_add_other_way(l as int, h as int, 1);
                    lemma_mul_is_commutative(l as int, h as int);
                    lemma_mul_is_commutative(l as int, h as int + 1);
                }
                let r = Range { start: h * l, end: h * l + l };
                proof {
                    lemma_has_push(rv@, r);
                }
                rv.push(r);
                proof {
                    assert(rv@ == old_rv.push(r));
                }
            }
            proof {
                assert forall|x: int|
                    #[trigger] seq_has(rv@, x) <==> exists|q: int|
                        0 <= q < k + 1 && (#[trigger] ext@[q]) < ncells && ext@[q] * l <= x < ext@[q] * l + l by {
                    if exists|q: int| 0 <= q < k + 1 && (#[trigger] ext@[q]) < ncells && ext@[q] * l <= x < ext@[q] * l + l {
                        let q = choose|q: int| 0 <= q < k + 1 && (#[trigger] ext@[q]) < ncells && ext@[q] * l <= x < ext@[q] * l + l;
                        if q < k {
                            assert(seq_has(old_rv, x));
                        }
                    }
                }
            }
            k = k + 1;
        }
        let ranges = Ranges::new_from(rv);
        proof {
            let l = l as int;
            let v = ranges.0@;
            // membership: x is in the block of a kept cell
            assert forall|x: int| #[trigger] seq_has(v, x) <==> (0 <= x < m && ext@.contains((x / l) as u64)) by {
                assert(ranges.has(x) <==> seq_has(rv@, x));
                if seq_has(rv@, x) {
                    let q = choose|q: int| 0 <= q < ne && (#[trigger] ext@[q]) < ncells && ext@[q] * l <= x < ext@[q] * l + l;
                    lemma_div_char(x, l, ext@[q] as int);
                    lemma_mul_inequality(ext@[q] as int + 1, ncells as int, l as int);
                    lemma_mul_is_distributive_add_other_way(l, ext@[q] as int, 1);
                    lemma_mul_is_commutative(l, ext@[q] as int);
                    lemma_mul_is_commutative(l, ext@[q] as int + 1);
                    lemma_mul_nonnegative(ext@[q] as int, l);
                    assert(ext@[q] == (x / l) as u64);
                }
                if 0 <= x < m && ext@.contains((x / l) as u64) {
                    let q = choose|q: int| 0 <= q < ext@.len() && ext@[q] == (x / l) as u64;
                    lemma_block_bounds(x, l);
                    lemma_div_pos_is_pos(x, l);
                    lemma_mul_is_commutative(l, ncells as int);
                    if x / l >= ncells {
                        lemma_mul_inequality(ncells as int, x / l, l);
                    }
                    assert(ext@[q] < ncells);
                    assert(ext@[q] * l <= x < ext@[q] * l + l);
                }
            }
            assert(block_closed(v, l)) by {
                assert forall|x: int, y: int|
                    #![trigger seq_has(v, x), seq_has(v, y)]
                    0 <= x && 0 <= y && x / l == y / l implies (seq_has(v, x) <==> seq_has(v, y)) by {
                    lemma_block_bounds(x, l);
                    lemma_block_bounds(y, l);
                    lemma_mul_is_commutative(l, ncells as int);
                    lemma_mod_multiples_basic(ncells as int, l);
                    if x < m && y >= m {
                        crate::arith::lemma_aligned_gt(m, x, l);
                    }
                    if y < m && x >= m {
                        crate::arith::lemma_aligned_gt(m, y, l);
                    }
                }
            }
            assert forall|x: int| x >= m implies !#[trigger] seq_has(v, x) by {}
            lemma_wf_from_sets(v, l, m);
        }
        let r = RangeMOC::new(dmax, ranges);
        proof {
            let l = l as int;
            assert forall|x: int| #[trigger] r.has(x) <==> in_ext_edge(f, dm, x) by {
                assert(r.has(x) <==> (0 <= x < m && ext@.contains((x / l) as u64)));
                let h = (x / l) as u64;
                if 0 <= x < m && ext@.contains(h) {
                    let j = choose|j: int|
                        0 <= j < nc && edge_of((#[trigger] cells@[j]).depth as int, cell_lo::<Hpx<u64>>(cells@[j]), dm).contains(h);
                    let d = cells@[j].depth as int;
                    let lo = cell_lo::<Hpx<u64>>(cells@[j]);
                    lemma_moc_cell_set::<Hpx<u64>>(self.rs(), f, dm, d, lo);
                    assert(is_cell_of::<Hpx<u64>>(f, dm, d, lo));
                }
                if in_ext_edge(f, dm, x) {
                    let (d, lo) = choose|d: int, lo: int|
                        #[trigger] is_cell_of::<Hpx<u64>>(f, dm, d, lo) && edge_of(d, lo, dm).contains(h);
                    lemma_moc_cell_set::<Hpx<u64>>(self.rs(), f, dm, d, lo);
                    assert(is_moc_cell::<Hpx<u64>>(self.rs(), dm, d, lo));
                    let j = choose|j: int| 0 <= j < cells@.len() && (#[trigger] cells@[j]).depth == d && cell_lo::<Hpx<u64>>(cells@[j]) == lo;
                    assert(edge_of((cells@[j]).depth as int, cell_lo::<Hpx<u64>>(cells@[j]), dm).contains(h));
                    assert(ext@.contains(h));
                }
            }
        }
        r
    }
}

/// The values of the MOC.
pub open spec fn hpx_set(m: RangeMOC<u64, Hpx<u64>>) -> spec_fn(int) -> bool {
    |y: int| m.has(y)
}

/// The complement, in the HEALPix domain, of the values of the MOC.
pub open spec fn hpx_complement(m: RangeMOC<u64, Hpx<u64>>) -> spec_fn(int) -> bool {
    |y: int| 0 <= y < <Hpx<u64> as MocQty<u64>>::spec_n_cells_max() && !m.has(y)
}

impl RangeMOC<u64, Hpx<u64>> {
    /// Adds to the MOC its external border of depth `depth_max`.
    pub fn expanded(&self) -> (r: Self)
        requires
            self.wf(),
        ensures
            r.wf(),
            r.depth() == self.depth(),
            forall|x: int| #[trigger] r.has(x) <==> (self.has(x) || in_ext_edge(hpx_set(*self), self.depth() as int, x)),
    {
        let ext = self.external_edge_moc();
        self.or(&ext)
    }

    /// Removes from the MOC its internal border of depth `depth_max`, i.e. the cells
    /// surrounding the complement of the MOC.
    pub fn contracted(&self) -> (r: Self)
        requires
            self.wf(),
        ensures
            r.wf(),
            r.depth() == self.depth(),
            forall|x: int| #[trigger] r.has(x) <==> (self.has(x) && !in_ext_edge(hpx_complement(*self), self.depth() as int, x)),
    {
        let not = self.not();
        let ext = not.external_edge_moc();
        proof {
            assert(hpx_set(not) =~= hpx_complement(*self));
        }
        self.minus(&ext)
    }

    /// Returns this MOC external border
    pub fn external_border(&self) -> (r: Self)
        requires
            self.wf(),
        ensures
            r.wf(),
            r.depth() == self.depth(),
            forall|x: int| #[trigger] r.has(x) <==> (!self.has(x) && in_ext_edge(hpx_set(*self), self.depth() as int, x)),
    {
        let e = self.expanded();
        e.minus(self)
    }

    /// Returns this MOC internal border
    pub fn internal_border(&self) -> (r: Self)
        requires
            self.wf(),
        ensures
            r.wf(),
            r.depth() == self.depth(),
            forall|x: int| #[trigger] r.has(x) <==> (self.has(x) && in_ext_edge(hpx_complement(*self), self.depth() as int, x)),
    {
        let not = self.not();
        let e = not.expanded();
        proof {
            assert(hpx_set(not) =~= hpx_complement(*self));
        }
        e.and(self)
    }
}

/// `c = (depth, idx)` is the cell of HEALPix uniq notation `uniq = 4 * 4^depth + idx`.
pub open spec fn uniq_hpx_cell(uniq: u64, c: (u8, u64)) -> bool {
    c.1 + pow2(2 * c.0 as nat + 2) == uniq && c.1 < 3 * pow2(2 * c.0 as nat + 2)
}

impl Hpx<u64> {
    /// Range, at the deepest resolution, of the cell of HEALPix uniq notation `uniq`.
    pub fn uniq_hpx_to_range(uniq: u64) -> (r: Range<u64>)
        requires
            4 <= uniq < 0x4000_0000_0000_0000u64,
        ensures
            exists|c: (u8, u64)| #[trigger] uniq_hpx_cell(uniq, c),
            forall|c: (u8, u64)| #[trigger] uniq_hpx_cell(uniq, c) ==> c.0 <= 29 && r == cell_range::<Hpx<u64>>(c),
            r.end <= Hpx::<u64>::spec_n_cells_max(),
    {
        let (depth, pix) = Hpx::<u64>::from_uniq_hpx(uniq);
        proof {
            crate::qty::lemma_hpx_consts();
            Hpx::<u64>::lemma_qty();
            lemma2_to64();
            lemma2_to64_rest();
            let e = 2 * depth as nat + 2;
            if depth > 29 {
                lemma_pow2_strictly_increases(62, e);
            }
            assert(depth <= 29);
            // (pix + 1) * 4^(29 - depth) <= 12 * 4^29
            let d = depth as nat;
            lemma_pow2_adds(2 * d, 2);
            lemma_pow2_adds(2 * d, (58 - 2 * d) as nat);
            let a = pow2(2 * d) as int;
            let b = pow2((58 - 2 * d) as nat) as int;
            assert(pow2(e) == 4 * a);
            assert(pix + 1 <= 12 * a);
            lemma_mul_inequality(pix + 1, 12 * a, b);
            assert(a * b == pow2(58));
            assert((12 * a) * b == 12 * (a * b)) by (nonlinear_arith);
            assert(cell_len::<Hpx<u64>>(depth as int) == b);
            assert(valid_cell::<Hpx<u64>>((depth, pix)));
        }
        let r = cell_to_range::<Hpx<u64>>(depth, pix);
        proof {
            assert(uniq_hpx_cell(uniq, (depth, pix)));
            assert forall|c: (u8, u64)| #[trigger] uniq_hpx_cell(uniq, c) implies c.0 <= 29 && r == cell_range::<Hpx<u64>>(c) by {
                crate::qty::lemma_uniq_decomposition_unique(c.0 as nat, c.1 as nat, depth as nat, pix as nat);
            }
        }
        r
    }
}

} // verus!
