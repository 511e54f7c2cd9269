//! The elementary edges of the cells of a spatial MOC: for each cell, which of its four edges
//! (north-east, south-east, north-west, south-west) are drawn.

use vstd::arithmetic::power2::*;
use vstd::prelude::*;

use cdshealpix::compass_point::MainWind;

use crate::hpx::{hpx_complement, in_ext_edge};
use crate::cells::{cell_lo, is_moc_cell, Cell};
use crate::moc::{cell_len, RangeMOC};
use crate::qty::{has_trailing_zeros, lemma_trailing_zeros_unique, Hpx, MocQty, MocableQty};

verus! {

/// The neighbours, across the north-east, south-east, north-west and south-west edges, of the
/// cell `hash` of depth `depth`, as returned by `cdshealpix::nested::neighbours`.
pub uninterp spec fn hpx_edge_neighbours(depth: u8, hash: u64) -> (Option<u64>, Option<u64>, Option<u64>, Option<u64>);

/// `n`, if any, is a cell of depth `depth`.
pub open spec fn valid_neighbour(depth: u8, n: Option<u64>) -> bool {
    n matches Some(h) ==> (h as int) < 12 * pow2((2 * depth) as nat)
}

/// The bits of `v` at the even positions (0, 2, 4, ...), packed together.
pub open spec fn even_bits(v: nat) -> nat
    decreases v,
{
    if v == 0 {
        0
    } else {
        v % 2 + 2 * even_bits(v / 4)
    }
}

/// The number whose bits at the even positions are those of `x` and whose bits at the odd
/// positions are those of `y` (the z-order curve).
pub open spec fn interleave(x: nat, y: nat) -> nat
    decreases x + y,
{
    if x == 0 && y == 0 {
        0
    } else {
        x % 2 + 2 * (y % 2) + 4 * interleave(x / 2, y / 2)
    }
}

/// The base cell (depth 0) that holds the cell `h` of depth `d`.
pub open spec fn base_cell(d: u8, h: u64) -> nat {
    (h as nat) / pow2((2 * d) as nat)
}

/// The first coordinate of the cell `h` of depth `d` in its base cell: it grows towards the
/// north-east. It is read from the bits at the even positions of the index in the base cell.
pub open spec fn cell_x(d: u8, h: u64) -> nat {
    even_bits((h as nat) % pow2((2 * d) as nat))
}

/// The second coordinate of the cell `h` of depth `d` in its base cell: it grows towards the
/// north-west. It is read from the bits at the odd positions of the index in the base cell.
pub open spec fn cell_y(d: u8, h: u64) -> nat {
    even_bits((h as nat) % pow2((2 * d) as nat) / 2)
}

/// Moving the coordinates of the cell `h` of depth `d` by `dx` and `dy` stays in its base
/// cell (whose side holds `2^d` cells).
pub open spec fn step_in_base(d: u8, h: u64, dx: int, dy: int) -> bool {
    &&& 0 <= cell_x(d, h) + dx < pow2(d as nat)
    &&& 0 <= cell_y(d, h) + dy < pow2(d as nat)
}

/// The cell of depth `d`, in the base cell of `h`, whose coordinates are those of `h` moved by
/// `dx` and `dy`.
pub open spec fn shifted(d: u8, h: u64, dx: int, dy: int) -> int {
    (base_cell(d, h) * pow2((2 * d) as nat) + interleave((cell_x(d, h) + dx) as nat, (cell_y(d, h) + dy) as nat)) as int
}

/// The z-order value of two coordinates is zero only for the origin.
proof fn lemma_interleave_zero(x: nat, y: nat)
    ensures
        (interleave(x, y) == 0) == (x == 0 && y == 0),
    decreases x + y,
{
    if !(x == 0 && y == 0) {
        lemma_interleave_zero(x / 2, y / 2);
    }
}

/// The two lowest bits of a z-order value are the lowest bits of its coordinates; the rest
/// is the z-order value of the halved coordinates.
proof fn lemma_interleave_split(x: nat, y: nat)
    ensures
        interleave(x, y) % 2 == x % 2,
        interleave(x, y) / 2 % 2 == y % 2,
        interleave(x, y) / 4 == interleave(x / 2, y / 2),
        interleave(x, y) / 2 / 4 == interleave(x / 2, y / 2) / 2,
{
    let i = interleave(x / 2, y / 2);
    let a = x % 2 + 2 * (y % 2);
    if x == 0 && y == 0 {
        assert(interleave(0, 0) == 0);
    }
    assert(interleave(x, y) == a + 4 * i);
    assert((a + 4 * i) % 2 == x % 2 && (a + 4 * i) / 2 % 2 == y % 2 && (a + 4 * i) / 4 == i && (a + 4 * i) / 2 / 4 == i
        / 2) by (nonlinear_arith)
        requires
            a == x % 2 + 2 * (y % 2),
            i >= 0,
    ;
}

/// The coordinates read back from a z-order value are the coordinates it was made of.
proof fn lemma_even_bits_interleave(x: nat, y: nat)
    ensures
        even_bits(interleave(x, y)) == x,
        even_bits(interleave(x, y) / 2) == y,
    decreases x + y,
{
    if x == 0 && y == 0 {
        assert(interleave(0, 0) == 0);
    } else {
        let v = interleave(x, y);
        lemma_interleave_split(x, y);
        lemma_interleave_zero(x, y);
        lemma_even_bits_interleave(x / 2, y / 2);
        assert(even_bits(v) == x);
        if v / 2 == 0 {
            lemma_interleave_zero(x / 2, y / 2);
            assert(y == 0);
        } else {
            assert(even_bits(v / 2) == (v / 2) % 2 + 2 * even_bits(v / 2 / 4));
        }
    }
}

/// A number is the z-order value of the coordinates read from it.
proof fn lemma_interleave_even_bits(l: nat)
    ensures
        interleave(even_bits(l), even_bits(l / 2)) == l,
    decreases l,
{
    if l > 0 {
        let x = even_bits(l);
        let y = even_bits(l / 2);
        lemma_interleave_even_bits(l / 4);
        assert(l / 2 / 4 == l / 4 / 2 && l == 4 * (l / 4) + 2 * (l / 2 % 2) + l % 2) by (nonlinear_arith)
            requires
                l >= 0,
        ;
        assert(x == l % 2 + 2 * even_bits(l / 4));
        if l / 2 == 0 {
            assert(y == 0);
            assert(even_bits(l / 4 / 2) == 0);
        } else {
            assert(y == l / 2 % 2 + 2 * even_bits(l / 2 / 4));
        }
        assert(x % 2 == l % 2 && x / 2 == even_bits(l / 4));
        assert(y % 2 == l / 2 % 2 && y / 2 == even_bits(l / 4 / 2));
        if x == 0 && y == 0 {
            assert(interleave(0, 0) == 0);
        }
    }
}

/// Two coordinates below `2^k` give a z-order value below `4^k`.
proof fn lemma_interleave_bound(x: nat, y: nat, k: nat)
    requires
        x < pow2(k),
        y < pow2(k),
    ensures
        interleave(x, y) < pow2(2 * k),
    decreases k,
{
    if k == 0 {
        lemma2_to64();
        assert(x == 0 && y == 0);
        assert(interleave(0, 0) == 0);
        assert(pow2(2 * k) == 1);
    } else {
        lemma_pow2_adds(1, (k - 1) as nat);
        lemma_pow2_adds(2, (2 * (k - 1)) as nat);
        lemma2_to64();
        assert(pow2(k) == 2 * pow2((k - 1) as nat));
        assert(x / 2 < pow2((k - 1) as nat) && y / 2 < pow2((k - 1) as nat));
        lemma_interleave_bound(x / 2, y / 2, (k - 1) as nat);
        let q = pow2((2 * (k - 1)) as nat);
        assert((2 + (2 * (k - 1)) as nat) as nat == 2 * k);
        assert(pow2(2 * k) == 4 * q);
        if x == 0 && y == 0 {
            assert(interleave(0, 0) == 0);
        } else {
            assert(interleave(x, y) == x % 2 + 2 * (y % 2) + 4 * interleave(x / 2, y / 2));
        }
    }
}

/// A number below `4^k` gives a coordinate below `2^k`.
proof fn lemma_even_bits_bound(l: nat, k: nat)
    requires
        l < pow2(2 * k),
    ensures
        even_bits(l) < pow2(k),
    decreases k,
{
    lemma2_to64();
    if k == 0 {
        assert(l == 0);
    } else {
        lemma_pow2_adds(1, (k - 1) as nat);
        lemma_pow2_adds(2, (2 * (k - 1)) as nat);
        assert((2 + (2 * (k - 1)) as nat) as nat == 2 * k);
        assert(l / 4 < pow2((2 * (k - 1)) as nat));
        lemma_even_bits_bound(l / 4, (k - 1) as nat);
        if l > 0 {
            assert(even_bits(l) == l % 2 + 2 * even_bits(l / 4));
        }
    }
}

/// The coordinates, in its base cell, of a cell moved inside its base cell are those of the
/// cell moved; the cell moved fits in a `u64`.
proof fn lemma_shifted_coords(d: u8, h: u64, dx: int, dy: int)
    requires
        d <= 29,
        (h as int) < 12 * pow2((2 * d) as nat),
        0 <= cell_x(d, h) + dx < pow2(d as nat),
        0 <= cell_y(d, h) + dy < pow2(d as nat),
    ensures
        0 <= shifted(d, h, dx, dy) < 12 * pow2((2 * d) as nat),
        shifted(d, h, dx, dy) <= u64::MAX,
        base_cell(d, shifted(d, h, dx, dy) as u64) == base_cell(d, h),
        cell_x(d, shifted(d, h, dx, dy) as u64) == cell_x(d, h) + dx,
        cell_y(d, shifted(d, h, dx, dy) as u64) == cell_y(d, h) + dy,
{
    let p = pow2((2 * d) as nat);
    let x = (cell_x(d, h) + dx) as nat;
    let y = (cell_y(d, h) + dy) as nat;
    let i = interleave(x, y);
    let b = base_cell(d, h);
    lemma_pow2_pos((2 * d) as nat);
    lemma_interleave_bound(x, y, d as nat);
    assert(2 * (d as nat) == (2 * d) as nat);
    assert(b < 12) by {
        vstd::arithmetic::div_mod::lemma_fundamental_div_mod(h as int, p as int);
        let r = (h as int) % (p as int);
        assert(b < 12) by (nonlinear_arith)
            requires
                h == p * b + r,
                0 <= r,
                h < 12 * p,
                p > 0,
        ;
    }
    assert(b * p + i < 12 * p) by (nonlinear_arith)
        requires
            b < 12,
            i < p,
    ;
    assert(12 * p <= 12 * pow2(58)) by {
        if 2 * d < 58 {
            lemma_pow2_strictly_increases((2 * d) as nat, 58);
        }
    }
    assert(12 * pow2(58) <= u64::MAX) by {
        lemma2_to64_rest();
    }
    let s = b * p + i;
    assert(shifted(d, h, dx, dy) == s);
    assert(s / p == b && s % p == i) by {
        vstd::arithmetic::div_mod::lemma_fundamental_div_mod_converse(s as int, p as int, b as int, i as int);
    }
    lemma_even_bits_interleave(x, y);
}

/// A cell moved by nothing is the cell itself.
proof fn lemma_shifted_zero(d: u8, h: u64)
    ensures
        shifted(d, h, 0, 0) == h,
{
    let p = pow2((2 * d) as nat);
    let l = (h as nat) % p;
    lemma_pow2_pos((2 * d) as nat);
    lemma_interleave_even_bits(l);
    assert(cell_x(d, h) + 0 == even_bits(l) && cell_y(d, h) + 0 == even_bits(l / 2));
    vstd::arithmetic::div_mod::lemma_fundamental_div_mod(h as int, p as int);
    vstd::arithmetic::mul::lemma_mul_is_commutative(base_cell(d, h) as int, p as int);
}

/// A move of a cell that stays in its base cell gives another cell of the same depth (for a
/// move other than none), from which the opposite move stays in the base cell and leads back:
/// the cell across the north-east edge of a cell has it across its south-west edge, the cell
/// across the north-west edge has it across its south-east edge.
pub proof fn law_step_back(d: u8, h: u64, dx: int, dy: int)
    requires
        d <= 29,
        (h as int) < 12 * pow2((2 * d) as nat),
        step_in_base(d, h, dx, dy),
    ensures
        0 <= shifted(d, h, dx, dy) < 12 * pow2((2 * d) as nat),
        shifted(d, h, dx, dy) <= u64::MAX,
        dx != 0 || dy != 0 ==> shifted(d, h, dx, dy) != h,
        step_in_base(d, shifted(d, h, dx, dy) as u64, -dx, -dy),
        shifted(d, shifted(d, h, dx, dy) as u64, -dx, -dy) == h,
{
    lemma_shifted_coords(d, h, dx, dy);
    lemma_shifted_zero(d, h);
    let l = (h as nat) % pow2((2 * d) as nat);
    lemma_pow2_pos((2 * d) as nat);
    assert(2 * (d as nat) == (2 * d) as nat);
    lemma_even_bits_bound(l, d as nat);
    lemma_even_bits_bound(l / 2, d as nat);
    let b = shifted(d, h, dx, dy) as u64;
    assert(cell_x(d, b) + -dx == cell_x(d, h) + 0 && cell_y(d, b) + -dy == cell_y(d, h) + 0);
}

/// Calls `cdshealpix::nested::neighbours(depth, hash, false)` and picks its north-east,
/// south-east, north-west and south-west entries: the neighbours of the cell across its four
/// edges (a cell at the corner of a base cell may miss one). The contract names the result,
/// which depends on the arguments alone, and states that the neighbours are cells of the same
/// depth. Where the neighbour lies in the same base cell, the crate builds it from the
/// coordinates of the cell (the bits of its index at the even and at the odd positions):
/// north-east is the first coordinate plus one, south-west minus one, north-west the second
/// coordinate plus one, south-east minus one; the contract states these cells. Of the
/// neighbours taken from an adjacent base cell it states no more than that they are cells.
/// The function panics on a hash not lower than `12 * 4^depth`.
#[verifier::external_body]
fn edge_neighbours(depth: u8, hash: u64) -> (r: (Option<u64>, Option<u64>, Option<u64>, Option<u64>))
    requires
        depth <= 29,
        (hash as int) < 12 * pow2((2 * depth) as nat),
    ensures
        r == hpx_edge_neighbours(depth, hash),
        valid_neighbour(depth, r.0),
        valid_neighbour(depth, r.1),
        valid_neighbour(depth, r.2),
        valid_neighbour(depth, r.3),
        step_in_base(depth, hash, 1, 0) ==> r.0 == Some(shifted(depth, hash, 1, 0) as u64),
        step_in_base(depth, hash, 0, -1) ==> r.1 == Some(shifted(depth, hash, 0, -1) as u64),
        step_in_base(depth, hash, 0, 1) ==> r.2 == Some(shifted(depth, hash, 0, 1) as u64),
        step_in_base(depth, hash, -1, 0) ==> r.3 == Some(shifted(depth, hash, -1, 0) as u64),
{
    let n = cdshealpix::nested::neighbours(depth, hash, false);
    (
        n.get(MainWind::NE).copied(),
        n.get(MainWind::SE).copied(),
        n.get(MainWind::NW).copied(),
        n.get(MainWind::SW).copied(),
    )
}

/// A set of the four ordinal directions of the edges of a cell.
#[derive(Clone, Copy, Debug, PartialEq, Eq)]
pub struct OrdinalSet {
    pub ne: bool,
    pub se: bool,
    pub nw: bool,
    pub sw: bool,
}

impl OrdinalSet {
    /// The empty set.
    pub fn new() -> (r: Self)
        ensures
            !r.ne && !r.se && !r.nw && !r.sw,
    {
        OrdinalSet { ne: false, se: false, nw: false, sw: false }
    }

    /// The set of the four directions.
    pub fn all() -> (r: Self)
        ensures
            r.ne && r.se && r.nw && r.sw,
    {
        OrdinalSet { ne: true, se: true, nw: true, sw: true }
    }

    /// No direction is in the set.
    pub open spec fn spec_is_empty(&self) -> bool {
        !self.ne && !self.se && !self.nw && !self.sw
    }

    /// No direction is in the set.
    #[verifier::when_used_as_spec(spec_is_empty)]
    pub fn is_empty(&self) -> (r: bool)
        ensures
            r == (!self.ne && !self.se && !self.nw && !self.sw),
    {
        !self.ne && !self.se && !self.nw && !self.sw
    }
}

/// A cell, in the HEALPix uniq notation, with a set of its edges.
#[derive(Clone, Copy, Debug, PartialEq, Eq)]
pub struct CellAndEdges<T> {
    pub uniq: T,
    pub edges: OrdinalSet,
}

/// The uniq value of the cell `idx` of depth `depth`.
pub open spec fn uniq_of(depth: u8, idx: int) -> int {
    idx + pow2(2 * depth as nat + 2)
}

/// The neighbour `n` exists and its cell, of the MOC depth, is out of the MOC.
pub open spec fn out_neighbour(m: RangeMOC<u64, Hpx<u64>>, n: Option<u64>) -> bool {
    n matches Some(h) && !m.has(h * cell_len::<Hpx<u64>>(m.depth() as int))
}

/// The edges of the cell `idx` of the MOC depth shared with a cell out of the MOC.
pub open spec fn border_edges(m: RangeMOC<u64, Hpx<u64>>, idx: u64) -> OrdinalSet {
    let n = hpx_edge_neighbours(m.depth(), idx);
    OrdinalSet {
        ne: out_neighbour(m, n.0),
        se: out_neighbour(m, n.1),
        nw: out_neighbour(m, n.2),
        sw: out_neighbour(m, n.3),
    }
}

/// The edges `e` of the cell `idx` of the MOC depth are, in each direction whose neighbour
/// lies in the same base cell, those shared with a cell out of the MOC: north-east with the
/// cell one step up the first coordinate, south-east one step down the second, north-west one
/// step up the second and south-west one step down the first.
pub open spec fn border_edges_across(m: RangeMOC<u64, Hpx<u64>>, idx: u64, e: OrdinalSet) -> bool {
    let d = m.depth();
    &&& step_in_base(d, idx, 1, 0) ==> e.ne == out_neighbour(m, Some(shifted(d, idx, 1, 0) as u64))
    &&& step_in_base(d, idx, 0, -1) ==> e.se == out_neighbour(m, Some(shifted(d, idx, 0, -1) as u64))
    &&& step_in_base(d, idx, 0, 1) ==> e.nw == out_neighbour(m, Some(shifted(d, idx, 0, 1) as u64))
    &&& step_in_base(d, idx, -1, 0) ==> e.sw == out_neighbour(m, Some(shifted(d, idx, -1, 0) as u64))
}

/// The cell `idx` of the MOC depth is a cell of the internal border of the MOC.
pub open spec fn in_internal_border(m: RangeMOC<u64, Hpx<u64>>, idx: int) -> bool {
    let x = idx * cell_len::<Hpx<u64>>(m.depth() as int);
    m.has(x) && in_ext_edge(hpx_complement(m), m.depth() as int, x)
}

impl RangeMOC<u64, Hpx<u64>> {
    /// For each cell of depth `depth_max` of the internal border of the MOC, in increasing
    /// order, its edges shared with a cell out of the MOC; the cells with no such edge are
    /// left out. In each direction whose neighbour lies in the same base cell, the edge is
    /// reported exactly when the cell across it (see [`border_edges_across`]) is out of the
    /// MOC.
    pub fn border_elementary_edges(&self) -> (r: Vec<CellAndEdges<u64>>)
        requires
            self.wf(),
        ensures
            forall|i: int, j: int| 0 <= i < j < r@.len() ==> r@[i].uniq < r@[j].uniq,
            forall|j: int|
                0 <= j < r@.len() ==> {
                    let idx = (#[trigger] r@[j]).uniq - pow2(2 * self.depth() as nat + 2);
                    &&& 0 <= idx
                    &&& in_internal_border(*self, idx)
                    &&& r@[j].edges == border_edges(*self, idx as u64)
                    &&& !r@[j].edges.is_empty()
                    &&& border_edges_across(*self, idx as u64, r@[j].edges)
                },
            forall|idx: u64|
                #![trigger border_edges(*self, idx)]
                in_internal_border(*self, idx as int) && !border_edges(*self, idx).is_empty() ==> exists|j: int|
                    0 <= j < r@.len() && r@[j].uniq == uniq_of(self.depth(), idx as int),
            forall|idx: u64|
                #![trigger border_edges(*self, idx)]
                in_internal_border(*self, idx as int) ==> border_edges_across(*self, idx, border_edges(*self, idx)),
    {
        let depth = self.depth_max();
        let ib = self.internal_border();
        let cells = ib.flatten_to_fixed_depth_cells();
        let ghost p = cell_len::<Hpx<u64>>(depth as int);
        proof {
            crate::qty::lemma_hpx_consts();
            Hpx::<u64>::lemma_qty();
            crate::moc::lemma_cell_len::<Hpx<u64>>(depth as int, depth as int);
        }
        let n = cells.len();
        let mut r: Vec<CellAndEdges<u64>> = Vec::new();
        let mut i: usize = 0;
        while i < n
            invariant
                self.wf(),
                ib.wf(),
                depth == self.depth(),
                ib.depth() == depth,
                depth <= 29,
                p == cell_len::<Hpx<u64>>(depth as int),
                p > 0,
                n == cells@.len(),
                i <= n,
                forall|x: int| #[trigger] ib.has(x) <==> (self.has(x) && in_ext_edge(hpx_complement(*self), depth as int, x)),
                forall|a: int, b: int| 0 <= a < b < cells@.len() ==> cells@[a] < cells@[b],
                forall|x: int| #[trigger] ib.has(x) <==> (0 <= x && exists|j: int| 0 <= j < cells@.len() && #[trigger] cells@[j] == x / p),
                forall|a: int, b: int| 0 <= a < b < r@.len() ==> r@[a].uniq < r@[b].uniq,
                forall|j: int|
                    0 <= j < r@.len() ==> {
                        let idx = (#[trigger] r@[j]).uniq - pow2(2 * depth as nat + 2);
                        &&& 0 <= idx
                        &&& in_internal_border(*self, idx)
                        &&& r@[j].edges == border_edges(*self, idx as u64)
                        &&& !r@[j].edges.is_empty()
                        &&& border_edges_across(*self, idx as u64, r@[j].edges)
                    },
                forall|k: int| 0 <= k < i ==> border_edges_across(*self, cells@[k], #[trigger] border_edges(*self, cells@[k])),
                forall|j: int| 0 <= j < r@.len() ==> (#[trigger] r@[j]).uniq < uniq_of(depth, if i < n { cells@[i as int] as int } else { 0 }) || i == n,
                forall|k: int|
                    0 <= k < i && !#[trigger] border_edges(*self, cells@[k]).is_empty() ==> exists|j: int|
                        0 <= j < r@.len() && r@[j].uniq == uniq_of(depth, cells@[k] as int),
            decreases n - i,
        {
            let idx = cells[i];
            proof {
                crate::qty::lemma_hpx_consts();
                Hpx::<u64>::lemma_qty();
                crate::moc::lemma_cell_len::<Hpx<u64>>(depth as int, depth as int);
                // The cell is in the internal border, so in the domain.
                assert(ib.has(idx * p)) by {
                    vstd::arithmetic::mul::lemma_mul_nonnegative(idx as int, p);
                    crate::arith::lemma_div_char(idx * p, p, idx as int);
                    vstd::arithmetic::mul::lemma_mul_is_commutative(p, idx as int);
                }
                crate::moc::lemma_ends_le(ib.rs(), <Hpx<u64> as MocQty<u64>>::spec_n_cells_max());
                let k = choose|k: int| 0 <= k < ib.rs().len() && #[trigger] crate::ranges::range_has(ib.rs()[k], idx * p);
                assert((idx + 1) * p <= <Hpx<u64> as MocQty<u64>>::spec_n_cells_max()) by {
                    crate::arith::lemma_aligned_gt(<Hpx<u64> as MocQty<u64>>::spec_n_cells_max(), idx * p, p);
                    vstd::arithmetic::div_mod::lemma_div_multiples_vanish(idx as int, p);
                    vstd::arithmetic::mul::lemma_mul_is_commutative(p, idx as int);
                    vstd::arithmetic::mul::lemma_mul_is_distributive_add_other_way(p, idx as int, 1);
                }
                crate::cells::lemma_cell_idx_bound::<Hpx<u64>>(depth as int, idx as int);
                assert((depth * 2) as nat == (2 * depth) as nat);
            }
            let nb = edge_neighbours(depth, idx);
            let mut edges = OrdinalSet::new();
            match nb.0 {
                Some(h) => {
                    proof { self.lemma_neighbour_cell(h); }
                    if !self.contains_depth_max_val(&h) { edges.ne = true; }
                },
                None => {},
            }
            match nb.1 {
                Some(h) => {
                    proof { self.lemma_neighbour_cell(h); }
                    if !self.contains_depth_max_val(&h) { edges.se = true; }
                },
                None => {},
            }
            match nb.2 {
                Some(h) => {
                    proof { self.lemma_neighbour_cell(h); }
                    if !self.contains_depth_max_val(&h) { edges.nw = true; }
                },
                None => {},
            }
            match nb.3 {
                Some(h) => {
                    proof { self.lemma_neighbour_cell(h); }
                    if !self.contains_depth_max_val(&h) { edges.sw = true; }
                },
                None => {},
            }
            proof {
                assert(edges == border_edges(*self, idx));
                assert(border_edges_across(*self, idx, edges));
                crate::qty::lemma_hpx_consts();
                lemma2_to64();
                lemma2_to64_rest();
                lemma_pow2_adds((2 * depth) as nat, 2);
                if (2 * depth) < 58 {
                    lemma_pow2_strictly_increases((2 * depth) as nat, 58);
                }
            }
            if !edges.is_empty() {
                let uniq = Hpx::<u64>::uniq_hpx(depth, idx);
                let ghost r0 = r@;
                r.push(CellAndEdges { uniq, edges });
                proof {
                    assert(in_internal_border(*self, idx as int)) by {
                        assert(ib.has(idx * p));
                    }
                    if i + 1 < n {
                        assert(cells@[i as int] < cells@[i + 1]);
                    }
                    assert forall|k: int|
                        0 <= k < i + 1 && !#[trigger] border_edges(*self, cells@[k]).is_empty() implies exists|j: int|
                            0 <= j < r@.len() && r@[j].uniq == uniq_of(depth, cells@[k] as int) by {
                        if k < i {
                            let j = choose|j: int| 0 <= j < r0.len() && r0[j].uniq == uniq_of(depth, cells@[k] as int);
                            assert(r@[j] == r0[j]);
                        } else {
                            assert(r@[r0.len() as int].uniq == uniq_of(depth, cells@[k] as int));
                        }
                    }
                }
            } else {
                proof {
                    if i + 1 < n {
                        assert(cells@[i as int] < cells@[i + 1]);
                    }
                }
            }
            i = i + 1;
        }
        proof {
            assert forall|idx: u64|
                #![trigger border_edges(*self, idx)]
                in_internal_border(*self, idx as int) && !border_edges(*self, idx).is_empty() implies exists|j: int|
                    0 <= j < r@.len() && r@[j].uniq == uniq_of(depth, idx as int) by {
                let x = idx * p;
                assert(ib.has(x));
                let k = choose|k: int| 0 <= k < cells@.len() && #[trigger] cells@[k] == x / p;
                vstd::arithmetic::mul::lemma_mul_nonnegative(idx as int, p);
                crate::arith::lemma_div_char(x, p, idx as int);
                vstd::arithmetic::mul::lemma_mul_is_commutative(p, idx as int);
                assert(cells@[k] == idx);
            }
            assert forall|idx: u64|
                #![trigger border_edges(*self, idx)]
                in_internal_border(*self, idx as int) implies border_edges_across(*self, idx, border_edges(*self, idx)) by {
                let x = idx * p;
                assert(ib.has(x));
                let k = choose|k: int| 0 <= k < cells@.len() && #[trigger] cells@[k] == x / p;
                vstd::arithmetic::mul::lemma_mul_nonnegative(idx as int, p);
                crate::arith::lemma_div_char(x, p, idx as int);
                vstd::arithmetic::mul::lemma_mul_is_commutative(p, idx as int);
                assert(cells@[k] == idx);
                assert(border_edges_across(*self, cells@[k], border_edges(*self, cells@[k])));
            }
        }
        r
    }

    /// A neighbour cell of the MOC depth, seen at the deepest resolution, fits in a `u64`.
    proof fn lemma_neighbour_cell(&self, h: u64)
        requires
            self.wf(),
            (h as int) < 12 * pow2((2 * self.depth()) as nat),
        ensures
            h * cell_len::<Hpx<u64>>(self.depth() as int) <= u64::MAX,
    {
        crate::qty::lemma_hpx_consts();
        Hpx::<u64>::lemma_qty();
        crate::cells::lemma_n_cells_len::<Hpx<u64>>(self.depth() as int);
        crate::moc::lemma_cell_len::<Hpx<u64>>(self.depth() as int, self.depth() as int);
        assert((self.depth() * 2) as nat == (2 * self.depth()) as nat);
        vstd::arithmetic::mul::lemma_mul_inequality(h as int, (12 * pow2((2 * self.depth()) as nat)) as int, cell_len::<Hpx<u64>>(self.depth() as int));
        lemma2_to64();
        lemma2_to64_rest();
    }
}

/// Length, at the deepest resolution, of a HEALPix cell of depth `d`.
pub open spec fn hcl(d: int) -> int {
    cell_len::<Hpx<u64>>(d)
}

/// The `zuniq` value of the cell `idx` of depth `d`.
pub open spec fn zuniq_of(d: int, idx: int) -> int {
    (2 * idx + 1) * hcl(d)
}

/// The cell `n` of depth `d` is a cell of the MOC.
pub open spec fn is_cell_in(m: RangeMOC<u64, Hpx<u64>>, d: int, n: int) -> bool {
    is_moc_cell::<Hpx<u64>>(m.rs(), m.depth() as int, d, n * hcl(d))
}

/// A cell of the MOC of depth lower than `d` holds the cell `n` of depth `d`.
pub open spec fn in_lower_cell(m: RangeMOC<u64, Hpx<u64>>, d: int, n: int) -> bool {
    exists|d2: int, lo2: int|
        #[trigger] is_moc_cell::<Hpx<u64>>(m.rs(), m.depth() as int, d2, lo2) && d2 < d && lo2 <= n * hcl(d) < lo2 + hcl(d2)
}

/// The edge, shared with the neighbour `nb` of the cell `idx` of depth `d`, is drawn from this
/// cell: the neighbour exists and, if it is a cell of the MOC, it comes after this cell;
/// else no cell of the MOC of lower depth holds it.
pub open spec fn once_edge(m: RangeMOC<u64, Hpx<u64>>, d: u8, idx: u64, nb: Option<u64>) -> bool {
    nb matches Some(n) && if is_cell_in(m, d as int, n as int) {
        n < idx
    } else {
        !in_lower_cell(m, d as int, n as int)
    }
}

/// The edges of the cell `idx` of depth `d` drawn from this cell.
pub open spec fn once_edges(m: RangeMOC<u64, Hpx<u64>>, d: u8, idx: u64) -> OrdinalSet {
    let nb = hpx_edge_neighbours(d, idx);
    OrdinalSet {
        ne: once_edge(m, d, idx, nb.0),
        se: once_edge(m, d, idx, nb.1),
        nw: once_edge(m, d, idx, nb.2),
        sw: once_edge(m, d, idx, nb.3),
    }
}

/// Sorted in strictly increasing order.
pub open spec fn increasing(z: Seq<u64>) -> bool {
    forall|i: int, j: int| 0 <= i < j < z.len() ==> z[i] < z[j]
}

/// The position of `v` in the strictly increasing `z`: `Ok` with its index, or `Err` with the
/// number of values lower than `v`.
fn search(z: &Vec<u64>, v: u64) -> (r: Result<usize, usize>)
    requires
        increasing(z@),
    ensures
        r matches Ok(k) ==> k < z@.len() && z@[k as int] == v,
        r matches Err(i) ==> i <= z@.len() && (forall|k: int| 0 <= k < i ==> z@[k] < v) && (forall|k: int|
            i <= k < z@.len() ==> z@[k] > v),
{
    let mut lo: usize = 0;
    let mut hi: usize = z.len();
    while lo < hi
        invariant
            increasing(z@),
            lo <= hi <= z@.len(),
            forall|k: int| 0 <= k < lo ==> z@[k] < v,
            forall|k: int| hi <= k < z@.len() ==> z@[k] > v,
        decreases hi - lo,
    {
        let mid = lo + (hi - lo) / 2;
        if z[mid] == v {
            return Ok(mid);
        } else if z[mid] < v {
            lo = mid + 1;
        } else {
            hi = mid;
        }
    }
    Err(lo)
}

/// Distinct cells have distinct `zuniq` values.
proof fn lemma_zuniq_injective(d1: int, i1: int, d2: int, i2: int)
    requires
        0 <= d1 <= 29,
        0 <= d2 <= 29,
        0 <= i1,
        0 <= i2,
        zuniq_of(d1, i1) == zuniq_of(d2, i2),
    ensures
        d1 == d2,
        i1 == i2,
{
    crate::qty::lemma_hpx_consts();
    let s1 = (2 * (29 - d1)) as nat;
    let s2 = (2 * (29 - d2)) as nat;
    assert(hcl(d1) == pow2(s1)) by {
        assert(((29 - d1) * 2) as nat == s1);
    }
    assert(hcl(d2) == pow2(s2)) by {
        assert(((29 - d2) * 2) as nat == s2);
    }
    lemma_pow2_pos(s1);
    lemma_pow2_pos(s2);
    let z = zuniq_of(d1, i1);
    vstd::arithmetic::div_mod::lemma_mod_multiples_basic(2 * i1 + 1, pow2(s1) as int);
    vstd::arithmetic::div_mod::lemma_div_multiples_vanish(2 * i1 + 1, pow2(s1) as int);
    vstd::arithmetic::mul::lemma_mul_is_commutative(2 * i1 + 1, pow2(s1) as int);
    vstd::arithmetic::div_mod::lemma_mod_multiples_basic(2 * i2 + 1, pow2(s2) as int);
    vstd::arithmetic::div_mod::lemma_div_multiples_vanish(2 * i2 + 1, pow2(s2) as int);
    vstd::arithmetic::mul::lemma_mul_is_commutative(2 * i2 + 1, pow2(s2) as int);
    assert(has_trailing_zeros(z, s1));
    assert(has_trailing_zeros(z, s2));
    lemma_trailing_zeros_unique(z, s1, s2);
    vstd::arithmetic::mul::lemma_mul_equality_converse(pow2(s1) as int, 2 * i1 + 1, 2 * i2 + 1);
}

/// A cell of depth `d2` starting at `lo2` holds the cell `n` of depth `d > d2` exactly when
/// `n / 4^(d - d2)` is its index.
proof fn lemma_holds_cell(d2: int, idx2: int, d: int, n: int)
    requires
        0 <= d2 < d <= 29,
        0 <= idx2,
        0 <= n,
    ensures
        (idx2 * hcl(d2) <= n * hcl(d) < idx2 * hcl(d2) + hcl(d2)) <==> n / (pow2((2 * (d - d2)) as nat) as int) == idx2,
        hcl(d2) == pow2((2 * (d - d2)) as nat) * hcl(d),
{
    crate::qty::lemma_hpx_consts();
    let q = pow2((2 * (d - d2)) as nat) as int;
    let c = hcl(d);
    lemma_pow2_adds((2 * (d - d2)) as nat, (2 * (29 - d)) as nat);
    assert(((29 - d2) * 2) as nat == (2 * (d - d2)) as nat + (2 * (29 - d)) as nat);
    assert(((29 - d) * 2) as nat == (2 * (29 - d)) as nat);
    lemma_pow2_pos((2 * (d - d2)) as nat);
    lemma_pow2_pos((2 * (29 - d)) as nat);
    // idx2 * q * c <= n * c < (idx2 + 1) * q * c  <==>  idx2 * q <= n < (idx2 + 1) * q
    vstd::arithmetic::mul::lemma_mul_is_associative(idx2, q, c);
    vstd::arithmetic::mul::lemma_mul_is_distributive_add_other_way(q * c, idx2, 1);
    vstd::arithmetic::mul::lemma_mul_is_associative(idx2 + 1, q, c);
    if idx2 * q <= n {
        vstd::arithmetic::mul::lemma_mul_inequality(idx2 * q, n, c);
    } else {
        vstd::arithmetic::mul::lemma_mul_strict_inequality(n, idx2 * q, c);
    }
    if n < (idx2 + 1) * q {
        vstd::arithmetic::mul::lemma_mul_strict_inequality(n, (idx2 + 1) * q, c);
    } else {
        vstd::arithmetic::mul::lemma_mul_inequality((idx2 + 1) * q, n, c);
    }
    vstd::arithmetic::mul::lemma_mul_is_distributive_add_other_way(q, idx2, 1);
    vstd::arithmetic::mul::lemma_mul_is_commutative(q, idx2);
    vstd::arithmetic::mul::lemma_mul_is_commutative(q, idx2 + 1);
    crate::arith::lemma_div_char(n, q, idx2);
}

/// In the `zuniq` order, a cell of depth `d` lies next to the cell of the MOC holding it: any
/// other cell of the MOC lies on the same side of both.
proof fn lemma_same_side(lo_j: int, hi_j: int, lo_k: int, hi_k: int, lo_n: int, hi_n: int)
    requires
        lo_j < hi_j,
        lo_n < hi_n,
        lo_k <= lo_n,
        hi_n <= hi_k,
        hi_j <= lo_k || hi_k <= lo_j,
    ensures
        (lo_j + hi_j < lo_n + hi_n) <==> (lo_j + hi_j < lo_k + hi_k),
{
}

impl RangeMOC<u64, Hpx<u64>> {
    /// Whether the edge of the cell `org_idx` of depth `depth` shared with its neighbour
    /// `neig_idx` is to be drawn from this cell (see [`once_edge`]): `z` are the `zuniq` values
    /// of the cells `cs` of the MOC.
    fn edge_from_cell(&self, z: &Vec<u64>, Ghost(cs): Ghost<Seq<Cell>>, depth: u8, org_idx: u64, neig_idx: u64) -> (r: bool)
        requires
            self.wf(),
            depth <= self.depth(),
            (neig_idx as int) < 12 * pow2((2 * depth) as nat),
            z@.len() == cs.len(),
            increasing(z@),
            forall|k: int| 0 <= k < cs.len() ==> #[trigger] z@[k] == zuniq_of(cs[k].depth as int, cs[k].idx as int),
            forall|k: int|
                0 <= k < cs.len() ==> is_moc_cell::<Hpx<u64>>(
                    self.rs(),
                    self.depth() as int,
                    (#[trigger] cs[k]).depth as int,
                    cell_lo::<Hpx<u64>>(cs[k]),
                ),
            forall|d: int, lo: int|
                #[trigger] is_moc_cell::<Hpx<u64>>(self.rs(), self.depth() as int, d, lo) ==> exists|j: int|
                    0 <= j < cs.len() && (#[trigger] cs[j]).depth == d && cell_lo::<Hpx<u64>>(cs[j]) == lo,
            forall|i: int, j: int|
                0 <= i < j < cs.len() ==> cell_lo::<Hpx<u64>>(#[trigger] cs[i]) + hcl(cs[i].depth as int) <= cell_lo::<
                    Hpx<u64>,
                >(#[trigger] cs[j]),
        ensures
            r == if is_cell_in(*self, depth as int, neig_idx as int) {
                neig_idx < org_idx
            } else {
                !in_lower_cell(*self, depth as int, neig_idx as int)
            },
    {
        proof {
            crate::qty::lemma_hpx_consts();
            assert((depth * 2) as nat == (2 * depth) as nat);
        }
        let nz = Hpx::<u64>::to_zuniq(depth, neig_idx);
        let ghost nzi = zuniq_of(depth as int, neig_idx as int);
        proof {
            assert(((29 - depth) * 2) as nat == ((<Hpx<u64> as MocQty<u64>>::MAX_DEPTH - depth) * 2) as nat);
            assert(nz == nzi);
            assert(forall|k: int| 0 <= k < cs.len() ==> (#[trigger] cs[k]).depth <= 29) by {
                assert forall|k: int| 0 <= k < cs.len() implies (#[trigger] cs[k]).depth <= 29 by {
                    assert(is_moc_cell::<Hpx<u64>>(self.rs(), self.depth() as int, cs[k].depth as int, cell_lo::<Hpx<u64>>(cs[k])));
                }
            }
        }
        match search(z, nz) {
            Ok(k) => {
                proof {
                    let c = cs[k as int];
                    assert(is_moc_cell::<Hpx<u64>>(self.rs(), self.depth() as int, c.depth as int, cell_lo::<Hpx<u64>>(c)));
                    lemma_zuniq_injective(c.depth as int, c.idx as int, depth as int, neig_idx as int);
                    assert(is_cell_in(*self, depth as int, neig_idx as int));
                }
                neig_idx < org_idx
            },
            Err(i) => {
                proof {
                    // The cell is not a cell of the MOC.
                    if is_cell_in(*self, depth as int, neig_idx as int) {
                        let j = choose|j: int|
                            0 <= j < cs.len() && (#[trigger] cs[j]).depth == depth && cell_lo::<Hpx<u64>>(cs[j]) == neig_idx
                                * hcl(depth as int);
                        crate::moc::lemma_cell_len::<Hpx<u64>>(depth as int, depth as int);
                        vstd::arithmetic::mul::lemma_mul_is_commutative(cs[j].idx as int, hcl(depth as int));
                        vstd::arithmetic::mul::lemma_mul_is_commutative(neig_idx as int, hcl(depth as int));
                        vstd::arithmetic::mul::lemma_mul_equality_converse(hcl(depth as int), cs[j].idx as int, neig_idx as int);
                        assert(z@[j] == nz);
                        if j < i {
                            assert(z@[j] < nz);
                        } else {
                            assert(z@[j] > nz);
                        }
                    }
                }
                let n = z.len();
                if i > 0 {
                    let (d, h) = self.cell_of_zuniq(z, Ghost(cs), i - 1);
                    if d < depth && (neig_idx >> ((depth - d) as u64 * 2)) == h {
                        proof {
                            self.lemma_lower_cell_found(cs, (i - 1) as int, depth as int, neig_idx as int);
                        }
                        return false;
                    }
                    proof {
                        if d < depth {
                            vstd::bits::lemma_u64_shr_is_div(neig_idx, ((depth - d) as u64 * 2) as u64);
                            assert((((depth - d) as u64 * 2) as u64) as nat == (2 * (depth - cs[(i - 1) as int].depth)) as nat);
                        }
                        assert(!(cs[(i - 1) as int].depth < depth && neig_idx as int / (pow2((2 * (depth - cs[(i - 1) as int].depth)) as nat) as int)
                            == cs[(i - 1) as int].idx));
                    }
                }
                if i < n {
                    let (d, h) = self.cell_of_zuniq(z, Ghost(cs), i);
                    if d < depth && (neig_idx >> ((depth - d) as u64 * 2)) == h {
                        proof {
                            self.lemma_lower_cell_found(cs, i as int, depth as int, neig_idx as int);
                        }
                        return false;
                    }
                    proof {
                        if d < depth {
                            vstd::bits::lemma_u64_shr_is_div(neig_idx, ((depth - d) as u64 * 2) as u64);
                            assert((((depth - d) as u64 * 2) as u64) as nat == (2 * (depth - cs[i as int].depth)) as nat);
                        }
                        assert(!(cs[i as int].depth < depth && neig_idx as int / (pow2((2 * (depth - cs[i as int].depth)) as nat) as int)
                            == cs[i as int].idx));
                    }
                }
                proof {
                    if in_lower_cell(*self, depth as int, neig_idx as int) {
                        let (d2, lo2) = choose|d2: int, lo2: int|
                            #[trigger] is_moc_cell::<Hpx<u64>>(self.rs(), self.depth() as int, d2, lo2) && d2 < depth
                                && lo2 <= neig_idx * hcl(depth as int) < lo2 + hcl(d2);
                        let k = choose|k: int|
                            0 <= k < cs.len() && (#[trigger] cs[k]).depth == d2 && cell_lo::<Hpx<u64>>(cs[k]) == lo2;
                        self.lemma_lower_cell_next(z@, cs, k, i as int, depth as int, neig_idx as int);
                    }
                }
                true
            },
        }
    }

    /// The (depth, index) of the cell `cs[k]`, read from its `zuniq` value, with the shift of
    /// a `u64` by twice a depth difference.
    fn cell_of_zuniq(&self, z: &Vec<u64>, Ghost(cs): Ghost<Seq<Cell>>, k: usize) -> (r: (u8, u64))
        requires
            self.wf(),
            k < z@.len(),
            z@.len() == cs.len(),
            z@[k as int] == zuniq_of(cs[k as int].depth as int, cs[k as int].idx as int),
            is_moc_cell::<Hpx<u64>>(self.rs(), self.depth() as int, cs[k as int].depth as int, cell_lo::<Hpx<u64>>(cs[k as int])),
        ensures
            r.0 == cs[k as int].depth,
            r.1 == cs[k as int].idx,
    {
        let ghost c = cs[k as int];
        proof {
            crate::qty::lemma_hpx_consts();
            Hpx::<u64>::lemma_qty();
            self.lemma_moc_cell_index(c);
            crate::laws::law_zuniq_round_trip::<Hpx<u64>>(c.depth, c.idx, z@[k as int], (c.depth, c.idx));
            assert(((29 - c.depth) * 2) as nat == ((<Hpx<u64> as MocQty<u64>>::MAX_DEPTH - c.depth) * 2) as nat);
        }
        let r = Hpx::<u64>::from_zuniq(z[k]);
        proof {
            crate::laws::law_zuniq_round_trip::<Hpx<u64>>(c.depth, c.idx, z@[k as int], r);
        }
        r
    }

    /// The index of a cell of the MOC is in the domain.
    proof fn lemma_moc_cell_index(&self, c: Cell)
        requires
            self.wf(),
            is_moc_cell::<Hpx<u64>>(self.rs(), self.depth() as int, c.depth as int, cell_lo::<Hpx<u64>>(c)),
        ensures
            c.depth <= 29,
            (c.idx as int) < <Hpx<u64> as MocableQty>::N_D0_CELLS * pow2((c.depth * <Hpx<u64> as MocableQty>::DIM) as nat),
            (c.idx as int) < 12 * pow2((2 * c.depth) as nat),
    {
        crate::qty::lemma_hpx_consts();
        Hpx::<u64>::lemma_qty();
        let lo = cell_lo::<Hpx<u64>>(c);
        let l = hcl(c.depth as int);
        crate::moc::lemma_cell_len::<Hpx<u64>>(c.depth as int, c.depth as int);
        crate::moc::lemma_ends_le(self.rs(), <Hpx<u64> as MocQty<u64>>::spec_n_cells_max());
        let k = choose|k: int| 0 <= k < self.rs().len() && (#[trigger] self.rs()[k]).start <= lo && lo + l <= self.rs()[k].end;
        assert(self.rs()[k].end <= <Hpx<u64> as MocQty<u64>>::spec_n_cells_max());
        vstd::arithmetic::mul::lemma_mul_is_distributive_add_other_way(l, c.idx as int, 1);
        vstd::arithmetic::mul::lemma_mul_is_commutative(l, c.idx as int);
        vstd::arithmetic::mul::lemma_mul_is_commutative(l, c.idx + 1);
        crate::cells::lemma_cell_idx_bound::<Hpx<u64>>(c.depth as int, c.idx as int);
        assert((c.depth * 2) as nat == (2 * c.depth) as nat);
    }

    /// A cell `cs[k]` of lower depth with the index `n >> 2 (d - depth)` holds the cell `n` of
    /// depth `d`.
    proof fn lemma_lower_cell_found(&self, cs: Seq<Cell>, k: int, d: int, n: int)
        requires
            self.wf(),
            0 <= k < cs.len(),
            is_moc_cell::<Hpx<u64>>(self.rs(), self.depth() as int, cs[k].depth as int, cell_lo::<Hpx<u64>>(cs[k])),
            cs[k].depth < d <= 29,
            0 <= n <= u64::MAX,
            ((n as u64) >> ((d - cs[k].depth) as u64 * 2)) == cs[k].idx,
        ensures
            in_lower_cell(*self, d, n),
    {
        let c = cs[k];
        let sh = ((d - c.depth) as u64 * 2) as u64;
        vstd::bits::lemma_u64_shr_is_div(n as u64, sh);
        lemma_holds_cell(c.depth as int, c.idx as int, d, n);
        assert(is_moc_cell::<Hpx<u64>>(self.rs(), self.depth() as int, c.depth as int, cell_lo::<Hpx<u64>>(c)));
    }

    /// The cell `cs[k]` of lower depth holding the cell `n` of depth `d` is next to the
    /// position `i` of the `zuniq` value of `n`.
    proof fn lemma_lower_cell_next(&self, z: Seq<u64>, cs: Seq<Cell>, k: int, i: int, d: int, n: int)
        requires
            self.wf(),
            0 <= k < cs.len(),
            z.len() == cs.len(),
            0 <= i <= z.len(),
            0 <= d <= 29,
            0 <= n,
            increasing(z),
            forall|j: int| 0 <= j < cs.len() ==> #[trigger] z[j] == zuniq_of(cs[j].depth as int, cs[j].idx as int),
            forall|j: int|
                0 <= j < cs.len() ==> is_moc_cell::<Hpx<u64>>(
                    self.rs(),
                    self.depth() as int,
                    (#[trigger] cs[j]).depth as int,
                    cell_lo::<Hpx<u64>>(cs[j]),
                ),
            forall|a: int, b: int|
                0 <= a < b < cs.len() ==> cell_lo::<Hpx<u64>>(#[trigger] cs[a]) + hcl(cs[a].depth as int) <= cell_lo::<
                    Hpx<u64>,
                >(#[trigger] cs[b]),
            forall|j: int| 0 <= j < i ==> z[j] < zuniq_of(d, n),
            forall|j: int| i <= j < z.len() ==> z[j] > zuniq_of(d, n),
            cs[k].depth < d,
            cell_lo::<Hpx<u64>>(cs[k]) <= n * hcl(d) < cell_lo::<Hpx<u64>>(cs[k]) + hcl(cs[k].depth as int),
        ensures
            (k == i - 1 || k == i),
            cs[k].depth < d,
            n / (pow2((2 * (d - cs[k].depth)) as nat) as int) == cs[k].idx,
    {
        let c = cs[k];
        crate::qty::lemma_hpx_consts();
        assert(is_moc_cell::<Hpx<u64>>(self.rs(), self.depth() as int, c.depth as int, cell_lo::<Hpx<u64>>(c)));
        lemma_holds_cell(c.depth as int, c.idx as int, d, n);
        crate::moc::lemma_cell_len::<Hpx<u64>>(c.depth as int, d);
        let lo_k = cell_lo::<Hpx<u64>>(c);
        let hi_k = lo_k + hcl(c.depth as int);
        let lo_n = n * hcl(d);
        let hi_n = lo_n + hcl(d);
        // zuniq values as sums of the bounds.
        assert(z[k] == lo_k + hi_k) by {
            vstd::arithmetic::mul::lemma_mul_is_distributive_add_other_way(hcl(c.depth as int), 2 * c.idx, 1);
            vstd::arithmetic::mul::lemma_mul_is_commutative(hcl(c.depth as int), 2 * c.idx + 1);
            vstd::arithmetic::mul::lemma_mul_is_commutative(hcl(c.depth as int), 2 * c.idx);
            vstd::arithmetic::mul::lemma_mul_is_associative(2, c.idx as int, hcl(c.depth as int));
        }
        assert(zuniq_of(d, n) == lo_n + hi_n) by {
            vstd::arithmetic::mul::lemma_mul_is_distributive_add_other_way(hcl(d), 2 * n, 1);
            vstd::arithmetic::mul::lemma_mul_is_commutative(hcl(d), 2 * n + 1);
            vstd::arithmetic::mul::lemma_mul_is_commutative(hcl(d), 2 * n);
            vstd::arithmetic::mul::lemma_mul_is_associative(2, n, hcl(d));
        }
        crate::moc::lemma_cell_len::<Hpx<u64>>(d, d);
        assert(hi_n <= hi_k) by {
            let q = pow2((2 * (d - c.depth)) as nat) as int;
            crate::arith::lemma_div_char(n, q, c.idx as int);
            lemma_pow2_pos((2 * (d - c.depth)) as nat);
            vstd::arithmetic::mul::lemma_mul_is_distributive_add_other_way(q, c.idx as int, 1);
            vstd::arithmetic::mul::lemma_mul_is_commutative(q, c.idx as int);
            vstd::arithmetic::mul::lemma_mul_is_commutative(q, c.idx + 1);
            vstd::arithmetic::mul::lemma_mul_inequality(n + 1, (c.idx + 1) * q, hcl(d));
            vstd::arithmetic::mul::lemma_mul_is_distributive_add_other_way(hcl(d), n, 1);
            vstd::arithmetic::mul::lemma_mul_is_commutative(hcl(d), n);
            vstd::arithmetic::mul::lemma_mul_is_commutative(hcl(d), n + 1);
            vstd::arithmetic::mul::lemma_mul_is_associative(c.idx + 1, q, hcl(d));
            vstd::arithmetic::mul::lemma_mul_is_distributive_add_other_way(hcl(c.depth as int), c.idx as int, 1);
            vstd::arithmetic::mul::lemma_mul_is_commutative(hcl(c.depth as int), c.idx as int);
            vstd::arithmetic::mul::lemma_mul_is_commutative(hcl(c.depth as int), c.idx + 1);
        }
        assert(lo_k <= lo_n && hi_n <= hi_k && lo_n < hi_n);
        if z[k] == zuniq_of(d, n) {
            crate::cells::lemma_cell_idx_nonneg::<Hpx<u64>>(c);
            lemma_zuniq_injective(c.depth as int, c.idx as int, d, n);
        }
        assert forall|j: int| 0 <= j < cs.len() && j != k implies (#[trigger] z[j] < zuniq_of(d, n)) <==> (z[j] < z[k]) by {
            let cj = cs[j];
            assert(is_moc_cell::<Hpx<u64>>(self.rs(), self.depth() as int, cj.depth as int, cell_lo::<Hpx<u64>>(cj)));
            crate::moc::lemma_cell_len::<Hpx<u64>>(cj.depth as int, cj.depth as int);
            let lo_j = cell_lo::<Hpx<u64>>(cj);
            let hi_j = lo_j + hcl(cj.depth as int);
            assert(z[j] == lo_j + hi_j) by {
                vstd::arithmetic::mul::lemma_mul_is_distributive_add_other_way(hcl(cj.depth as int), 2 * cj.idx, 1);
                vstd::arithmetic::mul::lemma_mul_is_commutative(hcl(cj.depth as int), 2 * cj.idx + 1);
                vstd::arithmetic::mul::lemma_mul_is_commutative(hcl(cj.depth as int), 2 * cj.idx);
                vstd::arithmetic::mul::lemma_mul_is_associative(2, cj.idx as int, hcl(cj.depth as int));
            }
            if j < k {
                assert(cell_lo::<Hpx<u64>>(cs[j]) + hcl(cs[j].depth as int) <= cell_lo::<Hpx<u64>>(cs[k]));
            } else {
                assert(cell_lo::<Hpx<u64>>(cs[k]) + hcl(cs[k].depth as int) <= cell_lo::<Hpx<u64>>(cs[j]));
            }
            lemma_same_side(lo_j, hi_j, lo_k, hi_k, lo_n, hi_n);
        }
        if z[k] < zuniq_of(d, n) {
            if k < i - 1 {
                assert(z[i - 1] < zuniq_of(d, n));
                assert(z[k] < z[i - 1]);
            }
            if k >= i {
                assert(z[k] > zuniq_of(d, n));
            }
        } else {
            if k > i {
                assert(z[i] > zuniq_of(d, n));
                assert(z[i] < z[k]);
            }
            if k < i {
                assert(z[k] < zuniq_of(d, n));
            }
        }
    }
}

/// The edges `e` of the cell `idx` of depth `d` are, in each direction whose neighbour lies in
/// the same base cell, those drawn from this cell with the cell across them: north-east is
/// the cell one step up the first coordinate, south-east one step down the second, north-west
/// one step up the second and south-west one step down the first.
pub open spec fn once_edges_across(m: RangeMOC<u64, Hpx<u64>>, d: u8, idx: u64, e: OrdinalSet) -> bool {
    &&& step_in_base(d, idx, 1, 0) ==> e.ne == once_edge(m, d, idx, Some(shifted(d, idx, 1, 0) as u64))
    &&& step_in_base(d, idx, 0, -1) ==> e.se == once_edge(m, d, idx, Some(shifted(d, idx, 0, -1) as u64))
    &&& step_in_base(d, idx, 0, 1) ==> e.nw == once_edge(m, d, idx, Some(shifted(d, idx, 0, 1) as u64))
    &&& step_in_base(d, idx, -1, 0) ==> e.sw == once_edge(m, d, idx, Some(shifted(d, idx, -1, 0) as u64))
}

/// The entry `e` is a cell of the MOC, in the uniq notation, with its edges drawn from it;
/// in each direction whose neighbour lies in the same base cell, the edge is given by the
/// cell across it.
pub open spec fn is_once_entry(m: RangeMOC<u64, Hpx<u64>>, e: CellAndEdges<u64>) -> bool {
    exists|d: int, idx: int|
        #[trigger] is_cell_in(m, d, idx) && 0 <= d <= 29 && 0 <= idx && e.uniq == uniq_of(d as u8, idx) && e.edges
            == once_edges(m, d as u8, idx as u64) && once_edges_across(m, d as u8, idx as u64, e.edges)
}

/// The entry `e` is the cell `cs[q]` with its edges drawn from it.
pub open spec fn entry_from(m: RangeMOC<u64, Hpx<u64>>, cs: Seq<Cell>, e: CellAndEdges<u64>, q: int) -> bool {
    &&& 0 <= q < cs.len()
    &&& e.uniq == uniq_of(cs[q].depth, cs[q].idx as int)
    &&& e.edges == once_edges(m, cs[q].depth, cs[q].idx)
    &&& once_edges_across(m, cs[q].depth, cs[q].idx, e.edges)
}

/// `cs` are the cells of the MOC, in increasing order.
pub open spec fn moc_cells(m: RangeMOC<u64, Hpx<u64>>, cs: Seq<Cell>) -> bool {
    &&& forall|k: int|
        0 <= k < cs.len() ==> is_moc_cell::<Hpx<u64>>(
            m.rs(),
            m.depth() as int,
            (#[trigger] cs[k]).depth as int,
            cell_lo::<Hpx<u64>>(cs[k]),
        )
    &&& forall|d: int, lo: int|
        #[trigger] is_moc_cell::<Hpx<u64>>(m.rs(), m.depth() as int, d, lo) ==> exists|j: int|
            0 <= j < cs.len() && (#[trigger] cs[j]).depth == d && cell_lo::<Hpx<u64>>(cs[j]) == lo
    &&& forall|i: int, j: int|
        0 <= i < j < cs.len() ==> cell_lo::<Hpx<u64>>(#[trigger] cs[i]) + hcl(cs[i].depth as int) <= cell_lo::<Hpx<u64>>(
            #[trigger] cs[j],
        )
}

impl RangeMOC<u64, Hpx<u64>> {
    /// The `zuniq` values of the cells, which increase with the cells.
    fn zuniqs_of_cells(&self, cells: &Vec<Cell>) -> (z: Vec<u64>)
        requires
            self.wf(),
            moc_cells(*self, cells@),
        ensures
            z@.len() == cells@.len(),
            increasing(z@),
            forall|k: int| 0 <= k < cells@.len() ==> #[trigger] z@[k] == zuniq_of(cells@[k].depth as int, cells@[k].idx as int),
    {
        let n = cells.len();
        let mut z: Vec<u64> = Vec::new();
        let mut k: usize = 0;
        while k < n
            invariant
                self.wf(),
                n == cells@.len(),
                moc_cells(*self, cells@),
                k <= n,
                z@.len() == k,
                forall|j: int| 0 <= j < k ==> #[trigger] z@[j] == zuniq_of(cells@[j].depth as int, cells@[j].idx as int),
            decreases n - k,
        {
            let c = cells[k];
            proof {
                assert(is_moc_cell::<Hpx<u64>>(self.rs(), self.depth() as int, cells@[k as int].depth as int, cell_lo::<Hpx<u64>>(cells@[k as int])));
                self.lemma_moc_cell_index(c);
                crate::qty::lemma_hpx_consts();
                assert(((29 - c.depth) * 2) as nat == ((<Hpx<u64> as MocQty<u64>>::MAX_DEPTH - c.depth) * 2) as nat);
            }
            z.push(Hpx::<u64>::to_zuniq(c.depth, c.idx));
            k = k + 1;
        }
        proof {
            assert forall|a: int, b: int| 0 <= a < b < z@.len() implies z@[a] < z@[b] by {
                let ca = cells@[a];
                let cb = cells@[b];
                assert(cell_lo::<Hpx<u64>>(ca) + hcl(ca.depth as int) <= cell_lo::<Hpx<u64>>(cb));
                assert(is_moc_cell::<Hpx<u64>>(self.rs(), self.depth() as int, ca.depth as int, cell_lo::<Hpx<u64>>(ca)));
                assert(is_moc_cell::<Hpx<u64>>(self.rs(), self.depth() as int, cb.depth as int, cell_lo::<Hpx<u64>>(cb)));
                crate::qty::lemma_hpx_consts();
                crate::moc::lemma_cell_len::<Hpx<u64>>(ca.depth as int, ca.depth as int);
                crate::moc::lemma_cell_len::<Hpx<u64>>(cb.depth as int, cb.depth as int);
                lemma_zuniq_bounds(ca);
                lemma_zuniq_bounds(cb);
            }
        }
        z
    }

    /// The edges of the cell `idx` of depth `d` of the MOC drawn from it.
    fn cell_once_edges(&self, z: &Vec<u64>, Ghost(cs): Ghost<Seq<Cell>>, d: u8, idx: u64) -> (e: OrdinalSet)
        requires
            self.wf(),
            d <= self.depth(),
            (idx as int) < 12 * pow2((2 * d) as nat),
            moc_cells(*self, cs),
            z@.len() == cs.len(),
            increasing(z@),
            forall|k: int| 0 <= k < cs.len() ==> #[trigger] z@[k] == zuniq_of(cs[k].depth as int, cs[k].idx as int),
        ensures
            e == once_edges(*self, d, idx),
            once_edges_across(*self, d, idx, e),
    {
        proof {
            crate::qty::lemma_hpx_consts();
        }
        let nb = edge_neighbours(d, idx);
        let mut edges = OrdinalSet::new();
        match nb.0 {
            Some(h) => {
                if self.edge_from_cell(z, Ghost(cs), d, idx, h) {
                    edges.ne = true;
                }
            },
            None => {},
        }
        match nb.1 {
            Some(h) => {
                if self.edge_from_cell(z, Ghost(cs), d, idx, h) {
                    edges.se = true;
                }
            },
            None => {},
        }
        match nb.2 {
            Some(h) => {
                if self.edge_from_cell(z, Ghost(cs), d, idx, h) {
                    edges.nw = true;
                }
            },
            None => {},
        }
        match nb.3 {
            Some(h) => {
                if self.edge_from_cell(z, Ghost(cs), d, idx, h) {
                    edges.sw = true;
                }
            },
            None => {},
        }
        edges
    }

    /// Appends the cells of depth `d`, in increasing order, with their edges drawn from them.
    fn push_cells_of_depth(
        &self,
        d: u8,
        cells: &Vec<Cell>,
        z: &Vec<u64>,
        r: &mut Vec<CellAndEdges<u64>>,
    ) -> (src: Ghost<Seq<int>>)
        requires
            self.wf(),
            d <= self.depth(),
            moc_cells(*self, cells@),
            z@.len() == cells@.len(),
            increasing(z@),
            forall|k: int| 0 <= k < cells@.len() ==> #[trigger] z@[k] == zuniq_of(cells@[k].depth as int, cells@[k].idx as int),
            forall|a: int, b: int| 0 <= a < b < old(r)@.len() ==> old(r)@[a].uniq < old(r)@[b].uniq,
            forall|j: int| 0 <= j < old(r)@.len() ==> (#[trigger] old(r)@[j]).uniq < pow2(2 * d as nat + 2),
        ensures
            final(r)@.len() >= old(r)@.len(),
            final(r)@.subrange(0, old(r)@.len() as int) == old(r)@,
            forall|a: int, b: int| 0 <= a < b < final(r)@.len() ==> final(r)@[a].uniq < final(r)@[b].uniq,
            forall|j: int| 0 <= j < final(r)@.len() ==> (#[trigger] final(r)@[j]).uniq < pow2(2 * d as nat + 4),
            src@.len() == final(r)@.len() - old(r)@.len(),
            forall|j: int|
                old(r)@.len() <= j < final(r)@.len() ==> entry_from(*self, cells@, #[trigger] final(r)@[j], src@[j - old(r)@.len()])
                    && cells@[src@[j - old(r)@.len()]].depth == d,
            forall|q: int| 0 <= q < cells@.len() && (#[trigger] cells@[q]).depth == d ==> exists|j: int|
                0 <= j < final(r)@.len() && final(r)@[j].uniq == uniq_of(cells@[q].depth, cells@[q].idx as int),
    {
        let ghost cs = cells@;
        let ghost r_in = r@;
        let ghost mut src: Seq<int> = Seq::empty();
        let n = cells.len();
        proof {
            crate::qty::lemma_hpx_consts();
            lemma_pow2_strictly_increases(2 * d as nat + 2, 2 * d as nat + 4);
        }
        let mut k: usize = 0;
        while k < n
            invariant
                self.wf(),
                d <= self.depth(),
                self.depth() <= 29,
                cs == cells@,
                n == cs.len(),
                k <= n,
                moc_cells(*self, cs),
                z@.len() == cs.len(),
                increasing(z@),
                forall|q: int| 0 <= q < cs.len() ==> #[trigger] z@[q] == zuniq_of(cs[q].depth as int, cs[q].idx as int),
                r@.len() >= r_in.len(),
                r@.subrange(0, r_in.len() as int) == r_in,
                forall|a: int, b: int| 0 <= a < b < r@.len() ==> r@[a].uniq < r@[b].uniq,
                forall|j: int| 0 <= j < r@.len() ==> (#[trigger] r@[j]).uniq < pow2(2 * d as nat + 4),
                forall|j: int| 0 <= j < r_in.len() ==> (#[trigger] r@[j]).uniq < pow2(2 * d as nat + 2),
                forall|j: int, q: int|
                    r_in.len() <= j < r@.len() && k <= q < cs.len() && (#[trigger] cs[q]).depth == d ==> (#[trigger] r@[j]).uniq
                        < uniq_of(d, cs[q].idx as int),
                src.len() == r@.len() - r_in.len(),
                forall|j: int|
                    r_in.len() <= j < r@.len() ==> entry_from(*self, cs, #[trigger] r@[j], src[j - r_in.len()])
                        && cs[src[j - r_in.len()]].depth == d,
                forall|q: int| 0 <= q < k && (#[trigger] cs[q]).depth == d ==> exists|j: int|
                    0 <= j < r@.len() && r@[j].uniq == uniq_of(cs[q].depth, cs[q].idx as int),
            decreases n - k,
        {
            let c = cells[k];
            if c.depth == d {
                proof {
                    assert(is_moc_cell::<Hpx<u64>>(self.rs(), self.depth() as int, cs[k as int].depth as int, cell_lo::<Hpx<u64>>(cs[k as int])));
                    self.lemma_moc_cell_index(c);
                    lemma_uniq_bounds(d, c.idx as int);
                }
                let edges = self.cell_once_edges(z, Ghost(cs), d, c.idx);
                let uniq = Hpx::<u64>::uniq_hpx(d, c.idx);
                let ghost r0 = r@;
                r.push(CellAndEdges { uniq, edges });
                proof {
                    assert(r@.subrange(0, r_in.len() as int) =~= r0.subrange(0, r_in.len() as int));
                    assert forall|a: int, b: int| 0 <= a < b < r@.len() implies r@[a].uniq < r@[b].uniq by {
                        if b == r0.len() {
                            if a >= r_in.len() {
                                assert(r0[a].uniq < uniq_of(d, cs[k as int].idx as int));
                            } else {
                                assert(r0[a].uniq < pow2(2 * d as nat + 2));
                            }
                        }
                    }
                    assert forall|j: int, q: int|
                        r_in.len() <= j < r@.len() && k + 1 <= q < cs.len() && (#[trigger] cs[q]).depth == d implies (
                        #[trigger] r@[j]).uniq < uniq_of(d, cs[q].idx as int) by {
                        if j == r0.len() {
                            assert(cell_lo::<Hpx<u64>>(cs[k as int]) + hcl(d as int) <= cell_lo::<Hpx<u64>>(cs[q]));
                            crate::moc::lemma_cell_len::<Hpx<u64>>(d as int, d as int);
                            vstd::arithmetic::mul::lemma_mul_is_distributive_add_other_way(hcl(d as int), c.idx as int, 1);
                            vstd::arithmetic::mul::lemma_mul_is_commutative(hcl(d as int), c.idx as int);
                            vstd::arithmetic::mul::lemma_mul_is_commutative(hcl(d as int), c.idx + 1);
                            vstd::arithmetic::mul::lemma_mul_is_commutative(hcl(d as int), cs[q].idx as int);
                            if cs[q].idx < c.idx + 1 {
                                vstd::arithmetic::mul::lemma_mul_strict_inequality(cs[q].idx as int, c.idx + 1, hcl(d as int));
                            }
                        } else {
                            assert(r0[j].uniq < uniq_of(d, cs[q].idx as int));
                        }
                    }
                    let ghost src0 = src;
                    src = src.push(k as int);
                    assert forall|j: int| r_in.len() <= j < r@.len() implies entry_from(*self, cs, #[trigger] r@[j], src[j - r_in.len()])
                        && cs[src[j - r_in.len()]].depth == d by {
                        if j < r0.len() {
                            assert(r@[j] == r0[j]);
                            assert(src[j - r_in.len()] == src0[j - r_in.len()]);
                        }
                    }
                    assert forall|q: int| 0 <= q < k + 1 && (#[trigger] cs[q]).depth == d implies exists|j: int|
                        0 <= j < r@.len() && r@[j].uniq == uniq_of(cs[q].depth, cs[q].idx as int) by {
                        if q == k {
                            assert(r@[r0.len() as int].uniq == uniq_of(cs[q].depth, cs[q].idx as int));
                        } else {
                            let j = choose|j: int| 0 <= j < r0.len() && r0[j].uniq == uniq_of(cs[q].depth, cs[q].idx as int);
                            assert(r@[j] == r0[j]);
                        }
                    }
                }
            }
            k = k + 1;
        }
        Ghost(src)
    }

    /// For each cell of the MOC, in increasing order of the uniq values, its edges drawn from
    /// it (see [`once_edge`]): drawing them all draws each edge between two cells once. In
    /// each direction whose neighbour lies in the same base cell, the edge is decided on the
    /// cell across it (see [`once_edges_across`]).
    pub fn all_edges_only_once(&self) -> (r: Vec<CellAndEdges<u64>>)
        requires
            self.wf(),
        ensures
            forall|i: int, j: int| 0 <= i < j < r@.len() ==> r@[i].uniq < r@[j].uniq,
            forall|j: int| 0 <= j < r@.len() ==> is_once_entry(*self, #[trigger] r@[j]),
            forall|d: int, idx: int|
                #[trigger] is_cell_in(*self, d, idx) && 0 <= idx ==> exists|j: int|
                    0 <= j < r@.len() && r@[j].uniq == uniq_of(d as u8, idx),
    {
        let depth_max = self.depth_max();
        let cells = self.cells();
        let ghost cs = cells@;
        let z = self.zuniqs_of_cells(&cells);
        let mut r: Vec<CellAndEdges<u64>> = Vec::new();
        let ghost mut src: Seq<int> = Seq::empty();
        let mut d: u8 = 0;
        proof {
            crate::qty::lemma_hpx_consts();
        }
        while d <= depth_max
            invariant
                self.wf(),
                depth_max == self.depth(),
                depth_max <= 29,
                d <= depth_max + 1,
                cs == cells@,
                moc_cells(*self, cs),
                z@.len() == cs.len(),
                increasing(z@),
                forall|k: int| 0 <= k < cs.len() ==> #[trigger] z@[k] == zuniq_of(cs[k].depth as int, cs[k].idx as int),
                forall|a: int, b: int| 0 <= a < b < r@.len() ==> r@[a].uniq < r@[b].uniq,
                forall|j: int| 0 <= j < r@.len() ==> (#[trigger] r@[j]).uniq < pow2(2 * d as nat + 2),
                src.len() == r@.len(),
                forall|j: int| 0 <= j < r@.len() ==> entry_from(*self, cs, #[trigger] r@[j], src[j]) && cs[src[j]].depth < d,
                forall|k: int| 0 <= k < cs.len() && (#[trigger] cs[k]).depth < d ==> exists|j: int|
                    0 <= j < r@.len() && r@[j].uniq == uniq_of(cs[k].depth, cs[k].idx as int),
            decreases depth_max + 1 - d,
        {
            let ghost r0 = r@;
            let Ghost(added) = self.push_cells_of_depth(d, &cells, &z, &mut r);
            proof {
                let src0 = src;
                src = src + added;
                assert forall|j: int| 0 <= j < r@.len() implies (#[trigger] r@[j]).uniq < pow2(2 * (d + 1) as nat + 2) by {
                    assert(2 * (d + 1) as nat + 2 == 2 * d as nat + 4);
                }
                assert forall|j: int| 0 <= j < r@.len() implies entry_from(*self, cs, #[trigger] r@[j], src[j]) && cs[src[j]].depth < d + 1 by {
                    if j < r0.len() {
                        assert(r@[j] == r@.subrange(0, r0.len() as int)[j]);
                        assert(r@[j] == r0[j]);
                        assert(src[j] == src0[j]);
                    } else {
                        assert(src[j] == added[j - r0.len()]);
                    }
                }
                assert forall|k: int| 0 <= k < cs.len() && (#[trigger] cs[k]).depth < d + 1 implies exists|j: int|
                    0 <= j < r@.len() && r@[j].uniq == uniq_of(cs[k].depth, cs[k].idx as int) by {
                    if cs[k].depth < d {
                        let j = choose|j: int| 0 <= j < r0.len() && r0[j].uniq == uniq_of(cs[k].depth, cs[k].idx as int);
                        assert(r@[j] == r@.subrange(0, r0.len() as int)[j]);
                    }
                }
            }
            d = d + 1;
        }
        proof {
            assert forall|j: int| 0 <= j < r@.len() implies is_once_entry(*self, #[trigger] r@[j]) by {
                let q = src[j];
                assert(entry_from(*self, cs, r@[j], q));
                crate::qty::lemma_hpx_consts();
                let c = cs[q];
                assert(is_moc_cell::<Hpx<u64>>(self.rs(), self.depth() as int, c.depth as int, cell_lo::<Hpx<u64>>(c)));
                vstd::arithmetic::mul::lemma_mul_is_commutative(c.idx as int, hcl(c.depth as int));
                assert(is_cell_in(*self, c.depth as int, c.idx as int));
                assert(r@[j].uniq == uniq_of((c.depth as int) as u8, c.idx as int));
                assert(r@[j].edges == once_edges(*self, (c.depth as int) as u8, (c.idx as int) as u64));
            }
            assert forall|dd: int, idx: int| #[trigger] is_cell_in(*self, dd, idx) && 0 <= idx implies exists|j: int|
                0 <= j < r@.len() && r@[j].uniq == uniq_of(dd as u8, idx) by {
                let lo = idx * hcl(dd);
                assert(is_moc_cell::<Hpx<u64>>(self.rs(), self.depth() as int, dd, lo));
                let q = choose|q: int| 0 <= q < cs.len() && (#[trigger] cs[q]).depth == dd && cell_lo::<Hpx<u64>>(cs[q]) == lo;
                crate::moc::lemma_cell_len::<Hpx<u64>>(dd, dd);
                vstd::arithmetic::mul::lemma_mul_is_commutative(cs[q].idx as int, hcl(dd));
                vstd::arithmetic::mul::lemma_mul_is_commutative(idx, hcl(dd));
                vstd::arithmetic::mul::lemma_mul_equality_converse(hcl(dd), cs[q].idx as int, idx);
                assert(cs[q].depth < d);
            }
        }
        r
    }
}

/// The `zuniq` value of a cell is the sum of its bounds.
proof fn lemma_zuniq_bounds(c: Cell)
    requires
        c.depth <= 29,
    ensures
        zuniq_of(c.depth as int, c.idx as int) == cell_lo::<Hpx<u64>>(c) + (cell_lo::<Hpx<u64>>(c) + hcl(c.depth as int)),
{
    let l = hcl(c.depth as int);
    vstd::arithmetic::mul::lemma_mul_is_distributive_add_other_way(l, 2 * c.idx, 1);
    vstd::arithmetic::mul::lemma_mul_is_commutative(l, 2 * c.idx + 1);
    vstd::arithmetic::mul::lemma_mul_is_commutative(l, 2 * c.idx);
    vstd::arithmetic::mul::lemma_mul_is_associative(2, c.idx as int, l);
}

/// The uniq value of a cell of depth `d` lies in `[4^(d+1), 4^(d+2)[` and fits in a `u64`.
proof fn lemma_uniq_bounds(d: u8, idx: int)
    requires
        d <= 29,
        0 <= idx < 12 * pow2((2 * d) as nat),
    ensures
        pow2(2 * d as nat + 2) <= uniq_of(d, idx) < pow2(2 * d as nat + 4),
        uniq_of(d, idx) <= u64::MAX,
{
    lemma_pow2_adds((2 * d) as nat, 2);
    lemma_pow2_adds((2 * d) as nat, 4);
    lemma2_to64();
    lemma2_to64_rest();
    if 2 * d + 4 < 64 {
        lemma_pow2_strictly_increases(2 * d as nat + 4, 64);
    }
}

} // verus!
