//! Splitting a spatial MOC into joint MOCs: groups of cells linked by neighbourhood.

use std::ops::Range;
use vstd::arithmetic::div_mod::*;
use vstd::arithmetic::mul::*;
use vstd::arithmetic::power2::*;
use vstd::bits::*;
use vstd::prelude::*;

use crate::cells::{
    cell_has, cell_len_u64, cell_lo, is_moc_cell, lemma_cell_idx_bound, Cell, CellMOC,
};
use crate::hpx::hpx_external_edge;
use crate::moc::{cell_len, lemma_cell_len, RangeMOC};
use crate::qty::{lemma_hpx_consts, Hpx, MocQty};
use crate::ranges::range_has;

verus! {

/// The cells appended by [`append_edge_cells`].
pub uninterp spec fn hpx_edge_cells(depth: u8, hash: u64, delta_depth: u8) -> Seq<u64>;

/// Calls `cdshealpix::nested::external_edge_struct(depth, hash, delta_depth)` and appends to
/// `dest` the cells of its four edges (south-east, south-west, north-east and north-west, in
/// this order): the cells of depth `depth + delta_depth` outside the cell `hash` of depth `depth`
/// sharing an edge with it, the corner cells (sharing only a vertex) left out. The contract
/// names the appended list, which depends on the arguments alone; which cells it holds is not
/// stated. The function panics on a hash not lower than `12 * 4^depth`.
#[verifier::external_body]
fn append_edge_cells(depth: u8, hash: u64, delta_depth: u8, dest: &mut Vec<u64>)
    requires
        depth as int + delta_depth as int <= 29,
        (hash as int) < 12 * pow2((2 * depth) as nat),
    ensures
        final(dest)@ == old(dest)@ + hpx_edge_cells(depth, hash, delta_depth),
{
    let e = cdshealpix::nested::external_edge_struct(depth, hash, delta_depth);
    dest.extend_from_slice(e.get_edge(&cdshealpix::compass_point::Ordinal::SE));
    dest.extend_from_slice(e.get_edge(&cdshealpix::compass_point::Ordinal::SW));
    dest.extend_from_slice(e.get_edge(&cdshealpix::compass_point::Ordinal::NE));
    dest.extend_from_slice(e.get_edge(&cdshealpix::compass_point::Ordinal::NW));
}

/// The neighbour cells, of depth `dmax`, of the cell `c`: the cells sharing an edge with it,
/// and also those sharing only a vertex with it when `indirect`.
pub open spec fn nbrs(c: Cell, dmax: int, indirect: bool) -> Seq<u64> {
    if indirect {
        hpx_external_edge(c.depth, c.idx, (dmax - c.depth) as u8)
    } else {
        hpx_edge_cells(c.depth, c.idx, (dmax - c.depth) as u8)
    }
}

/// A valid neighbour cell, of depth `dmax`, of `a` lies in `b`.
pub open spec fn adjc(dmax: int, indirect: bool, a: Cell, b: Cell) -> bool {
    exists|k: int|
        0 <= k < nbrs(a, dmax, indirect).len() && (#[trigger] nbrs(a, dmax, indirect)[k]) < 12 * pow2((2 * dmax) as nat)
            && cell_has::<Hpx<u64>>(b, nbrs(a, dmax, indirect)[k] * cell_len::<Hpx<u64>>(dmax))
}

/// `b` is reached from `a` in at most `n` steps from a cell to a neighbouring one, through the
/// cells of `comp`.
pub open spec fn reach(dmax: int, indirect: bool, comp: Seq<Cell>, a: Cell, b: Cell, n: nat) -> bool
    decreases n,
{
    if n == 0 {
        a == b
    } else {
        reach(dmax, indirect, comp, a, b, (n - 1) as nat) || exists|k: int|
            0 <= k < comp.len() && reach(dmax, indirect, comp, a, comp[k], (n - 1) as nat) && #[trigger] adjc(
                dmax,
                indirect,
                comp[k],
                b,
            )
    }
}

/// Reaching through the cells of `comp` is reaching through any larger set of cells.
pub proof fn lemma_reach_mono(dmax: int, indirect: bool, comp: Seq<Cell>, comp2: Seq<Cell>, a: Cell, b: Cell, n: nat)
    requires
        forall|k: int| 0 <= k < comp.len() ==> comp2.contains(#[trigger] comp[k]),
        reach(dmax, indirect, comp, a, b, n),
    ensures
        reach(dmax, indirect, comp2, a, b, n),
    decreases n,
{
    if n > 0 {
        if reach(dmax, indirect, comp, a, b, (n - 1) as nat) {
            lemma_reach_mono(dmax, indirect, comp, comp2, a, b, (n - 1) as nat);
        } else {
            let k = choose|k: int|
                0 <= k < comp.len() && reach(dmax, indirect, comp, a, comp[k], (n - 1) as nat) && #[trigger] adjc(
                    dmax,
                    indirect,
                    comp[k],
                    b,
                );
            lemma_reach_mono(dmax, indirect, comp, comp2, a, comp[k], (n - 1) as nat);
            assert(comp2.contains(comp[k]));
            let k2 = choose|k2: int| 0 <= k2 < comp2.len() && comp2[k2] == comp[k];
            assert(adjc(dmax, indirect, comp2[k2], b));
        }
    }
}

/// A path can be extended by one more step.
pub proof fn lemma_reach_step(dmax: int, indirect: bool, comp: Seq<Cell>, a: Cell, k: int, b: Cell, n: nat)
    requires
        0 <= k < comp.len(),
        reach(dmax, indirect, comp, a, comp[k], n),
        adjc(dmax, indirect, comp[k], b),
    ensures
        reach(dmax, indirect, comp, a, b, n + 1),
{
    assert(reach(dmax, indirect, comp, a, b, n + 1) == (reach(dmax, indirect, comp, a, b, n) || exists|k2: int|
        0 <= k2 < comp.len() && reach(dmax, indirect, comp, a, comp[k2], n) && #[trigger] adjc(dmax, indirect, comp[k2], b)));
}

/// Index of the range holding `v`, if any, in sorted non-overlapping non-empty ranges
/// (binary search).
fn find_in(s: &Vec<Range<u64>>, v: u64) -> (r: Option<usize>)
    requires
        forall|k: int| 0 <= k < s@.len() ==> (#[trigger] s@[k]).start < s@[k].end,
        forall|i: int, j: int| 0 <= i < j < s@.len() ==> (#[trigger] s@[i]).end <= (#[trigger] s@[j]).start,
    ensures
        match r {
            Some(j) => j < s@.len() && range_has(s@[j as int], v as int),
            None => forall|j: int| 0 <= j < s@.len() ==> !#[trigger] range_has(s@[j], v as int),
        },
{
    let mut lo: usize = 0;
    let mut hi: usize = s.len();
    while lo < hi
        invariant
            forall|k: int| 0 <= k < s@.len() ==> (#[trigger] s@[k]).start < s@[k].end,
            forall|i: int, j: int| 0 <= i < j < s@.len() ==> (#[trigger] s@[i]).end <= (#[trigger] s@[j]).start,
            lo <= hi <= s@.len(),
            forall|i: int| 0 <= i < lo ==> (#[trigger] s@[i]).start <= v,
            forall|i: int| hi <= i < s@.len() ==> (#[trigger] s@[i]).start > v,
        decreases hi - lo,
    {
        let mid = lo + (hi - lo) / 2;
        if s[mid].start <= v {
            proof {
                assert forall|i: int| 0 <= i < mid + 1 implies (#[trigger] s@[i]).start <= v by {
                    if i < mid {
                        assert(s@[i].end <= s@[mid as int].start);
                    }
                }
            }
            lo = mid + 1;
        } else {
            proof {
                assert forall|i: int| mid <= i < s@.len() implies (#[trigger] s@[i]).start > v by {
                    if i > mid {
                        assert(s@[mid as int].end <= s@[i].start);
                    }
                }
            }
            hi = mid;
        }
    }
    if lo > 0 && v < s[lo - 1].end {
        Some(lo - 1)
    } else {
        proof {
            assert forall|j: int| 0 <= j < s@.len() implies !#[trigger] range_has(s@[j], v as int) by {
                if j < lo - 1 {
                    assert(s@[j].end <= s@[lo - 1].start);
                }
            }
        }
        None
    }
}

/// Ranges, at the deepest resolution, of the cells.
pub open spec fn cells_ranges_ok(cs: Seq<Cell>, rs: Seq<Range<u64>>) -> bool {
    &&& cs.len() == rs.len()
    &&& forall|j: int|
        0 <= j < cs.len() ==> (#[trigger] rs[j]).start == cell_lo::<Hpx<u64>>(cs[j]) && rs[j].end
            == cell_lo::<Hpx<u64>>(cs[j]) + cell_len::<Hpx<u64>>(cs[j].depth as int)
    &&& forall|k: int| 0 <= k < rs.len() ==> (#[trigger] rs[k]).start < rs[k].end
    &&& forall|i: int, j: int| 0 <= i < j < rs.len() ==> (#[trigger] rs[i]).end <= (#[trigger] rs[j]).start
}

/// The cells are valid cells of depth at most `dmax`.
pub open spec fn cells_valid(cs: Seq<Cell>, dmax: int) -> bool {
    &&& 0 <= dmax <= 29
    &&& forall|j: int|
        0 <= j < cs.len() ==> (#[trigger] cs[j]).depth <= dmax && (cs[j].idx as int) < 12 * pow2((2 * cs[j].depth) as nat)
}

/// The cells of the members.
pub open spec fn members_cells(cs: Seq<Cell>, members: Seq<usize>) -> Seq<Cell> {
    members.map_values(|j: usize| cs[j as int])
}

/// Calls the neighbour function chosen by `indirect`.
fn append_nbrs(c: Cell, dmax: u8, indirect: bool, dest: &mut Vec<u64>)
    requires
        c.depth <= dmax <= 29,
        (c.idx as int) < 12 * pow2((2 * c.depth) as nat),
    ensures
        final(dest)@ == old(dest)@ + nbrs(c, dmax as int, indirect),
{
    if indirect {
        crate::hpx::append_external_edge(c.depth, c.idx, dmax - c.depth, dest);
    } else {
        append_edge_cells(c.depth, c.idx, dmax - c.depth, dest);
    }
}

/// Marks with `c` all the cells reached from the cell `r` through unmarked cells (marked `n`),
/// returning the marked cells.
fn grow(
    cs: &Vec<Cell>,
    rs: &Vec<Range<u64>>,
    comp: &mut Vec<usize>,
    r: usize,
    c: usize,
    dmax: u8,
    indirect: bool,
    l: u64,
    ncells: u64,
) -> (res: (Vec<usize>, Ghost<Seq<nat>>))
    requires
        cells_ranges_ok(cs@, rs@),
        cells_valid(cs@, dmax as int),
        l == cell_len::<Hpx<u64>>(dmax as int),
        ncells == 12 * pow2((2 * dmax) as nat),
        ncells * l <= u64::MAX,
        old(comp)@.len() == cs@.len(),
        r < cs@.len(),
        c < cs@.len(),
        old(comp)@[r as int] == cs@.len(),
        forall|j: int| 0 <= j < old(comp)@.len() ==> #[trigger] old(comp)@[j] == cs@.len() || old(comp)@[j] < c,
    ensures
        final(comp)@.len() == cs@.len(),
        forall|j: int| 0 <= j < cs@.len() && old(comp)@[j] != cs@.len() ==> #[trigger] final(comp)@[j] == old(comp)@[j],
        forall|j: int|
            0 <= j < cs@.len() && old(comp)@[j] == cs@.len() ==> #[trigger] final(comp)@[j] == cs@.len() || final(comp)@[j] == c,
        final(comp)@[r as int] == c,
        forall|j: int| 0 <= j < cs@.len() ==> (#[trigger] final(comp)@[j] == c <==> res.0@.contains(j as usize)),
        forall|q: int| 0 <= q < res.0@.len() ==> (#[trigger] res.0@[q]) < cs@.len(),
        forall|j: int, j2: int|
            0 <= j < cs@.len() && 0 <= j2 < cs@.len() && #[trigger] final(comp)@[j] == c && #[trigger] adjc(
                dmax as int,
                indirect,
                cs@[j],
                cs@[j2],
            ) ==> final(comp)@[j2] != cs@.len(),
        res.1@.len() == res.0@.len(),
        forall|q: int|
            0 <= q < res.0@.len() ==> reach(
                dmax as int,
                indirect,
                members_cells(cs@, res.0@),
                cs@[r as int],
                cs@[#[trigger] res.0@[q] as int],
                res.1@[q],
            ),
{
    let n = cs.len();
    comp.set(r, c);
    let mut members: Vec<usize> = Vec::new();
    members.push(r);
    let ghost mut dist: Seq<nat> = seq![0nat];
    let mut head: usize = 0;
    proof {
        assert forall|j: int| 0 <= j < n implies (#[trigger] comp@[j] == c <==> members@.contains(j as usize)) by {
            if j == r {
                assert(members@[0] == r);
            }
        }
        assert(members_cells(cs@, members@)[0] == cs@[r as int]);
    }
    while head < members.len()
        invariant
            n == cs@.len(),
            cells_ranges_ok(cs@, rs@),
            cells_valid(cs@, dmax as int),
            l == cell_len::<Hpx<u64>>(dmax as int),
            ncells == 12 * pow2((2 * dmax) as nat),
            ncells * l <= u64::MAX,
            r < n,
            c < n,
            comp@.len() == n,
            comp@[r as int] == c,
            forall|j: int| 0 <= j < n && old(comp)@[j] != n ==> #[trigger] comp@[j] == old(comp)@[j],
            forall|j: int| 0 <= j < n && old(comp)@[j] == n ==> #[trigger] comp@[j] == n || comp@[j] == c,
            forall|j: int| 0 <= j < n ==> (#[trigger] comp@[j] == c <==> members@.contains(j as usize)),
            forall|q: int| 0 <= q < members@.len() ==> (#[trigger] members@[q]) < n,
            members@.no_duplicates(),
            head <= members@.len(),
            members@.len() <= n,
            dist.len() == members@.len(),
            forall|q: int, j2: int|
                0 <= q < head && 0 <= j2 < n && #[trigger] adjc(dmax as int, indirect, cs@[members@[q] as int], cs@[j2])
                    ==> comp@[j2] != n,
            forall|q: int|
                0 <= q < members@.len() ==> reach(
                    dmax as int,
                    indirect,
                    members_cells(cs@, members@),
                    cs@[r as int],
                    cs@[#[trigger] members@[q] as int],
                    dist[q],
                ),
        decreases n - head,
    {
        let i = members[head];
        let ci = cs[i];
        let mut nb: Vec<u64> = Vec::new();
        proof {
            assert(ci == cs@[i as int]);
        }
        append_nbrs(ci, dmax, indirect, &mut nb);
        proof {
            assert(nb@ =~= nbrs(ci, dmax as int, indirect));
        }
        let nn = nb.len();
        let mut t: usize = 0;
        while t < nn
            invariant
                n == cs@.len(),
                cells_ranges_ok(cs@, rs@),
                cells_valid(cs@, dmax as int),
                l == cell_len::<Hpx<u64>>(dmax as int),
                ncells == 12 * pow2((2 * dmax) as nat),
                ncells * l <= u64::MAX,
                r < n,
                c < n,
                i < n,
                i == members@[head as int],
                ci == cs@[i as int],
                nb@ == nbrs(ci, dmax as int, indirect),
                nn == nb@.len(),
                t <= nn,
                comp@.len() == n,
                comp@[r as int] == c,
                forall|j: int| 0 <= j < n && old(comp)@[j] != n ==> #[trigger] comp@[j] == old(comp)@[j],
                forall|j: int| 0 <= j < n && old(comp)@[j] == n ==> #[trigger] comp@[j] == n || comp@[j] == c,
                forall|j: int| 0 <= j < n ==> (#[trigger] comp@[j] == c <==> members@.contains(j as usize)),
                forall|q: int| 0 <= q < members@.len() ==> (#[trigger] members@[q]) < n,
                members@.no_duplicates(),
                head < members@.len(),
                members@.len() <= n,
                dist.len() == members@.len(),
                forall|q: int, j2: int|
                    0 <= q < head && 0 <= j2 < n && #[trigger] adjc(dmax as int, indirect, cs@[members@[q] as int], cs@[j2])
                        ==> comp@[j2] != n,
                forall|k: int, j2: int|
                    0 <= k < t && 0 <= j2 < n && nb@[k] < ncells && #[trigger] cell_has::<Hpx<u64>>(cs@[j2], nb@[k] * l)
                        ==> comp@[j2] != n,
                forall|q: int|
                    0 <= q < members@.len() ==> reach(
                        dmax as int,
                        indirect,
                        members_cells(cs@, members@),
                        cs@[r as int],
                        cs@[#[trigger] members@[q] as int],
                        dist[q],
                    ),
            decreases nn - t,
        {
            let h = nb[t];
            if h < ncells {
                proof {
                    lemma_mul_inequality(h as int, ncells as int, l as int);
                }
                let v = h * l;
                match find_in(rs, v) {
                    Some(j) => {
                        if comp[j] == n {
                            let ghost old_members = members@;
                            let ghost old_mc = members_cells(cs@, members@);
                            proof {
                                assert(!members@.contains(j));
                                lemma_distinct_bound(members@.push(j), n as int);
                            }
                            comp.set(j, c);
                            members.push(j);
                            proof {
                                let dh = dist[head as int];
                                dist = dist.push(dh + 1);
                                let mc = members_cells(cs@, members@);
                                assert(mc == old_mc.push(cs@[j as int]));
                                assert forall|q: int|
                                    0 <= q < members@.len() implies reach(
                                        dmax as int,
                                        indirect,
                                        mc,
                                        cs@[r as int],
                                        cs@[#[trigger] members@[q] as int],
                                        dist[q],
                                    ) by {
                                    assert forall|k: int| 0 <= k < old_mc.len() implies mc.contains(#[trigger] old_mc[k]) by {
                                        assert(mc[k] == old_mc[k]);
                                    }
                                    if q < old_members.len() {
                                        assert(members@[q] == old_members[q]);
                                        lemma_reach_mono(dmax as int, indirect, old_mc, mc, cs@[r as int], cs@[members@[q] as int], dist[q]);
                                    } else {
                                        lemma_reach_mono(dmax as int, indirect, old_mc, mc, cs@[r as int], cs@[i as int], dh);
                                        assert(mc[head as int] == cs@[i as int]);
                                        assert(range_has(rs@[j as int], v as int));
                                        assert(adjc(dmax as int, indirect, mc[head as int], cs@[j as int])) by {
                                            assert(nbrs(ci, dmax as int, indirect)[t as int] == h);
                                        }
                                        lemma_reach_step(dmax as int, indirect, mc, cs@[r as int], head as int, cs@[j as int], dh);
                                    }
                                }
                                assert forall|jj: int| 0 <= jj < n implies (#[trigger] comp@[jj] == c <==> members@.contains(jj as usize)) by {
                                    if jj != j {
                                        if old_members.contains(jj as usize) {
                                            let q = choose|q: int| 0 <= q < old_members.len() && old_members[q] == jj as usize;
                                            assert(members@[q] == jj);
                                        }
                                        if members@.contains(jj as usize) {
                                            let q = choose|q: int| 0 <= q < members@.len() && members@[q] == jj as usize;
                                            assert(q < old_members.len());
                                            assert(old_members.contains(jj as usize));
                                        }
                                    } else {
                                        assert(members@[old_members.len() as int] == j);
                                    }
                                }
                            }
                        }
                    },
                    None => {},
                }
            }
            proof {
                assert forall|k: int, j2: int|
                    0 <= k < t + 1 && 0 <= j2 < n && nb@[k] < ncells && #[trigger] cell_has::<Hpx<u64>>(cs@[j2], nb@[k] * l)
                        implies comp@[j2] != n by {
                    if k == t {
                        assert(range_has(rs@[j2], (nb@[k] * l) as int));
                    }
                }
            }
            t = t + 1;
        }
        proof {
            assert forall|q: int, j2: int|
                0 <= q < head + 1 && 0 <= j2 < n && #[trigger] adjc(dmax as int, indirect, cs@[members@[q] as int], cs@[j2])
                    implies comp@[j2] != n by {
                if q == head {
                    let k = choose|k: int|
                        0 <= k < nbrs(cs@[i as int], dmax as int, indirect).len() && (#[trigger] nbrs(cs@[i as int], dmax as int, indirect)[k])
                            < 12 * pow2((2 * dmax) as nat) && cell_has::<Hpx<u64>>(
                            cs@[j2],
                            nbrs(cs@[i as int], dmax as int, indirect)[k] * cell_len::<Hpx<u64>>(dmax as int),
                        );
                    assert(nb@[k] < ncells);
                }
            }
        }
        head = head + 1;
    }
    (members, Ghost(dist))
}

/// Distinct values in `[0, n[` are at most `n`.
proof fn lemma_distinct_bound(s: Seq<usize>, n: int)
    requires
        n >= 0,
        s.no_duplicates(),
        forall|k: int| 0 <= k < s.len() ==> (#[trigger] s[k]) < n,
    ensures
        s.len() <= n,
{
    let si = s.map_values(|v: usize| v as int);
    assert(si.no_duplicates()) by {
        assert forall|a: int, b: int| 0 <= a < si.len() && 0 <= b < si.len() && a != b implies si[a] != si[b] by {
            assert(s[a] != s[b]);
        }
    }
    si.unique_seq_to_set();
    assert(si.to_set().subset_of(vstd::set_lib::set_int_range(0, n))) by {
        assert forall|v: int| si.to_set().contains(v) implies vstd::set_lib::set_int_range(0, n).contains(v) by {
            let k = choose|k: int| 0 <= k < si.len() && si[k] == v;
            assert(s[k] < n);
        }
    }
    vstd::set_lib::lemma_int_range(0, n);
    vstd::set_lib::lemma_len_subset(si.to_set(), vstd::set_lib::set_int_range(0, n));
}

/// The cell is one of the cells of the spatial MOC.
pub open spec fn is_cell_of_moc(m: RangeMOC<u64, Hpx<u64>>, x: Cell) -> bool {
    is_moc_cell::<Hpx<u64>>(m.rs(), m.depth() as int, x.depth as int, cell_lo::<Hpx<u64>>(x))
}

/// Well-formed splitting of the cells of `m` into the groups `out`: each cell of `m` is in one
/// group; in each group, sorted by lower bound, every cell is reached from the first one through
/// neighbours in the group; a neighbour of a cell of a group is in that group or in an earlier
/// group; every cell of a group comes after the first cell of each earlier group.
pub open spec fn joint_split(m: RangeMOC<u64, Hpx<u64>>, indirect: bool, out: Seq<Seq<Cell>>) -> bool {
    let dm = m.depth() as int;
    &&& forall|i: int, k: int| 0 <= i < out.len() && 0 <= k < out[i].len() ==> is_cell_of_moc(m, #[trigger] out[i][k])
    &&& forall|i: int| 0 <= i < out.len() ==> (#[trigger] out[i]).len() > 0
    &&& forall|i: int, k1: int, k2: int|
        0 <= i < out.len() && 0 <= k1 < k2 < out[i].len() ==> cell_lo::<Hpx<u64>>(#[trigger] out[i][k1]) < cell_lo::<Hpx<u64>>(
            #[trigger] out[i][k2],
        )
    &&& forall|x: Cell| #[trigger] is_cell_of_moc(m, x) ==> exists|i: int| 0 <= i < out.len() && #[trigger] out[i].contains(x)
    &&& forall|i1: int, i2: int, x: Cell|
        0 <= i1 < i2 < out.len() ==> !(#[trigger] out[i1].contains(x) && #[trigger] out[i2].contains(x))
    &&& forall|i1: int, i2: int, x: Cell, y: Cell|
        0 <= i1 < out.len() && 0 <= i2 < out.len() && #[trigger] out[i1].contains(x) && #[trigger] out[i2].contains(y)
            && #[trigger] adjc(dm, indirect, x, y) ==> i2 <= i1
    &&& forall|i: int, x: Cell|
        0 <= i < out.len() && #[trigger] out[i].contains(x) ==> exists|d: nat| reach(dm, indirect, out[i], out[i][0], x, d)
    &&& forall|i1: int, i2: int, x: Cell|
        0 <= i1 < i2 < out.len() && #[trigger] out[i2].contains(x) ==> cell_lo::<Hpx<u64>>(#[trigger] out[i1][0]) < cell_lo::<Hpx<u64>>(x)
}

/// The cells `cs` are exactly the cells of `m`, sorted by lower bound.
pub open spec fn sorted_moc_cells(m: RangeMOC<u64, Hpx<u64>>, cs: Seq<Cell>) -> bool {
    &&& forall|q: int|
        0 <= q < cs.len() ==> is_moc_cell::<Hpx<u64>>(
            m.rs(),
            m.depth() as int,
            (#[trigger] cs[q]).depth as int,
            cell_lo::<Hpx<u64>>(cs[q]),
        )
    &&& forall|d: int, lo: int|
        #[trigger] is_moc_cell::<Hpx<u64>>(m.rs(), m.depth() as int, d, lo) ==> exists|j: int|
            0 <= j < cs.len() && (#[trigger] cs[j]).depth == d && cell_lo::<Hpx<u64>>(cs[j]) == lo
    &&& forall|a: int, b: int|
        0 <= a < b < cs.len() ==> cell_lo::<Hpx<u64>>(#[trigger] cs[a]) + cell_len::<Hpx<u64>>(cs[a].depth as int)
            <= cell_lo::<Hpx<u64>>(#[trigger] cs[b])
}

/// State of the splitting once the cells before `r` are grouped: `comp` gives the group of each
/// cell (`cs.len()` for no group yet), `out` the groups and `roots` the first cell of each
/// group.
#[verifier::opaque]
spec fn split_inv(
    dm: int,
    indirect: bool,
    cs: Seq<Cell>,
    comp: Seq<usize>,
    out: Seq<Seq<Cell>>,
    oidx: Seq<Seq<int>>,
    roots: Seq<int>,
    r: int,
) -> bool {
    let n = cs.len();
    let c = out.len();
    &&& oidx.len() == c
    &&& comp.len() == n
    &&& roots.len() == c
    &&& c <= r <= n
    &&& forall|q: int| 0 <= q < n ==> #[trigger] comp[q] == n || comp[q] < c
    &&& forall|q: int| 0 <= q < r ==> #[trigger] comp[q] < c
    &&& forall|q: int, q2: int|
        0 <= q < n && 0 <= q2 < n && #[trigger] comp[q] < c && #[trigger] adjc(dm, indirect, cs[q], cs[q2]) ==> comp[q2]
            <= comp[q]
    &&& forall|i: int| 0 <= i < c ==> (#[trigger] oidx[i]).len() == out[i].len()
    &&& forall|i: int, k: int|
        0 <= i < c && 0 <= k < out[i].len() ==> 0 <= #[trigger] oidx[i][k] < n && comp[oidx[i][k]] == i && out[i][k]
            == cs[oidx[i][k]]
    &&& forall|q: int| 0 <= q < n && #[trigger] comp[q] < c ==> out[comp[q] as int].contains(cs[q])
    &&& forall|i: int, k1: int, k2: int|
        0 <= i < c && 0 <= k1 < k2 < out[i].len() ==> cell_lo::<Hpx<u64>>(#[trigger] out[i][k1]) < cell_lo::<Hpx<u64>>(
            #[trigger] out[i][k2],
        )
    &&& forall|i: int|
        0 <= i < c ==> 0 <= #[trigger] roots[i] < r && comp[roots[i]] == i && out[i].len() > 0 && out[i][0] == cs[roots[i]]
    &&& forall|i: int, q: int| 0 <= i < c && 0 <= q < #[trigger] roots[i] ==> #[trigger] comp[q] < i
    &&& forall|i1: int, i2: int| 0 <= i1 < i2 < c ==> #[trigger] roots[i1] < #[trigger] roots[i2]
    &&& forall|i: int, x: Cell|
        0 <= i < c && #[trigger] out[i].contains(x) ==> exists|d: nat| reach(dm, indirect, out[i], out[i][0], x, d)
}

proof fn lemma_split_init(dm: int, indirect: bool, cs: Seq<Cell>, comp: Seq<usize>)
    requires
        comp.len() == cs.len(),
        forall|q: int| 0 <= q < cs.len() ==> #[trigger] comp[q] == cs.len(),
    ensures
        split_inv(dm, indirect, cs, comp, Seq::empty(), Seq::empty(), Seq::empty(), 0),
{
    reveal(split_inv);
}

proof fn lemma_split_skip(
    dm: int,
    indirect: bool,
    cs: Seq<Cell>,
    comp: Seq<usize>,
    out: Seq<Seq<Cell>>,
    oidx: Seq<Seq<int>>,
    roots: Seq<int>,
    r: int,
)
    requires
        split_inv(dm, indirect, cs, comp, out, oidx, roots, r),
        r < cs.len(),
        comp[r] != cs.len(),
    ensures
        split_inv(dm, indirect, cs, comp, out, oidx, roots, r + 1),
{
    reveal(split_inv);
    assert forall|i: int| 0 <= i < out.len() implies 0 <= #[trigger] roots[i] < r + 1 && comp[roots[i]] == i
        && out[i].len() > 0 && out[i][0] == cs[roots[i]] by {}
    assert forall|q: int| 0 <= q < r + 1 implies #[trigger] comp[q] < out.len() by {
        assert(comp[q] == cs.len() || comp[q] < out.len());
    }
}

/// Adding the group of the cells marked `c == out.len()` by [`grow`] from the cell `r`.
proof fn lemma_split_step(
    dm: int,
    indirect: bool,
    cs: Seq<Cell>,
    comp0: Seq<usize>,
    comp: Seq<usize>,
    out: Seq<Seq<Cell>>,
    oidx: Seq<Seq<int>>,
    roots: Seq<int>,
    r: int,
    members: Seq<usize>,
    dist: Seq<nat>,
    ccs: Seq<Cell>,
    idxs: Seq<int>,
)
    requires
        split_inv(dm, indirect, cs, comp0, out, oidx, roots, r),
        forall|a: int, b: int|
            0 <= a < b < cs.len() ==> cell_lo::<Hpx<u64>>(#[trigger] cs[a]) + cell_len::<Hpx<u64>>(cs[a].depth as int)
                <= cell_lo::<Hpx<u64>>(#[trigger] cs[b]),
        forall|q: int| 0 <= q < cs.len() ==> (#[trigger] cs[q]).depth <= 29,
        0 <= r < cs.len(),
        out.len() < cs.len(),
        comp0[r] == cs.len(),
        comp.len() == cs.len(),
        forall|j: int| 0 <= j < cs.len() && comp0[j] != cs.len() ==> #[trigger] comp[j] == comp0[j],
        forall|j: int| 0 <= j < cs.len() && comp0[j] == cs.len() ==> #[trigger] comp[j] == cs.len() || comp[j] == out.len(),
        comp[r] == out.len(),
        forall|j: int| 0 <= j < cs.len() ==> (#[trigger] comp[j] == out.len() <==> members.contains(j as usize)),
        forall|q: int| 0 <= q < members.len() ==> (#[trigger] members[q]) < cs.len(),
        forall|j: int, j2: int|
            0 <= j < cs.len() && 0 <= j2 < cs.len() && #[trigger] comp[j] == out.len() && #[trigger] adjc(dm, indirect, cs[j], cs[j2])
                ==> comp[j2] != cs.len(),
        dist.len() == members.len(),
        forall|q: int|
            0 <= q < members.len() ==> reach(dm, indirect, members_cells(cs, members), cs[r], cs[#[trigger] members[q] as int], dist[q]),
        idxs.len() == ccs.len(),
        forall|k: int|
            0 <= k < ccs.len() ==> 0 <= #[trigger] idxs[k] < cs.len() && comp[idxs[k]] == out.len() && ccs[k] == cs[idxs[k]],
        forall|k1: int, k2: int| 0 <= k1 < k2 < ccs.len() ==> #[trigger] idxs[k1] < #[trigger] idxs[k2],
        forall|q: int| 0 <= q < cs.len() && #[trigger] comp[q] == out.len() ==> ccs.contains(cs[q]),
        ccs.len() > 0,
        idxs[0] == r,
    ensures
        split_inv(dm, indirect, cs, comp, out.push(ccs), oidx.push(idxs), roots.push(r), r + 1),
{
    reveal(split_inv);
    lemma_hpx_consts();
    let n = cs.len();
    let c = out.len();
    let out2 = out.push(ccs);
    let roots2 = roots.push(r);
    assert forall|q: int| 0 <= q < n implies #[trigger] comp[q] == n || comp[q] < c + 1 by {
        assert(comp0[q] == n || comp0[q] < c);
    }
    assert forall|q: int| 0 <= q < r + 1 implies #[trigger] comp[q] < c + 1 by {
        if q < r {
            assert(comp0[q] < c);
        }
    }
    assert forall|q: int, q2: int|
        0 <= q < n && 0 <= q2 < n && #[trigger] comp[q] < c + 1 && #[trigger] adjc(dm, indirect, cs[q], cs[q2]) implies comp[q2]
            <= comp[q] by {
        if comp0[q] != n {
            assert(comp0[q] < c);
            assert(comp0[q2] <= comp0[q]);
        }
    }
    let oidx2 = oidx.push(idxs);
    assert forall|i: int| 0 <= i < c + 1 implies (#[trigger] oidx2[i]).len() == out2[i].len() by {
        if i < c {
            assert(oidx2[i] == oidx[i]);
        }
    }
    assert forall|i: int, k: int|
        0 <= i < c + 1 && 0 <= k < out2[i].len() implies 0 <= #[trigger] oidx2[i][k] < n && comp[oidx2[i][k]] == i
            && out2[i][k] == cs[oidx2[i][k]] by {
        if i < c {
            assert(oidx2[i] == oidx[i]);
            assert(out2[i] == out[i]);
            assert(0 <= oidx[i][k] < n && comp0[oidx[i][k]] == i);
        } else {
            assert(oidx2[i] == idxs);
            assert(out2[i] == ccs);
        }
    }
    assert forall|q: int| 0 <= q < n && #[trigger] comp[q] < c + 1 implies out2[comp[q] as int].contains(cs[q]) by {
        if comp0[q] != n {
            assert(comp0[q] < c);
            assert(out[comp0[q] as int].contains(cs[q]));
            assert(out2[comp0[q] as int] == out[comp0[q] as int]);
        } else {
            assert(out2[c as int] == ccs);
        }
    }
    assert forall|i: int, k1: int, k2: int|
        0 <= i < c + 1 && 0 <= k1 < k2 < out2[i].len() implies cell_lo::<Hpx<u64>>(#[trigger] out2[i][k1]) < cell_lo::<Hpx<u64>>(
            #[trigger] out2[i][k2],
        ) by {
        if i < c {
            assert(out2[i] == out[i]);
        } else {
            assert(out2[i] == ccs);
            assert(idxs[k1] < idxs[k2]);
            assert(cell_lo::<Hpx<u64>>(cs[idxs[k1]]) + cell_len::<Hpx<u64>>(cs[idxs[k1]].depth as int) <= cell_lo::<Hpx<u64>>(cs[idxs[k2]]));
            lemma_cell_len::<Hpx<u64>>(cs[idxs[k1]].depth as int, cs[idxs[k1]].depth as int);
        }
    }
    assert forall|i: int|
        0 <= i < c + 1 implies 0 <= #[trigger] roots2[i] < r + 1 && comp[roots2[i]] == i && out2[i].len() > 0 && out2[i][0]
            == cs[roots2[i]] by {
        if i < c {
            assert(out2[i] == out[i]);
            assert(comp0[roots[i]] == i);
        } else {
            assert(out2[i] == ccs);
        }
    }
    assert forall|i: int, q: int| 0 <= i < c + 1 && 0 <= q < #[trigger] roots2[i] implies #[trigger] comp[q] < i by {
        if i < c {
            assert(comp0[q] < i);
        } else {
            assert(comp0[q] < c);
        }
    }
    assert forall|i1: int, i2: int| 0 <= i1 < i2 < c + 1 implies #[trigger] roots2[i1] < #[trigger] roots2[i2] by {
        if i2 == c {
            assert(roots[i1] < r);
        }
    }
    let mc = members_cells(cs, members);
    assert forall|i: int, x: Cell|
        0 <= i < c + 1 && #[trigger] out2[i].contains(x) implies exists|d: nat| reach(dm, indirect, out2[i], out2[i][0], x, d) by {
        if i < c {
            assert(out2[i] == out[i]);
        } else {
            assert(out2[i] == ccs);
            assert forall|k: int| 0 <= k < mc.len() implies ccs.contains(#[trigger] mc[k]) by {
                assert(members.contains(members[k]));
                assert(comp[members[k] as int] == c);
            }
            let k = choose|k: int| 0 <= k < ccs.len() && ccs[k] == x;
            let q = idxs[k];
            assert(members.contains(q as usize));
            let p = choose|p: int| 0 <= p < members.len() && members[p] == q as usize;
            assert(reach(dm, indirect, mc, cs[r], cs[members[p] as int], dist[p]));
            lemma_reach_mono(dm, indirect, mc, ccs, cs[r], x, dist[p]);
        }
    }
}

/// Once all the cells are grouped, the groups form a joint splitting of the MOC.
proof fn lemma_split_final(
    m: RangeMOC<u64, Hpx<u64>>,
    indirect: bool,
    cs: Seq<Cell>,
    comp: Seq<usize>,
    out: Seq<Seq<Cell>>,
    oidx: Seq<Seq<int>>,
    roots: Seq<int>,
)
    requires
        m.wf(),
        sorted_moc_cells(m, cs),
        split_inv(m.depth() as int, indirect, cs, comp, out, oidx, roots, cs.len() as int),
    ensures
        joint_split(m, indirect, out),
{
    reveal(split_inv);
    lemma_hpx_consts();
    let n = cs.len();
    let c = out.len();
    let dm = m.depth() as int;
    assert forall|i: int, k: int| 0 <= i < c && 0 <= k < out[i].len() implies is_cell_of_moc(m, #[trigger] out[i][k]) by {
        let q = oidx[i][k];
        assert(is_moc_cell::<Hpx<u64>>(m.rs(), dm, cs[q].depth as int, cell_lo::<Hpx<u64>>(cs[q])));
    }
    assert forall|i: int| 0 <= i < c implies (#[trigger] out[i]).len() > 0 by {
        assert(0 <= roots[i] < n);
    }
    lemma_split_final_cover(m, indirect, cs, comp, out, oidx, roots);
    lemma_split_final_disjoint(m, indirect, cs, comp, out, oidx, roots);
    assert forall|i1: int, i2: int, x: Cell, y: Cell|
        0 <= i1 < c && 0 <= i2 < c && #[trigger] out[i1].contains(x) && #[trigger] out[i2].contains(y)
            && #[trigger] adjc(dm, indirect, x, y) implies i2 <= i1 by {
        let k1 = choose|k1: int| 0 <= k1 < out[i1].len() && out[i1][k1] == x;
        let k2 = choose|k2: int| 0 <= k2 < out[i2].len() && out[i2][k2] == y;
        let q1 = oidx[i1][k1];
        let q2 = oidx[i2][k2];
        assert(adjc(dm, indirect, cs[q1], cs[q2]));
    }
    assert forall|i1: int, i2: int, x: Cell|
        0 <= i1 < i2 < c && #[trigger] out[i2].contains(x) implies cell_lo::<Hpx<u64>>(#[trigger] out[i1][0])
            < cell_lo::<Hpx<u64>>(x) by {
        let k2 = choose|k2: int| 0 <= k2 < out[i2].len() && out[i2][k2] == x;
        let q2 = oidx[i2][k2];
        assert(roots[i1] < roots[i2]);
        if q2 < roots[i2] {
            assert(comp[q2] < i2);
        }
        let a = roots[i1];
        assert(cell_lo::<Hpx<u64>>(cs[a]) + cell_len::<Hpx<u64>>(cs[a].depth as int) <= cell_lo::<Hpx<u64>>(cs[q2]));
        assert(is_moc_cell::<Hpx<u64>>(m.rs(), dm, cs[a].depth as int, cell_lo::<Hpx<u64>>(cs[a])));
        lemma_cell_len::<Hpx<u64>>(cs[a].depth as int, cs[a].depth as int);
    }
}

proof fn lemma_split_final_cover(
    m: RangeMOC<u64, Hpx<u64>>,
    indirect: bool,
    cs: Seq<Cell>,
    comp: Seq<usize>,
    out: Seq<Seq<Cell>>,
    oidx: Seq<Seq<int>>,
    roots: Seq<int>,
)
    requires
        m.wf(),
        sorted_moc_cells(m, cs),
        split_inv(m.depth() as int, indirect, cs, comp, out, oidx, roots, cs.len() as int),
    ensures
        forall|x: Cell| #[trigger] is_cell_of_moc(m, x) ==> exists|i: int| 0 <= i < out.len() && #[trigger] out[i].contains(x),
{
    reveal(split_inv);
    lemma_hpx_consts();
    assert forall|x: Cell| #[trigger] is_cell_of_moc(m, x) implies exists|i: int| 0 <= i < out.len() && #[trigger] out[i].contains(x) by {
        assert(is_moc_cell::<Hpx<u64>>(m.rs(), m.depth() as int, x.depth as int, cell_lo::<Hpx<u64>>(x)));
        let q = choose|q: int| 0 <= q < cs.len() && (#[trigger] cs[q]).depth == x.depth && cell_lo::<Hpx<u64>>(cs[q]) == cell_lo::<Hpx<u64>>(x);
        let ll = cell_len::<Hpx<u64>>(x.depth as int);
        lemma_cell_len::<Hpx<u64>>(x.depth as int, x.depth as int);
        assert(cs[q].idx == x.idx) by (nonlinear_arith)
            requires
                cs[q].idx * ll == x.idx * ll,
                ll > 0,
        ;
        assert(cs[q] == x);
        assert(comp[q] < out.len());
        assert(out[comp[q] as int].contains(cs[q]));
    }
}

proof fn lemma_split_final_disjoint(
    m: RangeMOC<u64, Hpx<u64>>,
    indirect: bool,
    cs: Seq<Cell>,
    comp: Seq<usize>,
    out: Seq<Seq<Cell>>,
    oidx: Seq<Seq<int>>,
    roots: Seq<int>,
)
    requires
        m.wf(),
        sorted_moc_cells(m, cs),
        split_inv(m.depth() as int, indirect, cs, comp, out, oidx, roots, cs.len() as int),
    ensures
        forall|i1: int, i2: int, x: Cell|
            0 <= i1 < i2 < out.len() ==> !(#[trigger] out[i1].contains(x) && #[trigger] out[i2].contains(x)),
{
    reveal(split_inv);
    lemma_hpx_consts();
    let n = cs.len();
    assert forall|i1: int, i2: int, x: Cell|
        0 <= i1 < i2 < out.len() implies !(#[trigger] out[i1].contains(x) && #[trigger] out[i2].contains(x)) by {
        if out[i1].contains(x) && out[i2].contains(x) {
            let k1 = choose|k1: int| 0 <= k1 < out[i1].len() && out[i1][k1] == x;
            let k2 = choose|k2: int| 0 <= k2 < out[i2].len() && out[i2][k2] == x;
            let q1 = oidx[i1][k1];
            let q2 = oidx[i2][k2];
            if q1 < q2 {
                assert(cell_lo::<Hpx<u64>>(cs[q1]) + cell_len::<Hpx<u64>>(cs[q1].depth as int) <= cell_lo::<Hpx<u64>>(cs[q2]));
                assert(is_moc_cell::<Hpx<u64>>(m.rs(), m.depth() as int, cs[q1].depth as int, cell_lo::<Hpx<u64>>(cs[q1])));
                lemma_cell_len::<Hpx<u64>>(cs[q1].depth as int, cs[q1].depth as int);
            } else if q2 < q1 {
                assert(cell_lo::<Hpx<u64>>(cs[q2]) + cell_len::<Hpx<u64>>(cs[q2].depth as int) <= cell_lo::<Hpx<u64>>(cs[q1]));
                assert(is_moc_cell::<Hpx<u64>>(m.rs(), m.depth() as int, cs[q2].depth as int, cell_lo::<Hpx<u64>>(cs[q2])));
                lemma_cell_len::<Hpx<u64>>(cs[q2].depth as int, cs[q2].depth as int);
            }
        }
    }
}

impl RangeMOC<u64, Hpx<u64>> {
    /// Splits the cells of the MOC into groups of cells joint through neighbourhood: cells
    /// sharing an edge, or also a vertex when `include_indirect_neighbours`.
    pub fn split_cells(&self, include_indirect_neighbours: bool) -> (out: Vec<Vec<Cell>>)
        requires
            self.wf(),
        ensures
            joint_split(*self, include_indirect_neighbours, out@.map_values(|v: Vec<Cell>| v@)),
    {
        let indirect = include_indirect_neighbours;
        let dmax = self.depth_max();
        let cs = self.cells();
        let n = cs.len();
        let ghost dm = dmax as int;
        proof {
            lemma_hpx_consts();
            Hpx::<u64>::lemma_qty();
            lemma2_to64();
            lemma2_to64_rest();
        }
        let mut rs: Vec<Range<u64>> = Vec::new();
        let mut j: usize = 0;
        while j < n
            invariant
                self.wf(),
                dmax == self.depth(),
                n == cs@.len(),
                j <= n,
                rs@.len() == j,
                forall|q: int|
                    0 <= q < cs@.len() ==> is_moc_cell::<Hpx<u64>>(
                        self.rs(),
                        dmax as int,
                        (#[trigger] cs@[q]).depth as int,
                        cell_lo::<Hpx<u64>>(cs@[q]),
                    ),
                forall|a: int, b: int|
                    0 <= a < b < cs@.len() ==> cell_lo::<Hpx<u64>>(#[trigger] cs@[a]) + cell_len::<Hpx<u64>>(cs@[a].depth as int)
                        <= cell_lo::<Hpx<u64>>(#[trigger] cs@[b]),
                forall|q: int|
                    0 <= q < j ==> (#[trigger] rs@[q]).start == cell_lo::<Hpx<u64>>(cs@[q]) && rs@[q].end
                        == cell_lo::<Hpx<u64>>(cs@[q]) + cell_len::<Hpx<u64>>(cs@[q].depth as int),
                forall|q: int| 0 <= q < j ==> (cs@[q].idx as int) < 12 * pow2((2 * cs@[q].depth) as nat),
            decreases n - j,
        {
            let c = cs[j];
            let cl = cell_len_u64::<Hpx<u64>>(c.depth);
            proof {
                assert(c == cs@[j as int]);
                assert(is_moc_cell::<Hpx<u64>>(self.rs(), dmax as int, c.depth as int, cell_lo::<Hpx<u64>>(c)));
                lemma_hpx_consts();
                let k = choose|k: int|
                    0 <= k < self.rs().len() && (#[trigger] self.rs()[k]).start <= cell_lo::<Hpx<u64>>(c)
                        && cell_lo::<Hpx<u64>>(c) + cl <= self.rs()[k].end;
                assert(self.rs()[k].end <= <Hpx<u64> as MocQty<u64>>::spec_n_cells_max());
                Hpx::<u64>::lemma_qty();
                lemma2_to64();
                lemma2_to64_rest();
                lemma_mul_is_distributive_add_other_way(cl as int, c.idx as int, 1);
                lemma_mul_is_commutative(cl as int, c.idx as int);
                lemma_cell_idx_bound::<Hpx<u64>>(c.depth as int, c.idx as int);
                assert((c.depth * 2) as nat == (2 * c.depth) as nat);
            }
            let lo = c.idx * cl;
            rs.push(Range { start: lo, end: lo + cl });
            j = j + 1;
        }
        let l = cell_len_u64::<Hpx<u64>>(dmax);
        let ncells = Hpx::<u64>::n_cells(dmax);
        proof {
            crate::cells::lemma_n_cells_len::<Hpx<u64>>(dmax as int);
            assert((dmax * 2) as nat == (2 * dmax) as nat);
            assert(cells_ranges_ok(cs@, rs@)) by {
                assert forall|k: int| 0 <= k < rs@.len() implies (#[trigger] rs@[k]).start < rs@[k].end by {
                    lemma_cell_len::<Hpx<u64>>(cs@[k].depth as int, cs@[k].depth as int);
                }
                assert forall|a: int, b: int| 0 <= a < b < rs@.len() implies (#[trigger] rs@[a]).end <= (#[trigger] rs@[b]).start by {
                    assert(cell_lo::<Hpx<u64>>(cs@[a]) + cell_len::<Hpx<u64>>(cs@[a].depth as int) <= cell_lo::<Hpx<u64>>(cs@[b]));
                }
            }
            assert(cells_valid(cs@, dmax as int)) by {
                assert forall|q: int| 0 <= q < cs@.len() implies (#[trigger] cs@[q]).depth <= dmax && (cs@[q].idx as int) < 12 * pow2(
                    (2 * cs@[q].depth) as nat,
                ) by {
                    assert(is_moc_cell::<Hpx<u64>>(self.rs(), dmax as int, cs@[q].depth as int, cell_lo::<Hpx<u64>>(cs@[q])));
                }
            }
        }
        let mut comp: Vec<usize> = Vec::new();
        let mut j: usize = 0;
        while j < n
            invariant
                comp@.len() == j,
                j <= n,
                forall|q: int| 0 <= q < j ==> #[trigger] comp@[q] == n,
            decreases n - j,
        {
            comp.push(n);
            j = j + 1;
        }
        let mut out: Vec<Vec<Cell>> = Vec::new();
        let ghost mut gout: Seq<Seq<Cell>> = Seq::empty();
        let ghost mut roots: Seq<int> = Seq::empty();
        let ghost mut oidx: Seq<Seq<int>> = Seq::empty();
        let mut c: usize = 0;
        let mut r: usize = 0;
        proof {
            lemma_split_init(dm, indirect, cs@, comp@);
        }
        while r < n
            invariant
                self.wf(),
                dmax == self.depth(),
                dm == dmax as int,
                n == cs@.len(),
                cells_ranges_ok(cs@, rs@),
                cells_valid(cs@, dmax as int),
                l == cell_len::<Hpx<u64>>(dmax as int),
                ncells == 12 * pow2((2 * dmax) as nat),
                ncells * l <= u64::MAX,
                forall|a: int, b: int|
                    0 <= a < b < cs@.len() ==> cell_lo::<Hpx<u64>>(#[trigger] cs@[a]) + cell_len::<Hpx<u64>>(cs@[a].depth as int)
                        <= cell_lo::<Hpx<u64>>(#[trigger] cs@[b]),
                r <= n,
                c <= r,
                comp@.len() == n,
                c == gout.len(),
                out@.len() == gout.len(),
                forall|i: int| 0 <= i < gout.len() ==> #[trigger] out@[i]@ == gout[i],
                split_inv(dm, indirect, cs@, comp@, gout, oidx, roots, r as int),
            decreases n - r,
        {
            if comp[r] == n {
                let ghost comp0 = comp@;
                proof {
                    reveal(split_inv);
                    assert forall|q: int| 0 <= q < comp@.len() implies #[trigger] comp@[q] == cs@.len() || comp@[q] < c by {}
                }
                let (members, Ghost(dist)) = grow(&cs, &rs, &mut comp, r, c, dmax, indirect, l, ncells);
                let mut cc: Vec<Cell> = Vec::new();
                let ghost mut idxs: Seq<int> = Seq::empty();
                let mut j: usize = 0;
                while j < n
                    invariant
                        n == cs@.len(),
                        comp@.len() == n,
                        j <= n,
                        r < n,
                        comp@[r as int] == c,
                        forall|q: int| 0 <= q < r ==> #[trigger] comp@[q] != c,
                        idxs.len() == cc@.len(),
                        forall|k: int|
                            0 <= k < cc@.len() ==> 0 <= #[trigger] idxs[k] < j && comp@[idxs[k]] == c && cc@[k] == cs@[idxs[k]],
                        forall|k1: int, k2: int| 0 <= k1 < k2 < cc@.len() ==> #[trigger] idxs[k1] < #[trigger] idxs[k2],
                        forall|q: int| 0 <= q < j && #[trigger] comp@[q] == c ==> cc@.contains(cs@[q]),
                        j > r ==> cc@.len() > 0 && idxs[0] == r,
                        j <= r ==> cc@.len() == 0,
                    decreases n - j,
                {
                    if comp[j] == c {
                        let ghost old_cc = cc@;
                        cc.push(cs[j]);
                        proof {
                            idxs = idxs.push(j as int);
                            assert forall|q: int| 0 <= q < j + 1 && #[trigger] comp@[q] == c implies cc@.contains(cs@[q]) by {
                                if q < j {
                                    let k = choose|k: int| 0 <= k < old_cc.len() && old_cc[k] == cs@[q];
                                    assert(cc@[k] == cs@[q]);
                                } else {
                                    assert(cc@[old_cc.len() as int] == cs@[q]);
                                }
                            }
                        }
                    }
                    j = j + 1;
                }
                proof {
                    lemma_split_step(dm, indirect, cs@, comp0, comp@, gout, oidx, roots, r as int, members@, dist, cc@, idxs);
                    gout = gout.push(cc@);
                    oidx = oidx.push(idxs);
                    roots = roots.push(r as int);
                }
                out.push(cc);
                c = c + 1;
            } else {
                proof {
                    lemma_split_skip(dm, indirect, cs@, comp@, gout, oidx, roots, r as int);
                }
            }
            r = r + 1;
        }
        proof {
            assert(out@.map_values(|v: Vec<Cell>| v@) =~= gout);
            assert(sorted_moc_cells(*self, cs@));
            lemma_split_final(*self, indirect, cs@, comp@, gout, oidx, roots);
        }
        out
    }
}

/// A cell of a MOC lies in the domain and has a depth not deeper than the MOC depth.
proof fn lemma_moc_cell_in_domain(m: RangeMOC<u64, Hpx<u64>>, x: Cell)
    requires
        m.wf(),
        is_cell_of_moc(m, x),
    ensures
        x.depth <= m.depth(),
        cell_lo::<Hpx<u64>>(x) + cell_len::<Hpx<u64>>(x.depth as int) <= <Hpx<u64> as MocQty<u64>>::spec_n_cells_max(),
{
    let k = choose|k: int|
        0 <= k < m.rs().len() && (#[trigger] m.rs()[k]).start <= cell_lo::<Hpx<u64>>(x)
            && cell_lo::<Hpx<u64>>(x) + cell_len::<Hpx<u64>>(x.depth as int) <= m.rs()[k].end;
}

/// Two distinct cells of a MOC do not overlap.
proof fn lemma_moc_cells_disjoint(m: RangeMOC<u64, Hpx<u64>>, a: Cell, b: Cell)
    requires
        m.wf(),
        is_cell_of_moc(m, a),
        is_cell_of_moc(m, b),
        cell_lo::<Hpx<u64>>(a) < cell_lo::<Hpx<u64>>(b),
    ensures
        cell_lo::<Hpx<u64>>(a) + cell_len::<Hpx<u64>>(a.depth as int) <= cell_lo::<Hpx<u64>>(b),
{
    lemma_hpx_consts();
    let la = cell_lo::<Hpx<u64>>(a);
    let lb = cell_lo::<Hpx<u64>>(b);
    let da = a.depth as int;
    let db = b.depth as int;
    if lb < la + cell_len::<Hpx<u64>>(da) {
        lemma_cell_len::<Hpx<u64>>(db, db);
        if da <= db {
            crate::cells::lemma_nested::<Hpx<u64>>(db, lb, da, la, lb);
            if db > da {
                let pb = crate::cells::block_start::<Hpx<u64>>(db - 1, lb);
                crate::cells::lemma_block_start::<Hpx<u64>>(db - 1, lb);
                crate::cells::lemma_nested::<Hpx<u64>>(db - 1, pb, da, la, lb);
                let k = choose|k: int|
                    0 <= k < m.rs().len() && (#[trigger] m.rs()[k]).start <= la && la + cell_len::<Hpx<u64>>(da) <= m.rs()[k].end;
                assert(m.rs()[k].start <= pb && pb + cell_len::<Hpx<u64>>(db - 1) <= m.rs()[k].end);
                assert(crate::cells::block_in(m.rs(), pb, pb + cell_len::<Hpx<u64>>(db - 1)));
            }
        } else {
            crate::cells::lemma_nested::<Hpx<u64>>(da, la, db, lb, lb);
        }
    }
}

impl RangeMOC<u64, Hpx<u64>> {
    /// Splits the MOC into joint MOCs, see [`RangeMOC::split_cells`].
    #[verifier::spinoff_prover]
    pub fn split_into_joint_mocs(&self, include_indirect_neighbours: bool) -> (r: Vec<CellMOC<u64, Hpx<u64>>>)
        requires
            self.wf(),
        ensures
            forall|i: int| 0 <= i < r@.len() ==> (#[trigger] r@[i]).wf() && r@[i].depth() == self.depth(),
            joint_split(*self, include_indirect_neighbours, r@.map_values(|c: CellMOC<u64, Hpx<u64>>| c.cs())),
    {
        let groups = self.split_cells(include_indirect_neighbours);
        let ghost g = groups@.map_values(|v: Vec<Cell>| v@);
        let dmax = self.depth_max();
        let k = groups.len();
        let mut res: Vec<CellMOC<u64, Hpx<u64>>> = Vec::new();
        let mut i: usize = 0;
        while i < k
            invariant
                self.wf(),
                dmax == self.depth(),
                k == groups@.len(),
                g == groups@.map_values(|v: Vec<Cell>| v@),
                joint_split(*self, include_indirect_neighbours, g),
                i <= k,
                res@.len() == i,
                forall|q: int| 0 <= q < i ==> (#[trigger] res@[q]).cs() == g[q] && res@[q].depth() == dmax && res@[q].wf(),
            decreases k - i,
        {
            let gi = &groups[i];
            let n = gi.len();
            let mut v: Vec<Cell> = Vec::new();
            let mut j: usize = 0;
            while j < n
                invariant
                    n == gi@.len(),
                    j <= n,
                    v@ == gi@.subrange(0, j as int),
                decreases n - j,
            {
                v.push(gi[j]);
                j = j + 1;
            }
            proof {
                assert(v@ == gi@);
                assert(g[i as int] == gi@);
                lemma_hpx_consts();
                assert forall|q: int| 0 <= q < v@.len() implies (#[trigger] v@[q]).depth <= dmax
                    && cell_lo::<Hpx<u64>>(v@[q]) + cell_len::<Hpx<u64>>(v@[q].depth as int)
                        <= <Hpx<u64> as MocQty<u64>>::spec_n_cells_max() by {
                    assert(is_cell_of_moc(*self, g[i as int][q]));
                    lemma_moc_cell_in_domain(*self, v@[q]);
                }
                assert forall|a: int, b: int| 0 <= a < b < v@.len() implies cell_lo::<Hpx<u64>>(#[trigger] v@[a])
                    + cell_len::<Hpx<u64>>(v@[a].depth as int) <= cell_lo::<Hpx<u64>>(#[trigger] v@[b]) by {
                    assert(is_cell_of_moc(*self, g[i as int][a]));
                    assert(is_cell_of_moc(*self, g[i as int][b]));
                    assert(cell_lo::<Hpx<u64>>(g[i as int][a]) < cell_lo::<Hpx<u64>>(g[i as int][b]));
                    lemma_moc_cells_disjoint(*self, v@[a], v@[b]);
                }
            }
            res.push(CellMOC::new(dmax, v));
            i = i + 1;
        }
        proof {
            assert(res@.map_values(|c: CellMOC<u64, Hpx<u64>>| c.cs()) =~= g);
        }
        res
    }
}

/// The two groups hold the same cells.
pub open spec fn same_cells(a: Seq<Cell>, b: Seq<Cell>) -> bool {
    forall|x: Cell| #[trigger] a.contains(x) <==> b.contains(x)
}

/// [`joint_split`], unfolded only where a fact of it is drawn.
#[verifier::opaque]
spec fn js(m: RangeMOC<u64, Hpx<u64>>, indirect: bool, s: Seq<Seq<Cell>>) -> bool {
    joint_split(m, indirect, s)
}

proof fn js_cover(m: RangeMOC<u64, Hpx<u64>>, indirect: bool, s: Seq<Seq<Cell>>, i: int, k: int, x: Cell) -> (j: int)
    requires
        js(m, indirect, s),
        0 <= i < s.len(),
        0 <= k < s[i].len(),
        s[i][k] == x,
    ensures
        0 <= j < s.len(),
        s[j].contains(x),
{
    reveal(js);
    assert(is_cell_of_moc(m, s[i][k]));
    choose|j: int| 0 <= j < s.len() && #[trigger] s[j].contains(x)
}

proof fn js_cover_other(m: RangeMOC<u64, Hpx<u64>>, indirect: bool, s: Seq<Seq<Cell>>, t: Seq<Seq<Cell>>, i: int, k: int, x: Cell) -> (j: int)
    requires
        js(m, indirect, s),
        js(m, indirect, t),
        0 <= i < t.len(),
        0 <= k < t[i].len(),
        t[i][k] == x,
    ensures
        0 <= j < s.len(),
        s[j].contains(x),
{
    reveal(js);
    assert(is_cell_of_moc(m, t[i][k]));
    choose|j: int| 0 <= j < s.len() && #[trigger] s[j].contains(x)
}

proof fn js_nonempty(m: RangeMOC<u64, Hpx<u64>>, indirect: bool, s: Seq<Seq<Cell>>, i: int)
    requires
        js(m, indirect, s),
        0 <= i < s.len(),
    ensures
        s[i].len() > 0,
        s[i].contains(s[i][0]),
{
    reveal(js);
    assert(s[i].len() > 0);
}

proof fn js_disjoint(m: RangeMOC<u64, Hpx<u64>>, indirect: bool, s: Seq<Seq<Cell>>, i1: int, i2: int, x: Cell)
    requires
        js(m, indirect, s),
        0 <= i1 < s.len(),
        0 <= i2 < s.len(),
        i1 != i2,
    ensures
        !(s[i1].contains(x) && s[i2].contains(x)),
{
    reveal(js);
    if i1 < i2 {
        assert(!(s[i1].contains(x) && s[i2].contains(x)));
    } else {
        assert(!(s[i2].contains(x) && s[i1].contains(x)));
    }
}

proof fn js_adj(m: RangeMOC<u64, Hpx<u64>>, indirect: bool, s: Seq<Seq<Cell>>, i1: int, i2: int, x: Cell, y: Cell)
    requires
        js(m, indirect, s),
        0 <= i1 < s.len(),
        0 <= i2 < s.len(),
        s[i1].contains(x),
        s[i2].contains(y),
        adjc(m.depth() as int, indirect, x, y),
    ensures
        i2 <= i1,
{
    reveal(js);
}

proof fn js_first(m: RangeMOC<u64, Hpx<u64>>, indirect: bool, s: Seq<Seq<Cell>>, i1: int, i2: int, x: Cell)
    requires
        js(m, indirect, s),
        0 <= i1 < i2 < s.len(),
        s[i2].contains(x),
    ensures
        cell_lo::<Hpx<u64>>(s[i1][0]) < cell_lo::<Hpx<u64>>(x),
{
    reveal(js);
}

proof fn js_sorted(m: RangeMOC<u64, Hpx<u64>>, indirect: bool, s: Seq<Seq<Cell>>, i: int, k: int)
    requires
        js(m, indirect, s),
        0 <= i < s.len(),
        0 < k < s[i].len(),
    ensures
        cell_lo::<Hpx<u64>>(s[i][0]) < cell_lo::<Hpx<u64>>(s[i][k]),
{
    reveal(js);
    assert(cell_lo::<Hpx<u64>>(s[i][0]) < cell_lo::<Hpx<u64>>(s[i][k]));
}

proof fn js_reach(m: RangeMOC<u64, Hpx<u64>>, indirect: bool, s: Seq<Seq<Cell>>, i: int, x: Cell) -> (d: nat)
    requires
        js(m, indirect, s),
        0 <= i < s.len(),
        s[i].contains(x),
    ensures
        reach(m.depth() as int, indirect, s[i], s[i][0], x, d),
{
    reveal(js);
    choose|d: nat| reach(m.depth() as int, indirect, s[i], s[i][0], x, d)
}

/// The first cell of group `i` of `a` is in group `i` of `b`, when the earlier groups agree.
proof fn lemma_root_in(m: RangeMOC<u64, Hpx<u64>>, indirect: bool, a: Seq<Seq<Cell>>, b: Seq<Seq<Cell>>, i: int)
    requires
        js(m, indirect, a),
        js(m, indirect, b),
        0 <= i < a.len(),
        i < b.len(),
        forall|j: int| 0 <= j < i ==> same_cells(#[trigger] a[j], b[j]),
    ensures
        b[i].contains(a[i][0]),
{
    let ra = a[i][0];
    js_nonempty(m, indirect, a, i);
    js_nonempty(m, indirect, b, i);
    let j = js_cover_other(m, indirect, b, a, i, 0, ra);
    if j < i {
        assert(same_cells(a[j], b[j]));
        assert(a[j].contains(ra));
        js_disjoint(m, indirect, a, j, i, ra);
    } else if j > i {
        let rb = b[i][0];
        js_first(m, indirect, b, i, j, ra);
        let j2 = js_cover_other(m, indirect, a, b, i, 0, rb);
        if j2 < i {
            assert(same_cells(a[j2], b[j2]));
            assert(b[j2].contains(rb));
            js_disjoint(m, indirect, b, j2, i, rb);
        } else if j2 > i {
            js_first(m, indirect, a, i, j2, rb);
        } else {
            let k = choose|k: int| 0 <= k < a[i].len() && a[i][k] == rb;
            if k > 0 {
                js_sorted(m, indirect, a, i, k);
            }
        }
    }
}

/// A cell of group `i` of `a` reached from its first cell is in group `i` of `b`, when the
/// earlier groups agree.
proof fn lemma_reach_in(
    m: RangeMOC<u64, Hpx<u64>>,
    indirect: bool,
    a: Seq<Seq<Cell>>,
    b: Seq<Seq<Cell>>,
    i: int,
    x: Cell,
    d: nat,
)
    requires
        js(m, indirect, a),
        js(m, indirect, b),
        0 <= i < a.len(),
        i < b.len(),
        forall|j: int| 0 <= j < i ==> same_cells(#[trigger] a[j], b[j]),
        a[i].contains(x),
        reach(m.depth() as int, indirect, a[i], a[i][0], x, d),
    ensures
        b[i].contains(x),
    decreases d,
{
    let dm = m.depth() as int;
    if d == 0 {
        lemma_root_in(m, indirect, a, b, i);
    } else if reach(dm, indirect, a[i], a[i][0], x, (d - 1) as nat) {
        lemma_reach_in(m, indirect, a, b, i, x, (d - 1) as nat);
    } else {
        let k = choose|k: int|
            0 <= k < a[i].len() && reach(dm, indirect, a[i], a[i][0], a[i][k], (d - 1) as nat) && #[trigger] adjc(
                dm,
                indirect,
                a[i][k],
                x,
            );
        let u = a[i][k];
        assert(a[i].contains(u));
        lemma_reach_in(m, indirect, a, b, i, u, (d - 1) as nat);
        let kx = choose|kx: int| 0 <= kx < a[i].len() && a[i][kx] == x;
        let j = js_cover_other(m, indirect, b, a, i, kx, x);
        js_adj(m, indirect, b, i, j, u, x);
        if j < i {
            assert(same_cells(a[j], b[j]));
            assert(a[j].contains(x));
            js_disjoint(m, indirect, a, j, i, x);
        }
    }
}

/// The groups `i` of two joint splits of the same MOC hold the same cells, when the earlier
/// groups agree.
proof fn lemma_group_same(m: RangeMOC<u64, Hpx<u64>>, indirect: bool, a: Seq<Seq<Cell>>, b: Seq<Seq<Cell>>, i: int)
    requires
        js(m, indirect, a),
        js(m, indirect, b),
        0 <= i < a.len(),
        i < b.len(),
        forall|j: int| 0 <= j < i ==> same_cells(#[trigger] a[j], b[j]),
    ensures
        same_cells(a[i], b[i]),
{
    assert forall|x: Cell| #[trigger] a[i].contains(x) implies b[i].contains(x) by {
        let d = js_reach(m, indirect, a, i, x);
        lemma_reach_in(m, indirect, a, b, i, x, d);
    }
    assert forall|j: int| 0 <= j < i implies same_cells(#[trigger] b[j], a[j]) by {
        assert(same_cells(a[j], b[j]));
    }
    assert forall|x: Cell| #[trigger] b[i].contains(x) implies a[i].contains(x) by {
        let d = js_reach(m, indirect, b, i, x);
        lemma_reach_in(m, indirect, b, a, i, x, d);
    }
}

/// The first `n` groups of two joint splits of the same MOC hold the same cells.
proof fn lemma_groups_same(m: RangeMOC<u64, Hpx<u64>>, indirect: bool, a: Seq<Seq<Cell>>, b: Seq<Seq<Cell>>, n: int)
    requires
        js(m, indirect, a),
        js(m, indirect, b),
        0 <= n <= a.len(),
        n <= b.len(),
    ensures
        forall|j: int| 0 <= j < n ==> same_cells(#[trigger] a[j], b[j]),
    decreases n,
{
    if n > 0 {
        lemma_groups_same(m, indirect, a, b, n - 1);
        lemma_group_same(m, indirect, a, b, n - 1);
    }
}

/// The shorter of two joint splits is not shorter.
proof fn lemma_len_not_less(m: RangeMOC<u64, Hpx<u64>>, indirect: bool, a: Seq<Seq<Cell>>, b: Seq<Seq<Cell>>)
    requires
        js(m, indirect, a),
        js(m, indirect, b),
    ensures
        a.len() <= b.len(),
{
    if a.len() > b.len() {
        let n = b.len() as int;
        lemma_groups_same(m, indirect, a, b, n);
        js_nonempty(m, indirect, a, n);
        let x = a[n][0];
        let j = js_cover_other(m, indirect, b, a, n, 0, x);
        assert(same_cells(a[j], b[j]));
        assert(a[j].contains(x));
        js_disjoint(m, indirect, a, j, n, x);
    }
}

/// A joint split of a MOC is unique: two joint splits of the same MOC, with the same kind of
/// neighbourhood, have as many groups, and their groups of the same rank hold the same cells.
pub proof fn law_joint_split_unique(m: RangeMOC<u64, Hpx<u64>>, indirect: bool, a: Seq<Seq<Cell>>, b: Seq<Seq<Cell>>)
    requires
        joint_split(m, indirect, a),
        joint_split(m, indirect, b),
    ensures
        a.len() == b.len(),
        forall|i: int| 0 <= i < a.len() ==> same_cells(#[trigger] a[i], b[i]),
{
    assert(js(m, indirect, a) && js(m, indirect, b)) by {
        reveal(js);
    }
    lemma_len_not_less(m, indirect, a, b);
    lemma_len_not_less(m, indirect, b, a);
    lemma_groups_same(m, indirect, a, b, a.len() as int);
}

} // verus!
