//! Building a 2D MOC from ranges on the first quantity, each paired with a cell (of a fixed
//! depth) of the second quantity, with a sweep line over the first quantity.

use std::ops::Range;
use vstd::prelude::*;
use vstd::arithmetic::power2::pow2;
use crate::builder::{range_degraded_has, valid_cell};
use crate::moc::{cell_len, lemma_cell_len, round_range, RangeMOC};
use crate::moc2d::{elem_has2, elems_has2, elems_wf, lemma_elems_has2_push, RangeMOC2, RangeMOC2Elem};
use crate::qty::MocQty;
use crate::ranges::{range_has, Ranges};

verus! {

/// A sweep-line event `(coordinate, kind, item)`: the kind is `0` for the end of the range of
/// the item and `1` for its start, so that at equal coordinates the ends come first (ranges
/// are half-open).
pub open spec fn ev_lt(a: (u64, u64, u64), b: (u64, u64, u64)) -> bool {
    a.0 < b.0 || (a.0 == b.0 && (a.1 < b.1 || (a.1 == b.1 && a.2 < b.2)))
}

/// Lexicographic order on events.
pub open spec fn ev_le(a: (u64, u64, u64), b: (u64, u64, u64)) -> bool {
    a == b || ev_lt(a, b)
}

/// The events are sorted.
pub open spec fn events_sorted(e: Seq<(u64, u64, u64)>) -> bool {
    forall|i: int, j: int| 0 <= i < j < e.len() ==> ev_le(#[trigger] e[i], #[trigger] e[j])
}

/// `slice::sort_unstable` on the events: its documentation states that it sorts the slice in
/// the order of `Ord`, which for tuples is the lexicographic order of their fields; the contract
/// claims that the result is sorted in that order and holds the same events.
#[verifier::external_body]
fn sort_events(v: &mut Vec<(u64, u64, u64)>)
    ensures
        final(v)@.to_multiset() == old(v)@.to_multiset(),
        events_sorted(final(v)@),
{
    v.sort_unstable();
}

/// Start event of the item `k`.
pub open spec fn start_ev(items: Seq<(Range<u64>, u64)>, k: int) -> (u64, u64, u64) {
    (items[k].0.start, 1u64, k as u64)
}

/// End event of the item `k`.
pub open spec fn end_ev(items: Seq<(Range<u64>, u64)>, k: int) -> (u64, u64, u64) {
    (items[k].0.end, 0u64, k as u64)
}

/// The start and end events of all items, item after item.
pub open spec fn gen_events(items: Seq<(Range<u64>, u64)>) -> Seq<(u64, u64, u64)> {
    Seq::new(
        (2 * items.len()) as nat,
        |i: int| if i % 2 == 0 { start_ev(items, i / 2) } else { end_ev(items, i / 2) },
    )
}

/// Every item has a non-empty range.
pub open spec fn items_non_empty(items: Seq<(Range<u64>, u64)>) -> bool {
    forall|k: int| 0 <= k < items.len() ==> (#[trigger] items[k]).0.start < items[k].0.end
}

fn make_events(items: &Vec<(Range<u64>, u64)>) -> (e: Vec<(u64, u64, u64)>)
    ensures
        e@ == gen_events(items@),
{
    let n = items.len();
    let mut e: Vec<(u64, u64, u64)> = Vec::new();
    let mut i: usize = 0;
    while i < n
        invariant
            n == items@.len(),
            i <= n,
            e@ == gen_events(items@.take(i as int)),
        decreases n - i,
    {
        e.push((items[i].0.start, 1, i as u64));
        e.push((items[i].0.end, 0, i as u64));
        proof {
            let g = gen_events(items@.take(i + 1));
            assert forall|j: int| 0 <= j < g.len() implies #[trigger] g[j] == e@[j] by {
                if j < 2 * i {
                    assert(gen_events(items@.take(i as int))[j] == e@[j]);
                }
            }
            assert(e@ =~= g);
        }
        i += 1;
    }
    proof {
        assert(items@.take(n as int) =~= items@);
    }
    e
}

/// Where each event stands in the sorted events.
pub open spec fn positions_ok(
    items: Seq<(Range<u64>, u64)>,
    e: Seq<(u64, u64, u64)>,
    ps: Seq<int>,
    pe: Seq<int>,
) -> bool {
    &&& e.len() == 2 * items.len()
    &&& ps.len() == items.len()
    &&& pe.len() == items.len()
    &&& forall|i: int, j: int| 0 <= i < j < e.len() ==> ev_lt(#[trigger] e[i], #[trigger] e[j])
    &&& forall|k: int|
        0 <= k < items.len() ==> 0 <= #[trigger] ps[k] < pe[k] < e.len() && e[ps[k]] == start_ev(items, k)
            && e[pe[k]] == end_ev(items, k)
    &&& forall|i: int|
        0 <= i < e.len() ==> (#[trigger] e[i]).2 < items.len() && ((e[i].1 == 1 && ps[e[i].2 as int] == i) || (
        e[i].1 == 0 && pe[e[i].2 as int] == i))
}

/// The sorted events hold each start and each end event once, in increasing order.
proof fn lemma_positions(items: Seq<(Range<u64>, u64)>, e: Seq<(u64, u64, u64)>) -> (r: (Seq<int>, Seq<int>))
    requires
        items_non_empty(items),
        items.len() <= u64::MAX,
        e.to_multiset() == gen_events(items).to_multiset(),
        events_sorted(e),
    ensures
        positions_ok(items, e, r.0, r.1),
{
    broadcast use vstd::seq_lib::group_to_multiset_ensures;

    let g = gen_events(items);
    let n = items.len();
    assert forall|i: int, j: int| 0 <= i < g.len() && 0 <= j < g.len() && i != j implies g[i] != g[j] by {
        if i / 2 != j / 2 {
            assert((i / 2) as u64 != (j / 2) as u64);
        }
    }
    assert(g.no_duplicates());
    g.lemma_multiset_has_no_duplicates();
    e.lemma_multiset_has_no_duplicates_conv();
    assert(e.to_multiset().len() == g.to_multiset().len());
    assert(e.len() == g.len());
    assert forall|i: int, j: int| 0 <= i < j < e.len() implies ev_lt(#[trigger] e[i], #[trigger] e[j]) by {
        assert(ev_le(e[i], e[j]));
    }
    assert forall|k: int| 0 <= k < n implies e.contains(start_ev(items, k)) && e.contains(end_ev(items, k)) by {
        assert(g[2 * k] == start_ev(items, k));
        assert(g[2 * k + 1] == end_ev(items, k));
        assert(g.contains(start_ev(items, k)));
        assert(g.contains(end_ev(items, k)));
        assert(g.to_multiset().count(start_ev(items, k)) > 0);
        assert(g.to_multiset().count(end_ev(items, k)) > 0);
        assert(e.to_multiset().count(start_ev(items, k)) > 0);
        assert(e.to_multiset().count(end_ev(items, k)) > 0);
    }
    let ps = Seq::new(n, |k: int| choose|i: int| 0 <= i < e.len() && e[i] == start_ev(items, k));
    let pe = Seq::new(n, |k: int| choose|i: int| 0 <= i < e.len() && e[i] == end_ev(items, k));
    assert forall|k: int| 0 <= k < n implies 0 <= #[trigger] ps[k] < pe[k] < e.len() && e[ps[k]] == start_ev(items, k)
        && e[pe[k]] == end_ev(items, k) by {
        assert(e.contains(start_ev(items, k)));
        assert(e.contains(end_ev(items, k)));
        let a = ps[k];
        let b = pe[k];
        assert(ev_lt(e[a], e[b]));
        if b < a {
            assert(ev_lt(e[b], e[a]));
        }
    }
    assert forall|i: int| 0 <= i < e.len() implies (#[trigger] e[i]).2 < n && ((e[i].1 == 1 && ps[e[i].2 as int] == i) || (
        e[i].1 == 0 && pe[e[i].2 as int] == i)) by {
        assert(e.contains(e[i]));
        assert(e.to_multiset().count(e[i]) > 0);
        assert(g.to_multiset().count(e[i]) > 0);
        assert(g.contains(e[i]));
        let j = choose|j: int| 0 <= j < g.len() && g[j] == e[i];
        let k = j / 2;
        if j % 2 == 0 {
            assert(e[ps[k]] == e[i]);
        } else {
            assert(e[pe[k]] == e[i]);
        }
    }
    (ps, pe)
}

/// The range of the item `k` holds `t`.
pub open spec fn covers(items: Seq<(Range<u64>, u64)>, k: int, t: int) -> bool {
    items[k].0.start <= t < items[k].0.end
}

/// The item `k` has started and not yet ended once the first `e` events are processed.
pub open spec fn active(ps: Seq<int>, pe: Seq<int>, e: int, k: int) -> bool {
    ps[k] < e <= pe[k]
}

/// Number of the first `m` items, of cell `c`, active after `e` events.
pub open spec fn act(items: Seq<(Range<u64>, u64)>, ps: Seq<int>, pe: Seq<int>, e: int, c: int, m: int) -> int
    decreases m,
{
    if m <= 0 {
        0
    } else {
        act(items, ps, pe, e, c, m - 1) + if items[m - 1].1 == c && active(ps, pe, e, m - 1) {
            1int
        } else {
            0int
        }
    }
}

/// The item `k` covers `(t, s)`, `s` lying in its cell (of length `p2`).
pub open spec fn item_has(items: Seq<(Range<u64>, u64)>, p2: int, k: int, t: int, s: int) -> bool {
    covers(items, k, t) && 0 <= s && s / p2 == items[k].1
}

/// One of the items covers `(t, s)`.
pub open spec fn items_has(items: Seq<(Range<u64>, u64)>, p2: int, t: int, s: int) -> bool {
    exists|k: int| 0 <= k < items.len() && #[trigger] item_has(items, p2, k, t, s)
}

/// Coordinate of the last processed event (0 before the first one).
pub open spec fn pos_of(ev: Seq<(u64, u64, u64)>, e: int) -> int {
    if e <= 0 {
        0
    } else {
        ev[e - 1].0 as int
    }
}

proof fn lemma_act_bounds(items: Seq<(Range<u64>, u64)>, ps: Seq<int>, pe: Seq<int>, e: int, c: int, m: int)
    requires
        0 <= m <= items.len(),
    ensures
        0 <= act(items, ps, pe, e, c, m) <= m,
        act(items, ps, pe, e, c, m) > 0 <==> exists|k: int|
            0 <= k < m && items[k].1 == c && #[trigger] active(ps, pe, e, k),
    decreases m,
{
    if m > 0 {
        lemma_act_bounds(items, ps, pe, e, c, m - 1);
        if act(items, ps, pe, e, c, m - 1) > 0 {
            let k = choose|k: int| 0 <= k < m - 1 && items[k].1 == c && #[trigger] active(ps, pe, e, k);
            assert(0 <= k < m && items[k].1 == c && active(ps, pe, e, k));
        }
        if items[m - 1].1 == c && active(ps, pe, e, m - 1) {
            assert(0 <= m - 1 < m && items[m - 1].1 == c && active(ps, pe, e, m - 1));
        }
        if exists|k: int| 0 <= k < m && items[k].1 == c && #[trigger] active(ps, pe, e, k) {
            let k = choose|k: int| 0 <= k < m && items[k].1 == c && #[trigger] active(ps, pe, e, k);
            if k < m - 1 {
                assert(0 <= k < m - 1 && items[k].1 == c && active(ps, pe, e, k));
            }
        }
    }
}

/// Processing the event `e` changes the activity of its item only.
proof fn lemma_act_step(
    items: Seq<(Range<u64>, u64)>,
    ev: Seq<(u64, u64, u64)>,
    ps: Seq<int>,
    pe: Seq<int>,
    e: int,
    c: int,
    m: int,
)
    requires
        positions_ok(items, ev, ps, pe),
        items.len() <= u64::MAX,
        0 <= e < ev.len(),
        0 <= m <= items.len(),
    ensures
        act(items, ps, pe, e + 1, c, m) == act(items, ps, pe, e, c, m) + if ev[e].2 < m && items[ev[e].2 as int].1
            == c {
            if ev[e].1 == 1 {
                1int
            } else {
                -1int
            }
        } else {
            0int
        },
    decreases m,
{
    if m > 0 {
        lemma_act_step(items, ev, ps, pe, e, c, m - 1);
        let j = m - 1;
        let kk = ev[e].2 as int;
        assert(0 <= ps[j] < pe[j] < ev.len());
        if j != kk {
            if ps[j] == e {
                assert(ev[ps[j]] == start_ev(items, j));
                assert((j as u64) as int == j);
            }
            if pe[j] == e {
                assert(ev[pe[j]] == end_ev(items, j));
                assert((j as u64) as int == j);
            }
        }
    }
}

/// Between the last processed event and the next one, the items that hold `t` are the
/// active ones.
proof fn lemma_gap(
    items: Seq<(Range<u64>, u64)>,
    ev: Seq<(u64, u64, u64)>,
    ps: Seq<int>,
    pe: Seq<int>,
    e: int,
    t: int,
    k: int,
)
    requires
        positions_ok(items, ev, ps, pe),
        0 <= e <= ev.len(),
        e > 0 ==> ev[e - 1].0 <= t,
        e < ev.len() ==> t < ev[e].0,
        0 <= k < items.len(),
    ensures
        covers(items, k, t) <==> active(ps, pe, e, k),
{
    assert(0 <= ps[k] < pe[k] < ev.len());
    assert(ev[ps[k]] == start_ev(items, k));
    assert(ev[pe[k]] == end_ev(items, k));
    if covers(items, k, t) {
        if ps[k] >= e {
            if ps[k] > e {
                assert(ev_lt(ev[e], ev[ps[k]]));
            }
        }
        if pe[k] < e {
            if pe[k] < e - 1 {
                assert(ev_lt(ev[pe[k]], ev[e - 1]));
            }
        }
    }
    if active(ps, pe, e, k) {
        if ps[k] < e - 1 {
            assert(ev_lt(ev[ps[k]], ev[e - 1]));
        }
        if pe[k] > e {
            assert(ev_lt(ev[e], ev[pe[k]]));
        }
    }
}

/// Strictly increasing cells.
pub open spec fn keys_sorted(m: Seq<(u64, u64)>) -> bool {
    forall|i: int, j: int| 0 <= i < j < m.len() ==> (#[trigger] m[i]).0 < (#[trigger] m[j]).0
}

/// `c` is one of the cells of `m`.
pub open spec fn in_keys(m: Seq<(u64, u64)>, c: int) -> bool {
    exists|i: int| 0 <= i < m.len() && (#[trigger] m[i]).0 == c
}

/// Binary search of the cell `c` in the cells `m`: its index if present, else the index at
/// which it would be inserted.
fn find_cell(m: &Vec<(u64, u64)>, c: u64) -> (r: (bool, usize))
    requires
        keys_sorted(m@),
    ensures
        r.1 <= m@.len(),
        r.0 ==> r.1 < m@.len() && m@[r.1 as int].0 == c,
        !r.0 ==> (forall|i: int| 0 <= i < r.1 ==> (#[trigger] m@[i]).0 < c) && (forall|i: int|
            r.1 <= i < m@.len() ==> (#[trigger] m@[i]).0 > c),
{
    let n = m.len();
    let mut lo: usize = 0;
    let mut hi: usize = n;
    while lo < hi
        invariant
            n == m@.len(),
            keys_sorted(m@),
            lo <= hi <= n,
            forall|i: int| 0 <= i < lo ==> (#[trigger] m@[i]).0 < c,
            forall|i: int| hi <= i < n ==> (#[trigger] m@[i]).0 >= c,
        decreases hi - lo,
    {
        let mid = lo + (hi - lo) / 2;
        if m[mid].0 < c {
            lo = mid + 1;
        } else {
            hi = mid;
        }
    }
    if lo < n && m[lo].0 == c {
        (true, lo)
    } else {
        proof {
            assert forall|i: int| lo <= i < n implies (#[trigger] m@[i]).0 > c by {
                if i > lo {
                    assert(m@[lo as int].0 < m@[i].0);
                }
            }
        }
        (false, lo)
    }
}

/// The MOC of the range `[b, x[` of the first quantity.
fn left_moc<Q: MocQty<u64>>(b: u64, x: u64, depth: u8) -> (r: RangeMOC<u64, Q>)
    requires
        depth <= Q::MAX_DEPTH,
        b < x <= Q::spec_n_cells_max(),
        b as int % cell_len::<Q>(depth as int) == 0,
        x as int % cell_len::<Q>(depth as int) == 0,
    ensures
        r.wf(),
        r.depth() == depth,
        r.rs().len() == 1,
        r.rs()[0] == (Range { start: b, end: x }),
        forall|t: int| #[trigger] r.has(t) <==> b <= t < x,
{
    let r = RangeMOC::<u64, Q>::new(depth, Ranges::new_unchecked(vec![Range { start: b, end: x }]));
    proof {
        assert forall|t: int| #[trigger] r.has(t) <==> b <= t < x by {
            if b <= t < x {
                assert(range_has(r.rs()[0], t));
            }
        }
    }
    r
}

/// The MOC, of depth `depth`, of the cells of `m`.
fn build_moc_2<R: MocQty<u64>>(m: &Vec<(u64, u64)>, depth: u8) -> (r: RangeMOC<u64, R>)
    requires
        depth <= R::MAX_DEPTH,
        m@.len() > 0,
        forall|i: int| 0 <= i < m@.len() ==> valid_cell::<R>((depth, (#[trigger] m@[i]).0)),
    ensures
        r.wf(),
        r.depth() == depth,
        r.rs().len() > 0,
        forall|s: int| #[trigger] r.has(s) <==> (0 <= s && in_keys(m@, s / cell_len::<R>(depth as int))),
{
    let ghost p2 = cell_len::<R>(depth as int);
    let n = m.len();
    let mut keys: Vec<u64> = Vec::new();
    let mut i: usize = 0;
    while i < n
        invariant
            n == m@.len(),
            i <= n,
            keys@.len() == i,
            forall|j: int| 0 <= j < i ==> keys@[j] == (#[trigger] m@[j]).0,
        decreases n - i,
    {
        keys.push(m[i].0);
        i += 1;
    }
    proof {
        assert forall|k: int| 0 <= k < keys@.len() implies valid_cell::<R>((depth, #[trigger] keys@[k])) by {
            assert(keys@[k] == m@[k].0);
        }
    }
    let r = RangeMOC::<u64, R>::from_fixed_depth_cells(depth, keys, None);
    proof {
        crate::moc::lemma_cell_len::<R>(depth as int, depth as int);
        assert forall|s: int| #[trigger] r.has(s) <==> (0 <= s && in_keys(m@, s / p2)) by {
            if 0 <= s && in_keys(m@, s / p2) {
                let j = choose|j: int| 0 <= j < m@.len() && (#[trigger] m@[j]).0 == s / p2;
                assert(keys@[j] == s / p2);
            }
            if r.has(s) {
                let j = choose|j: int| 0 <= j < keys@.len() && #[trigger] keys@[j] == s / p2;
                assert(m@[j].0 == s / p2);
            }
        }
        let s0 = m@[0].0 * p2;
        vstd::arithmetic::div_mod::lemma_div_multiples_vanish(m@[0].0 as int, p2);
        vstd::arithmetic::mul::lemma_mul_nonnegative(m@[0].0 as int, p2);
        assert(m@[0].0 * p2 == p2 * m@[0].0) by (nonlinear_arith);
        assert(in_keys(m@, s0 / p2));
        assert(r.has(s0));
    }
    r
}

/// The state of the sweep line: the cells of the second quantity of the active items, with
/// their numbers of active items, and the coordinate from which this set of cells holds.
struct SweepLineMOC2ElemBuilder {
    depth_1: u8,
    depth_2: u8,
    start_1: Option<u64>,
    cells_2: Vec<(u64, u64)>,
}

/// Ranges non-empty, aligned on the cells of depth `d1`, within the first quantity, and cells of
/// depth `d2` of the second quantity.
pub open spec fn items_ok<Q: MocQty<u64>, R: MocQty<u64>>(items: Seq<(Range<u64>, u64)>, d1: u8, d2: u8) -> bool {
    forall|k: int|
        0 <= k < items.len() ==> (#[trigger] items[k]).0.start < items[k].0.end && items[k].0.end
            <= Q::spec_n_cells_max() && items[k].0.start as int % cell_len::<Q>(d1 as int) == 0
            && items[k].0.end as int % cell_len::<Q>(d1 as int) == 0 && valid_cell::<R>((d2, items[k].1))
}

/// What does not change during the sweep.
spec fn ctx_ok<Q: MocQty<u64>, R: MocQty<u64>>(
    d1: u8,
    d2: u8,
    items: Seq<(Range<u64>, u64)>,
    ev: Seq<(u64, u64, u64)>,
    ps: Seq<int>,
    pe: Seq<int>,
) -> bool {
    &&& d1 <= Q::MAX_DEPTH
    &&& d2 <= R::MAX_DEPTH
    &&& items.len() <= u64::MAX
    &&& items_ok::<Q, R>(items, d1, d2)
    &&& positions_ok(items, ev, ps, pe)
}

/// The cells of the sweep line are those of the items active after `e` events, with their
/// numbers of active items.
spec fn state_ok(sl: SweepLineMOC2ElemBuilder, items: Seq<(Range<u64>, u64)>, ps: Seq<int>, pe: Seq<int>, e: int) -> bool {
    let m = sl.cells_2@;
    let n = items.len() as int;
    &&& keys_sorted(m)
    &&& forall|i: int| 0 <= i < m.len() ==> (#[trigger] m[i]).1 == act(items, ps, pe, e, m[i].0 as int, n) && m[i].1 > 0
    &&& forall|c: int| #[trigger] act(items, ps, pe, e, c, n) > 0 ==> in_keys(m, c)
    &&& sl.start_1.is_some() == (m.len() > 0)
}

/// Up to where the elements already built cover the items.
spec fn bound_of(sl: SweepLineMOC2ElemBuilder, ev: Seq<(u64, u64, u64)>, e: int) -> int {
    match sl.start_1 {
        Some(b) => b as int,
        None => pos_of(ev, e),
    }
}

/// The elements built cover the items below the bound; from the start of the sweep line to the
/// last event, the items cover exactly the cells of the sweep line.
spec fn cover_ok<Q: MocQty<u64>, R: MocQty<u64>>(
    sl: SweepLineMOC2ElemBuilder,
    items: Seq<(Range<u64>, u64)>,
    ev: Seq<(u64, u64, u64)>,
    e: int,
    out: Seq<RangeMOC2Elem<u64, Q, u64, R>>,
) -> bool {
    let p2 = cell_len::<R>(sl.depth_2 as int);
    let bnd = bound_of(sl, ev, e);
    &&& bnd <= pos_of(ev, e)
    &&& sl.start_1 matches Some(b) ==> e > 0 && b as int % cell_len::<Q>(sl.depth_1 as int) == 0 && b
        <= Q::spec_n_cells_max()
    &&& sl.start_1 matches Some(b) ==> forall|t: int, s: int|
        b <= t < pos_of(ev, e) ==> (#[trigger] items_has(items, p2, t, s) <==> (0 <= s && in_keys(
            sl.cells_2@,
            s / p2,
        )))
    &&& forall|t: int, s: int| #[trigger] elems_has2(out, t, s) <==> (t < bnd && items_has(items, p2, t, s))
    &&& elems_wf(out, sl.depth_1, sl.depth_2)
    &&& forall|i: int| 0 <= i < out.len() ==> (#[trigger] out[i]).left().rs().last().end <= bnd
}

/// Event coordinates are bounds of item ranges.
proof fn lemma_ev_coord<Q: MocQty<u64>, R: MocQty<u64>>(
    d1: u8,
    d2: u8,
    items: Seq<(Range<u64>, u64)>,
    ev: Seq<(u64, u64, u64)>,
    ps: Seq<int>,
    pe: Seq<int>,
    i: int,
)
    requires
        ctx_ok::<Q, R>(d1, d2, items, ev, ps, pe),
        0 <= i < ev.len(),
    ensures
        ev[i].0 as int % cell_len::<Q>(d1 as int) == 0,
        ev[i].0 <= Q::spec_n_cells_max(),
        ev[i].2 < items.len(),
        ev[i].1 == 1 ==> ev[i].0 == items[ev[i].2 as int].0.start && ps[ev[i].2 as int] == i,
        ev[i].1 != 1 ==> ev[i].1 == 0 && ev[i].0 == items[ev[i].2 as int].0.end && pe[ev[i].2 as int] == i,
{
    let k = ev[i].2 as int;
    assert(ev[i].2 < items.len());
    assert(0 <= ps[k] < pe[k] < ev.len());
    assert(items_ok::<Q, R>(items, d1, d2));
    assert(items[k].0.start < items[k].0.end);
}

/// Between the last processed event and the next one, the items cover exactly the cells of
/// the sweep line.
proof fn lemma_keys_gap<Q: MocQty<u64>, R: MocQty<u64>>(
    sl: SweepLineMOC2ElemBuilder,
    items: Seq<(Range<u64>, u64)>,
    ev: Seq<(u64, u64, u64)>,
    ps: Seq<int>,
    pe: Seq<int>,
    e: int,
    t: int,
)
    requires
        ctx_ok::<Q, R>(sl.depth_1, sl.depth_2, items, ev, ps, pe),
        state_ok(sl, items, ps, pe, e),
        0 <= e <= ev.len(),
        e > 0 ==> ev[e - 1].0 <= t,
        e < ev.len() ==> t < ev[e].0,
    ensures
        forall|s: int|
            #[trigger] items_has(items, cell_len::<R>(sl.depth_2 as int), t, s) <==> (0 <= s && in_keys(
                sl.cells_2@,
                s / cell_len::<R>(sl.depth_2 as int),
            )),
{
    let p2 = cell_len::<R>(sl.depth_2 as int);
    let n = items.len() as int;
    let m = sl.cells_2@;
    assert forall|s: int| #[trigger] items_has(items, p2, t, s) <==> (0 <= s && in_keys(m, s / p2)) by {
        if items_has(items, p2, t, s) {
            let k = choose|k: int| 0 <= k < items.len() && #[trigger] item_has(items, p2, k, t, s);
            lemma_gap(items, ev, ps, pe, e, t, k);
            lemma_act_bounds(items, ps, pe, e, items[k].1 as int, n);
            assert(active(ps, pe, e, k));
            assert(act(items, ps, pe, e, items[k].1 as int, n) > 0);
        }
        if 0 <= s && in_keys(m, s / p2) {
            let i = choose|i: int| 0 <= i < m.len() && (#[trigger] m[i]).0 == s / p2;
            let c = m[i].0 as int;
            lemma_act_bounds(items, ps, pe, e, c, n);
            let k = choose|k: int| 0 <= k < n && items[k].1 == c && #[trigger] active(ps, pe, e, k);
            lemma_gap(items, ev, ps, pe, e, t, k);
            assert(item_has(items, p2, k, t, s));
        }
    }
}

/// The cells of `a` and `b` are the same, in the same order.
pub open spec fn same_keys(a: Seq<(u64, u64)>, b: Seq<(u64, u64)>) -> bool {
    a.len() == b.len() && forall|i: int| 0 <= i < a.len() ==> (#[trigger] a[i]).0 == b[i].0
}

proof fn lemma_same_keys(a: Seq<(u64, u64)>, b: Seq<(u64, u64)>)
    requires
        same_keys(a, b),
    ensures
        forall|c: int| #[trigger] in_keys(a, c) <==> in_keys(b, c),
        keys_sorted(a) ==> keys_sorted(b),
{
    assert forall|c: int| #[trigger] in_keys(a, c) <==> in_keys(b, c) by {
        if in_keys(a, c) {
            let i = choose|i: int| 0 <= i < a.len() && (#[trigger] a[i]).0 == c;
            assert(b[i].0 == c);
        }
        if in_keys(b, c) {
            let i = choose|i: int| 0 <= i < b.len() && (#[trigger] b[i]).0 == c;
            assert(a[i].0 == c);
        }
    }
    if keys_sorted(a) {
        assert forall|i: int, j: int| 0 <= i < j < b.len() implies (#[trigger] b[i]).0 < (#[trigger] b[j]).0 by {
            assert(a[i].0 < a[j].0);
        }
    }
}

/// Inserting the cell `(c, 1)` where `find_cell` placed it.
proof fn lemma_insert_keys(m: Seq<(u64, u64)>, idx: int, c: u64)
    requires
        keys_sorted(m),
        0 <= idx <= m.len(),
        forall|i: int| 0 <= i < idx ==> (#[trigger] m[i]).0 < c,
        forall|i: int| idx <= i < m.len() ==> (#[trigger] m[i]).0 > c,
    ensures
        keys_sorted(m.insert(idx, (c, 1u64))),
        forall|x: int| #[trigger] in_keys(m.insert(idx, (c, 1u64)), x) <==> (in_keys(m, x) || x == c),
        m.insert(idx, (c, 1u64)).len() == m.len() + 1,
        forall|i: int| 0 <= i < idx ==> #[trigger] m.insert(idx, (c, 1u64))[i] == m[i],
        forall|i: int| idx < i <= m.len() ==> #[trigger] m.insert(idx, (c, 1u64))[i] == m[i - 1],
        m.insert(idx, (c, 1u64))[idx] == (c, 1u64),
{
    let m2 = m.insert(idx, (c, 1u64));
    m.insert_ensures(idx, (c, 1u64));
    assert forall|i: int| idx < i <= m.len() implies #[trigger] m2[i] == m[i - 1] by {
        assert(m2[(i - 1) + 1] == m[i - 1]);
    }
    assert forall|i: int, j: int| 0 <= i < j < m2.len() implies (#[trigger] m2[i]).0 < (#[trigger] m2[j]).0 by {
        if j < idx {
        } else if j == idx {
        } else if i < idx {
            assert(m[i].0 < c);
        } else if i == idx {
        } else {
            assert(m[i - 1].0 < m[j - 1].0);
        }
    }
    assert forall|x: int| #[trigger] in_keys(m2, x) <==> (in_keys(m, x) || x == c) by {
        if in_keys(m2, x) {
            let i = choose|i: int| 0 <= i < m2.len() && (#[trigger] m2[i]).0 == x;
            if i < idx {
                assert(m[i].0 == x);
            } else if i > idx {
                assert(m[i - 1].0 == x);
            }
        }
        if in_keys(m, x) {
            let i = choose|i: int| 0 <= i < m.len() && (#[trigger] m[i]).0 == x;
            if i < idx {
                assert(m2[i].0 == x);
            } else {
                assert(m2[i + 1].0 == x);
            }
        }
        if x == c {
            assert(m2[idx].0 == x);
        }
    }
}

/// Removing the cell of index `idx`.
proof fn lemma_remove_keys(m: Seq<(u64, u64)>, idx: int)
    requires
        keys_sorted(m),
        0 <= idx < m.len(),
    ensures
        keys_sorted(m.remove(idx)),
        forall|x: int| #[trigger] in_keys(m.remove(idx), x) <==> (in_keys(m, x) && x != m[idx].0),
        m.remove(idx).len() == m.len() - 1,
        forall|i: int| 0 <= i < idx ==> #[trigger] m.remove(idx)[i] == m[i],
        forall|i: int| idx <= i < m.len() - 1 ==> #[trigger] m.remove(idx)[i] == m[i + 1],
{
    let m2 = m.remove(idx);
    m.remove_ensures(idx);
    assert forall|i: int, j: int| 0 <= i < j < m2.len() implies (#[trigger] m2[i]).0 < (#[trigger] m2[j]).0 by {
        if j < idx {
        } else if i < idx {
            assert(m[i].0 < m[j + 1].0);
        } else {
            assert(m[i + 1].0 < m[j + 1].0);
        }
    }
    assert forall|x: int| #[trigger] in_keys(m2, x) <==> (in_keys(m, x) && x != m[idx].0) by {
        if in_keys(m2, x) {
            let i = choose|i: int| 0 <= i < m2.len() && (#[trigger] m2[i]).0 == x;
            if i < idx {
                assert(m[i].0 == x);
                assert(m[i].0 < m[idx].0);
            } else {
                assert(m[i + 1].0 == x);
                assert(m[idx].0 < m[i + 1].0);
            }
        }
        if in_keys(m, x) && x != m[idx].0 {
            let i = choose|i: int| 0 <= i < m.len() && (#[trigger] m[i]).0 == x;
            if i < idx {
                assert(m2[i].0 == x);
            } else {
                assert(m2[i - 1].0 == x);
            }
        }
    }
}

impl SweepLineMOC2ElemBuilder {
    fn new(depth_1: u8, depth_2: u8) -> (r: Self)
        ensures
            r.depth_1 == depth_1,
            r.depth_2 == depth_2,
            r.start_1.is_none(),
            r.cells_2@.len() == 0,
    {
        SweepLineMOC2ElemBuilder { depth_1, depth_2, start_1: None, cells_2: Vec::new() }
    }

    fn same_start(&self, start: u64) -> (r: bool)
        ensures
            r == (self.start_1 == Some(start)),
    {
        match self.start_1 {
            Some(b) => b == start,
            None => false,
        }
    }

    /// Processes the start event `e`, at `start`, of an item of cell `elem`: returns the
    /// element closed by the change of the set of cells, if the set changes after its start.
    #[verifier::rlimit(40)]
    fn add<Q: MocQty<u64>, R: MocQty<u64>>(
        &mut self,
        start: u64,
        elem: u64,
        Ghost(items): Ghost<Seq<(Range<u64>, u64)>>,
        Ghost(ev): Ghost<Seq<(u64, u64, u64)>>,
        Ghost(ps): Ghost<Seq<int>>,
        Ghost(pe): Ghost<Seq<int>>,
        Ghost(e): Ghost<int>,
        Ghost(out): Ghost<Seq<RangeMOC2Elem<u64, Q, u64, R>>>,
    ) -> (res: Option<RangeMOC2Elem<u64, Q, u64, R>>)
        requires
            ctx_ok::<Q, R>(old(self).depth_1, old(self).depth_2, items, ev, ps, pe),
            state_ok(*old(self), items, ps, pe, e),
            cover_ok::<Q, R>(*old(self), items, ev, e, out),
            0 <= e < ev.len(),
            ev[e].0 == start,
            ev[e].1 == 1,
            items[ev[e].2 as int].1 == elem,
        ensures
            final(self).depth_1 == old(self).depth_1,
            final(self).depth_2 == old(self).depth_2,
            state_ok(*final(self), items, ps, pe, e + 1),
            cover_ok::<Q, R>(
                *final(self),
                items,
                ev,
                e + 1,
                match res {
                    Some(el) => out.push(el),
                    None => out,
                },
            ),
    {
        let ghost old_self = *self;
        let ghost n = items.len() as int;
        let ghost m0 = self.cells_2@;
        let ghost p2 = cell_len::<R>(self.depth_2 as int);
        let ghost pos = pos_of(ev, e);
        proof {
            lemma_ev_coord::<Q, R>(self.depth_1, self.depth_2, items, ev, ps, pe, e);
            if e > 0 {
                assert(ev_lt(ev[e - 1], ev[e]));
            }
            assert(pos <= start);
            assert(pos_of(ev, e + 1) == start);
            assert forall|c: int| #[trigger] act(items, ps, pe, e + 1, c, n) == act(items, ps, pe, e, c, n) + if c
                == elem {
                1int
            } else {
                0int
            } by {
                lemma_act_step(items, ev, ps, pe, e, c, n);
            }
            lemma_act_bounds(items, ps, pe, e + 1, elem as int, n);
            lemma_act_bounds(items, ps, pe, e, elem as int, n);
        }
        let (found, idx) = find_cell(&self.cells_2, elem);
        if found {
            // The cell is already on the sweep line: one more item holds it.
            let count = self.cells_2[idx].1;
            self.cells_2.set(idx, (elem, count + 1));
            proof {
                let m = self.cells_2@;
                assert(same_keys(m0, m));
                lemma_same_keys(m0, m);
                assert forall|i: int| 0 <= i < m.len() implies (#[trigger] m[i]).1 == act(items, ps, pe, e + 1, m[i].0 as int, n) && m[i].1 > 0 by {
                    if i != idx {
                        assert(m0[i].0 != elem);
                    }
                }
                assert forall|c: int| #[trigger] act(items, ps, pe, e + 1, c, n) > 0 implies in_keys(m, c) by {
                    if c != elem {
                        assert(act(items, ps, pe, e, c, n) > 0);
                    } else {
                        assert(m[idx as int].0 == c);
                    }
                }
                let b = self.start_1->Some_0;
                assert forall|t: int, s: int| b <= t < start implies (#[trigger] items_has(items, p2, t, s) <==> (0 <= s
                    && in_keys(m, s / p2))) by {
                    if t >= pos {
                        lemma_keys_gap::<Q, R>(old_self, items, ev, ps, pe, e, t);
                    }
                }
            }
            None
        } else if self.cells_2.len() == 0 {
            // The sweep line was empty: it starts here.
            self.cells_2.insert(idx, (elem, 1));
            self.start_1 = Some(start);
            proof {
                lemma_insert_keys(m0, idx as int, elem);
                let m = self.cells_2@;
                assert(!in_keys(m0, elem as int));
                assert(act(items, ps, pe, e, elem as int, n) == 0);
                assert forall|c: int| #[trigger] act(items, ps, pe, e + 1, c, n) > 0 implies in_keys(m, c) by {
                    if c != elem {
                        assert(act(items, ps, pe, e, c, n) > 0);
                        assert(in_keys(m0, c));
                    }
                }
                assert forall|t: int, s: int| #[trigger] elems_has2(out, t, s) <==> (t < start && items_has(items, p2, t, s)) by {
                    if pos <= t < start {
                        lemma_keys_gap::<Q, R>(old_self, items, ev, ps, pe, e, t);
                        assert(!in_keys(m0, s / p2));
                    }
                }
            }
            None
        } else if self.same_start(start) {
            // The set of cells changes where it started: nothing to close.
            self.cells_2.insert(idx, (elem, 1));
            proof {
                lemma_insert_keys(m0, idx as int, elem);
                let m = self.cells_2@;
                assert(!in_keys(m0, elem as int));
                assert(act(items, ps, pe, e, elem as int, n) == 0);
                assert forall|i: int| 0 <= i < m.len() implies (#[trigger] m[i]).1 == act(items, ps, pe, e + 1, m[i].0 as int, n) && m[i].1 > 0 by {
                    if i < idx {
                        assert(m[i] == m0[i]);
                    } else if i > idx {
                        assert(m[i] == m0[i - 1]);
                    }
                }
                assert forall|c: int| #[trigger] act(items, ps, pe, e + 1, c, n) > 0 implies in_keys(m, c) by {
                    if c != elem {
                        assert(act(items, ps, pe, e, c, n) > 0);
                        assert(in_keys(m0, c));
                    }
                }
            }
            None
        } else {
            // The set of cells changes: the element of the previous set is closed.
            proof {
                assert forall|i: int| 0 <= i < m0.len() implies valid_cell::<R>((self.depth_2, (#[trigger] m0[i]).0)) by {
                    let c = m0[i].0 as int;
                    lemma_act_bounds(items, ps, pe, e, c, n);
                    let k = choose|k: int| 0 <= k < n && items[k].1 == c && #[trigger] active(ps, pe, e, k);
                    assert(items_ok::<Q, R>(items, self.depth_1, self.depth_2));
                    assert(valid_cell::<R>((self.depth_2, items[k].1)));
                }
            }
            let moc_2 = build_moc_2::<R>(&self.cells_2, self.depth_2);
            self.cells_2.insert(idx, (elem, 1));
            let prev_start = self.start_1.unwrap();
            self.start_1 = Some(start);
            let moc_1 = left_moc::<Q>(prev_start, start, self.depth_1);
            let el = RangeMOC2Elem::new(moc_1, moc_2);
            proof {
                lemma_insert_keys(m0, idx as int, elem);
                let m = self.cells_2@;
                let b = prev_start;
                assert(!in_keys(m0, elem as int));
                assert(act(items, ps, pe, e, elem as int, n) == 0);
                assert forall|i: int| 0 <= i < m.len() implies (#[trigger] m[i]).1 == act(items, ps, pe, e + 1, m[i].0 as int, n) && m[i].1 > 0 by {
                    if i < idx {
                        assert(m[i] == m0[i]);
                    } else if i > idx {
                        assert(m[i] == m0[i - 1]);
                    }
                }
                assert forall|c: int| #[trigger] act(items, ps, pe, e + 1, c, n) > 0 implies in_keys(m, c) by {
                    if c != elem {
                        assert(act(items, ps, pe, e, c, n) > 0);
                        assert(in_keys(m0, c));
                    }
                }
                let out2 = out.push(el);
                lemma_elems_has2_push(out, el);
                assert forall|t: int, s: int| #[trigger] elems_has2(out2, t, s) <==> (t < start && items_has(items, p2, t, s)) by {
                    assert(elem_has2(el, t, s) <==> (b <= t < start && (0 <= s && in_keys(m0, s / p2))));
                    if pos <= t < start {
                        lemma_keys_gap::<Q, R>(old_self, items, ev, ps, pe, e, t);
                    }
                }
                assert forall|i: int, j: int| 0 <= i < j < out2.len() implies (#[trigger] out2[i]).left().rs().last().end
                    <= (#[trigger] out2[j]).left().rs()[0].start by {
                    if j < out.len() {
                        assert(out[i] == out2[i] && out[j] == out2[j]);
                    } else {
                        assert(out[i] == out2[i]);
                    }
                }
                assert forall|i: int| 0 <= i < out2.len() implies crate::moc2d::elem_wf(#[trigger] out2[i], self.depth_1, self.depth_2) by {
                    if i < out.len() {
                        assert(out[i] == out2[i]);
                    }
                }
                assert forall|i: int| 0 <= i < out2.len() implies (#[trigger] out2[i]).left().rs().last().end <= start by {
                    if i < out.len() {
                        assert(out[i] == out2[i]);
                    }
                }
            }
            Some(el)
        }
    }

    /// Processes the end event `e`, at `end`, of an item of cell `elem`: returns the element
    /// closed by the change of the set of cells, if the cell leaves the sweep line after the
    /// start of the set.
    #[verifier::rlimit(40)]
    fn remove<Q: MocQty<u64>, R: MocQty<u64>>(
        &mut self,
        end: u64,
        elem: u64,
        Ghost(items): Ghost<Seq<(Range<u64>, u64)>>,
        Ghost(ev): Ghost<Seq<(u64, u64, u64)>>,
        Ghost(ps): Ghost<Seq<int>>,
        Ghost(pe): Ghost<Seq<int>>,
        Ghost(e): Ghost<int>,
        Ghost(out): Ghost<Seq<RangeMOC2Elem<u64, Q, u64, R>>>,
    ) -> (res: Option<RangeMOC2Elem<u64, Q, u64, R>>)
        requires
            ctx_ok::<Q, R>(old(self).depth_1, old(self).depth_2, items, ev, ps, pe),
            state_ok(*old(self), items, ps, pe, e),
            cover_ok::<Q, R>(*old(self), items, ev, e, out),
            0 <= e < ev.len(),
            ev[e].0 == end,
            ev[e].1 != 1,
            items[ev[e].2 as int].1 == elem,
        ensures
            final(self).depth_1 == old(self).depth_1,
            final(self).depth_2 == old(self).depth_2,
            state_ok(*final(self), items, ps, pe, e + 1),
            cover_ok::<Q, R>(
                *final(self),
                items,
                ev,
                e + 1,
                match res {
                    Some(el) => out.push(el),
                    None => out,
                },
            ),
    {
        let ghost old_self = *self;
        let ghost n = items.len() as int;
        let ghost m0 = self.cells_2@;
        let ghost p2 = cell_len::<R>(self.depth_2 as int);
        let ghost pos = pos_of(ev, e);
        let ghost kk = ev[e].2 as int;
        proof {
            lemma_ev_coord::<Q, R>(self.depth_1, self.depth_2, items, ev, ps, pe, e);
            if e > 0 {
                assert(ev_lt(ev[e - 1], ev[e]));
            }
            assert(pos <= end);
            assert(pos_of(ev, e + 1) == end);
            assert forall|c: int| #[trigger] act(items, ps, pe, e + 1, c, n) == act(items, ps, pe, e, c, n) - if c
                == elem {
                1int
            } else {
                0int
            } by {
                lemma_act_step(items, ev, ps, pe, e, c, n);
            }
            assert(0 <= ps[kk] < pe[kk]);
            assert(active(ps, pe, e, kk));
            lemma_act_bounds(items, ps, pe, e, elem as int, n);
            assert(act(items, ps, pe, e, elem as int, n) > 0);
            assert(in_keys(m0, elem as int));
        }
        let (found, idx) = find_cell(&self.cells_2, elem);
        proof {
            if !found {
                let i = choose|i: int| 0 <= i < m0.len() && (#[trigger] m0[i]).0 == elem;
                assert(false);
            }
        }
        let count = self.cells_2[idx].1;
        if count > 1 {
            // Another item still holds the cell.
            self.cells_2.set(idx, (elem, count - 1));
            proof {
                let m = self.cells_2@;
                assert(same_keys(m0, m));
                lemma_same_keys(m0, m);
                assert forall|i: int| 0 <= i < m.len() implies (#[trigger] m[i]).1 == act(items, ps, pe, e + 1, m[i].0 as int, n) && m[i].1 > 0 by {
                    if i != idx {
                        assert(m0[i].0 != elem);
                    }
                }
                assert forall|c: int| #[trigger] act(items, ps, pe, e + 1, c, n) > 0 implies in_keys(m, c) by {
                    assert(act(items, ps, pe, e, c, n) > 0);
                }
                let b = self.start_1->Some_0;
                assert forall|t: int, s: int| b <= t < end implies (#[trigger] items_has(items, p2, t, s) <==> (0 <= s
                    && in_keys(m, s / p2))) by {
                    if t >= pos {
                        lemma_keys_gap::<Q, R>(old_self, items, ev, ps, pe, e, t);
                    }
                }
            }
            None
        } else {
            // The cell leaves the sweep line.
            let prev_start = self.start_1.unwrap();
            self.start_1 = Some(end);
            let res = if prev_start != end {
                proof {
                    assert forall|i: int| 0 <= i < m0.len() implies valid_cell::<R>((self.depth_2, (#[trigger] m0[i]).0)) by {
                        let c = m0[i].0 as int;
                        lemma_act_bounds(items, ps, pe, e, c, n);
                        let k = choose|k: int| 0 <= k < n && items[k].1 == c && #[trigger] active(ps, pe, e, k);
                        assert(items_ok::<Q, R>(items, self.depth_1, self.depth_2));
                        assert(valid_cell::<R>((self.depth_2, items[k].1)));
                    }
                }
                let moc_1 = left_moc::<Q>(prev_start, end, self.depth_1);
                let moc_2 = build_moc_2::<R>(&self.cells_2, self.depth_2);
                Some(RangeMOC2Elem::new(moc_1, moc_2))
            } else {
                None
            };
            self.cells_2.remove(idx);
            if self.cells_2.len() == 0 {
                self.start_1 = None;
            }
            proof {
                lemma_remove_keys(m0, idx as int);
                let m = self.cells_2@;
                let b = prev_start;
                assert(act(items, ps, pe, e + 1, elem as int, n) == 0);
                assert forall|i: int| 0 <= i < m.len() implies (#[trigger] m[i]).1 == act(items, ps, pe, e + 1, m[i].0 as int, n) && m[i].1 > 0 by {
                    if i < idx {
                        assert(m[i] == m0[i]);
                        assert(m0[i].0 < m0[idx as int].0);
                    } else {
                        assert(m[i] == m0[i + 1]);
                        assert(m0[idx as int].0 < m0[i + 1].0);
                    }
                }
                assert forall|c: int| #[trigger] act(items, ps, pe, e + 1, c, n) > 0 implies in_keys(m, c) by {
                    assert(act(items, ps, pe, e, c, n) > 0);
                    assert(in_keys(m0, c));
                }
                if res is Some {
                    {
                        let el = res->Some_0;
                        let out2 = out.push(el);
                        lemma_elems_has2_push(out, el);
                        assert forall|t: int, s: int| #[trigger] elems_has2(out2, t, s) <==> (t < end && items_has(items, p2, t, s)) by {
                            assert(elem_has2(el, t, s) <==> (b <= t < end && (0 <= s && in_keys(m0, s / p2))));
                            if pos <= t < end {
                                lemma_keys_gap::<Q, R>(old_self, items, ev, ps, pe, e, t);
                            }
                        }
                        assert forall|i: int, j: int| 0 <= i < j < out2.len() implies (#[trigger] out2[i]).left().rs().last().end
                            <= (#[trigger] out2[j]).left().rs()[0].start by {
                            if j < out.len() {
                                assert(out[i] == out2[i] && out[j] == out2[j]);
                            } else {
                                assert(out[i] == out2[i]);
                            }
                        }
                        assert forall|i: int| 0 <= i < out2.len() implies crate::moc2d::elem_wf(#[trigger] out2[i], self.depth_1, self.depth_2) by {
                            if i < out.len() {
                                assert(out[i] == out2[i]);
                            }
                        }
                        assert forall|i: int| 0 <= i < out2.len() implies (#[trigger] out2[i]).left().rs().last().end <= end by {
                            if i < out.len() {
                                assert(out[i] == out2[i]);
                            }
                        }
                    }
                }
            }
            res
        }
    }
}

/// The 2D MOC of the items, built with a sweep line over the first quantity: the ranges of the
/// items are cut where the set of the cells of the items holding the sweep line changes.
fn buff_to_moc<Q: MocQty<u64>, R: MocQty<u64>>(items: &Vec<(Range<u64>, u64)>, depth_1: u8, depth_2: u8) -> (r:
    RangeMOC2<u64, Q, u64, R>)
    requires
        depth_1 <= Q::MAX_DEPTH,
        depth_2 <= R::MAX_DEPTH,
        items_ok::<Q, R>(items@, depth_1, depth_2),
    ensures
        r.wf(),
        r.dl() == depth_1,
        r.dr() == depth_2,
        forall|t: int, s: int| #[trigger] r.has2(t, s) <==> items_has(items@, cell_len::<R>(depth_2 as int), t, s),
{
    let ghost p2 = cell_len::<R>(depth_2 as int);
    let ghost n = items@.len() as int;
    let n_items: usize = items.len();
    assert((n_items as u64) as usize == n_items) by (bit_vector);
    let mut events = make_events(items);
    sort_events(&mut events);
    proof {
        assert(items@.len() <= u64::MAX);
        assert(items_non_empty(items@));
    }
    let ghost pp = lemma_positions(items@, events@);
    let ghost ps = pp.0;
    let ghost pe = pp.1;
    let mut builder = SweepLineMOC2ElemBuilder::new(depth_1, depth_2);
    let mut elems: Vec<RangeMOC2Elem<u64, Q, u64, R>> = Vec::new();
    let n_ev = events.len();
    proof {
        assert forall|c: int| #[trigger] act(items@, ps, pe, 0, c, n) > 0 implies in_keys(builder.cells_2@, c) by {
            lemma_act_bounds(items@, ps, pe, 0, c, n);
            let k = choose|k: int| 0 <= k < n && items@[k].1 == c && #[trigger] active(ps, pe, 0, k);
            assert(0 <= ps[k]);
        }
        assert forall|t: int, s: int| #[trigger] elems_has2(elems@, t, s) <==> (t < 0 && items_has(items@, p2, t, s)) by {
            if items_has(items@, p2, t, s) {
                let k = choose|k: int| 0 <= k < n && #[trigger] item_has(items@, p2, k, t, s);
            }
        }
    }
    let mut e: usize = 0;
    while e < n_ev
        invariant
            n_ev == events@.len(),
            e <= n_ev,
            n == items@.len(),
            builder.depth_1 == depth_1,
            builder.depth_2 == depth_2,
            ctx_ok::<Q, R>(depth_1, depth_2, items@, events@, ps, pe),
            state_ok(builder, items@, ps, pe, e as int),
            cover_ok::<Q, R>(builder, items@, events@, e as int, elems@),
        decreases n_ev - e,
    {
        let (x, kind, k) = events[e];
        proof {
            lemma_ev_coord::<Q, R>(depth_1, depth_2, items@, events@, ps, pe, e as int);
        }
        let c = items[k as usize].1;
        let opt = if kind == 1 {
            builder.add(x, c, Ghost(items@), Ghost(events@), Ghost(ps), Ghost(pe), Ghost(e as int), Ghost(elems@))
        } else {
            builder.remove(x, c, Ghost(items@), Ghost(events@), Ghost(ps), Ghost(pe), Ghost(e as int), Ghost(elems@))
        };
        match opt {
            Some(el) => elems.push(el),
            None => {},
        }
        e += 1;
    }
    proof {
        let m = builder.cells_2@;
        if m.len() > 0 {
            lemma_act_bounds(items@, ps, pe, n_ev as int, m[0].0 as int, n);
            let k = choose|k: int| 0 <= k < n && items@[k].1 == m[0].0 && #[trigger] active(ps, pe, n_ev as int, k);
            assert(pe[k] < n_ev);
        }
        let pos = pos_of(events@, n_ev as int);
        assert forall|t: int, s: int| #[trigger] elems_has2(elems@, t, s) <==> items_has(items@, p2, t, s) by {
            if t >= pos && items_has(items@, p2, t, s) {
                let k = choose|k: int| 0 <= k < n && #[trigger] item_has(items@, p2, k, t, s);
                lemma_gap(items@, events@, ps, pe, n_ev as int, t, k);
            }
        }
    }
    RangeMOC2::new(depth_1, depth_2, elems)
}

/// A 2D MOC builder: ranges of the first quantity (at its deepest resolution), each paired
/// with a cell of fixed depth of the second quantity, are pushed in any order.
pub struct RangesAndFixedDepthCellsSTMocBuilder<T, Q, U, R> {
    depth_1: u8,
    shift_1: u64,
    depth_2: u8,
    buff: Vec<(Range<T>, U)>,
    capacity: usize,
    moc: Option<RangeMOC2<T, Q, U, R>>,
}

/// Default number of items buffered before being merged into the 2D MOC.
pub const DEFAULT_RANGES_CELLS_CAPACITY: usize = 10_000;

/// `(t, s)` is covered by the range `r` of the first quantity, degraded to cells of length `p1`,
/// paired with the cell `c` (of length `p2`) of the second quantity.
pub open spec fn range_cell_has(r: Range<u64>, c: u64, p1: int, p2: int, t: int, s: int) -> bool {
    range_degraded_has(r, p1, t) && 0 <= s && s / p2 == c
}

/// One of the pairs covers `(t, s)`.
pub open spec fn ranges_cells_has(v: Seq<(Range<u64>, u64)>, p1: int, p2: int, t: int, s: int) -> bool {
    exists|k: int| 0 <= k < v.len() && #[trigger] range_cell_has(v[k].0, v[k].1, p1, p2, t, s)
}

impl<Q: MocQty<u64>, R: MocQty<u64>> RangesAndFixedDepthCellsSTMocBuilder<u64, Q, u64, R> {
    /// Depth of the first quantity.
    pub closed spec fn spec_depth_1(&self) -> u8 {
        self.depth_1
    }

    /// Depth of the second quantity.
    pub closed spec fn spec_depth_2(&self) -> u8 {
        self.depth_2
    }

    pub closed spec fn wf(&self) -> bool {
        &&& self.depth_1 <= Q::MAX_DEPTH
        &&& self.depth_2 <= R::MAX_DEPTH
        &&& self.shift_1 == (Q::MAX_DEPTH - self.depth_1) * Q::DIM
        &&& self.capacity >= 1
        &&& items_ok::<Q, R>(self.buff@, self.depth_1, self.depth_2)
        &&& self.moc matches Some(m) ==> m.wf() && m.dl() == self.depth_1 && m.dr() == self.depth_2
    }

    /// `(t, s)` (at the deepest resolutions) is in the 2D MOC being built.
    pub closed spec fn has2(&self, t: int, s: int) -> bool {
        ||| (self.moc matches Some(m) && m.has2(t, s))
        ||| items_has(self.buff@, cell_len::<R>(self.depth_2 as int), t, s)
    }

    proof fn lemma_shift(&self)
        requires
            self.wf(),
        ensures
            cell_len::<Q>(self.depth_1 as int) == pow2(self.shift_1 as nat),
            cell_len::<Q>(self.depth_1 as int) > 0,
            self.shift_1 < 63,
            Q::spec_n_cells_max() % cell_len::<Q>(self.depth_1 as int) == 0,
            Q::spec_n_cells_max() < pow2(63),
    {
        Q::lemma_qty();
        lemma_cell_len::<Q>(self.depth_1 as int, self.depth_1 as int);
        assert(self.shift_1 <= Q::MAX_SHIFT) by (nonlinear_arith)
            requires
                self.shift_1 == (Q::MAX_DEPTH - self.depth_1) * Q::DIM,
                Q::MAX_SHIFT == Q::DIM * Q::MAX_DEPTH,
                1 <= Q::DIM,
                self.depth_1 <= Q::MAX_DEPTH,
        ;
    }

    /// A builder of a 2D MOC of depths `depth_1` and `depth_2`, buffering `buf_capacity` items
    /// (10 000 by default).
    pub fn new(depth_1: u8, depth_2: u8, buf_capacity: Option<usize>) -> (r: Self)
        requires
            depth_1 <= Q::MAX_DEPTH,
            depth_2 <= R::MAX_DEPTH,
        ensures
            r.wf(),
            r.spec_depth_1() == depth_1,
            r.spec_depth_2() == depth_2,
            forall|t: int, s: int| !#[trigger] r.has2(t, s),
    {
        let shift_1 = Q::shift_from_depth_max(depth_1) as u64;
        let capacity = match buf_capacity {
            Some(c) => if c == 0 { 1 } else { c },
            None => DEFAULT_RANGES_CELLS_CAPACITY,
        };
        RangesAndFixedDepthCellsSTMocBuilder { depth_1, shift_1, depth_2, buff: Vec::new(), capacity, moc: None }
    }

    /// Adds the range `range_1` of the first quantity (degraded to `depth_1`) paired with the
    /// cell `idx_2` of depth `depth_2` of the second quantity.
    pub fn push(&mut self, range_1: Range<u64>, idx_2: u64)
        requires
            old(self).wf(),
            range_1.start < range_1.end <= Q::spec_n_cells_max(),
            valid_cell::<R>((old(self).spec_depth_2(), idx_2)),
        ensures
            final(self).wf(),
            final(self).spec_depth_1() == old(self).spec_depth_1(),
            final(self).spec_depth_2() == old(self).spec_depth_2(),
            forall|t: int, s: int| #[trigger] final(self).has2(t, s) <==> (old(self).has2(t, s) || range_cell_has(
                range_1,
                idx_2,
                cell_len::<Q>(old(self).spec_depth_1() as int),
                cell_len::<R>(old(self).spec_depth_2() as int),
                t,
                s,
            )),
    {
        let ghost old_self = *self;
        let ghost p1 = cell_len::<Q>(self.depth_1 as int);
        let ghost p2 = cell_len::<R>(self.depth_2 as int);
        let ghost b0 = self.buff@;
        proof {
            self.lemma_shift();
        }
        let nr = round_range(range_1.start, range_1.end, self.shift_1, Q::n_cells_max());
        proof {
            assert forall|t: int| range_has(nr, t) <==> #[trigger] range_degraded_has(range_1, p1, t) by {
                if 0 <= t {
                    crate::arith::lemma_round_range(range_1.start as int, range_1.end as int, p1, t);
                }
            }
        }
        let n = self.buff.len();
        if n > 0 {
            let r_start = self.buff[n - 1].0.start;
            let r_end = self.buff[n - 1].0.end;
            let h = self.buff[n - 1].1;
            if h == idx_2 && !(nr.end < r_start || r_end < nr.start) {
                // Same cell, overlapping or adjacent ranges: merged into the last item.
                let start = if nr.start < r_start { nr.start } else { r_start };
                let end = if r_end < nr.end { nr.end } else { r_end };
                self.buff.set(n - 1, (Range { start, end }, h));
                proof {
                    let b = self.buff@;
                    assert(items_ok::<Q, R>(b, self.depth_1, self.depth_2)) by {
                        assert forall|k: int| 0 <= k < b.len() implies #[trigger] b[k] == b0[k] || k == n - 1 by {}
                    }
                    assert forall|t: int, s: int| #[trigger] items_has(b, p2, t, s) <==> (items_has(b0, p2, t, s)
                        || range_cell_has(range_1, idx_2, p1, p2, t, s)) by {
                        if items_has(b, p2, t, s) {
                            let k = choose|k: int| 0 <= k < b.len() && #[trigger] item_has(b, p2, k, t, s);
                            if k == n - 1 {
                                if !range_has(nr, t) {
                                    assert(item_has(b0, p2, k, t, s));
                                }
                            } else {
                                assert(item_has(b0, p2, k, t, s));
                            }
                        }
                        if items_has(b0, p2, t, s) {
                            let k = choose|k: int| 0 <= k < b0.len() && #[trigger] item_has(b0, p2, k, t, s);
                            assert(item_has(b, p2, k, t, s));
                        }
                        if range_cell_has(range_1, idx_2, p1, p2, t, s) {
                            assert(range_has(nr, t));
                            assert(item_has(b, p2, n - 1, t, s));
                        }
                    }
                }
                return;
            }
        }
        self.buff.push((nr, idx_2));
        proof {
            let b = self.buff@;
            assert(items_ok::<Q, R>(b, self.depth_1, self.depth_2)) by {
                assert forall|k: int| 0 <= k < b.len() implies #[trigger] b[k] == b0[k] || k == n by {}
            }
            assert forall|t: int, s: int| #[trigger] items_has(b, p2, t, s) <==> (items_has(b0, p2, t, s)
                || range_cell_has(range_1, idx_2, p1, p2, t, s)) by {
                if items_has(b, p2, t, s) {
                    let k = choose|k: int| 0 <= k < b.len() && #[trigger] item_has(b, p2, k, t, s);
                    if k < n {
                        assert(item_has(b0, p2, k, t, s));
                    }
                }
                if items_has(b0, p2, t, s) {
                    let k = choose|k: int| 0 <= k < b0.len() && #[trigger] item_has(b0, p2, k, t, s);
                    assert(item_has(b, p2, k, t, s));
                }
                if range_cell_has(range_1, idx_2, p1, p2, t, s) {
                    assert(item_has(b, p2, n as int, t, s));
                }
            }
        }
        if self.buff.len() >= self.capacity {
            self.drain_buffer();
        }
    }

    /// Merges the buffered items into the 2D MOC.
    fn drain_buffer(&mut self)
        requires
            old(self).wf(),
        ensures
            final(self).wf(),
            final(self).spec_depth_1() == old(self).spec_depth_1(),
            final(self).spec_depth_2() == old(self).spec_depth_2(),
            final(self).moc is Some,
            final(self).buff@.len() == 0,
            forall|t: int, s: int| #[trigger] final(self).has2(t, s) <==> old(self).has2(t, s),
    {
        let ghost old_self = *self;
        let ghost p2 = cell_len::<R>(self.depth_2 as int);
        let mut data: Vec<(Range<u64>, u64)> = Vec::new();
        std::mem::swap(&mut data, &mut self.buff);
        let fresh = buff_to_moc::<Q, R>(&data, self.depth_1, self.depth_2);
        let merged = match &self.moc {
            Some(prev) => prev.or(&fresh),
            None => fresh,
        };
        self.moc = Some(merged);
        proof {
            assert forall|t: int, s: int| #[trigger] self.has2(t, s) <==> old_self.has2(t, s) by {
                assert(fresh.has2(t, s) <==> items_has(data@, p2, t, s));
            }
        }
    }

    /// The 2D MOC made of all the pushed items.
    pub fn into_moc(self) -> (r: RangeMOC2<u64, Q, u64, R>)
        requires
            self.wf(),
        ensures
            r.wf(),
            r.dl() == self.spec_depth_1(),
            r.dr() == self.spec_depth_2(),
            forall|t: int, s: int| #[trigger] r.has2(t, s) <==> self.has2(t, s),
    {
        let mut b = self;
        b.drain_buffer();
        proof {
            assert forall|t: int, s: int| #[trigger] b.moc->Some_0.has2(t, s) <==> self.has2(t, s) by {
                assert(b.has2(t, s) <==> self.has2(t, s));
            }
        }
        match b.moc {
            Some(m) => m,
            None => RangeMOC2::new_empty(b.depth_1, b.depth_2),
        }
    }
}

impl<Q: MocQty<u64>, R: MocQty<u64>> RangeMOC2<u64, Q, u64, R> {
    /// The 2D MOC of the given pairs made of a range of the first quantity (at its deepest
    /// resolution, degraded to `depth_1`) and a cell of depth `depth_2` of the second quantity.
    pub fn from_ranges_and_fixed_depth_cells(
        depth_1: u8,
        depth_2: u8,
        cells: Vec<(Range<u64>, u64)>,
        buf_capacity: Option<usize>,
    ) -> (r: Self)
        requires
            depth_1 <= Q::MAX_DEPTH,
            depth_2 <= R::MAX_DEPTH,
            forall|k: int|
                0 <= k < cells@.len() ==> (#[trigger] cells@[k]).0.start < cells@[k].0.end <= Q::spec_n_cells_max()
                    && valid_cell::<R>((depth_2, cells@[k].1)),
        ensures
            r.wf(),
            r.dl() == depth_1,
            r.dr() == depth_2,
            forall|t: int, s: int| #[trigger] r.has2(t, s) <==> ranges_cells_has(
                cells@,
                cell_len::<Q>(depth_1 as int),
                cell_len::<R>(depth_2 as int),
                t,
                s,
            ),
    {
        let ghost p1 = cell_len::<Q>(depth_1 as int);
        let ghost p2 = cell_len::<R>(depth_2 as int);
        let mut builder = RangesAndFixedDepthCellsSTMocBuilder::<u64, Q, u64, R>::new(depth_1, depth_2, buf_capacity);
        let n = cells.len();
        let mut i: usize = 0;
        while i < n
            invariant
                n == cells@.len(),
                i <= n,
                p1 == cell_len::<Q>(depth_1 as int),
                p2 == cell_len::<R>(depth_2 as int),
                builder.wf(),
                builder.spec_depth_1() == depth_1,
                builder.spec_depth_2() == depth_2,
                forall|k: int|
                    0 <= k < cells@.len() ==> (#[trigger] cells@[k]).0.start < cells@[k].0.end <= Q::spec_n_cells_max()
                        && valid_cell::<R>((depth_2, cells@[k].1)),
                forall|t: int, s: int| #[trigger] builder.has2(t, s) <==> ranges_cells_has(cells@.take(i as int), p1, p2, t, s),
            decreases n - i,
        {
            let r = Range { start: cells[i].0.start, end: cells[i].0.end };
            let c = cells[i].1;
            proof {
                assert(cells@[i as int].0.start < cells@[i as int].0.end);
            }
            let ghost b_old = builder;
            builder.push(r, c);
            proof {
                let t1 = cells@.take(i + 1);
                let t0 = cells@.take(i as int);
                assert(r == t1[i as int].0 && c == t1[i as int].1);
                assert forall|t: int, s: int| #[trigger] builder.has2(t, s) <==> ranges_cells_has(t1, p1, p2, t, s) by {
                    if ranges_cells_has(t1, p1, p2, t, s) {
                        let k = choose|k: int| 0 <= k < t1.len() && #[trigger] range_cell_has(t1[k].0, t1[k].1, p1, p2, t, s);
                        if k < i {
                            assert(range_cell_has(t0[k].0, t0[k].1, p1, p2, t, s));
                        }
                    }
                    if ranges_cells_has(t0, p1, p2, t, s) {
                        let k = choose|k: int| 0 <= k < t0.len() && #[trigger] range_cell_has(t0[k].0, t0[k].1, p1, p2, t, s);
                        assert(range_cell_has(t1[k].0, t1[k].1, p1, p2, t, s));
                    }
                    if range_cell_has(r, c, p1, p2, t, s) {
                        assert(range_cell_has(t1[i as int].0, t1[i as int].1, p1, p2, t, s));
                    }
                }
            }
            i += 1;
        }
        proof {
            assert(cells@.take(n as int) =~= cells@);
        }
        builder.into_moc()
    }
}

} // verus!
