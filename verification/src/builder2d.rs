//! Building a 2D MOC from pairs of cells `(first quantity, second quantity)` at two fixed
//! depths: the pairs are buffered, sorted on the first cell, and the successive first cells
//! associated with a same set of second cells are grouped into one element.

use std::ops::Range;
use vstd::arithmetic::div_mod::*;
use vstd::arithmetic::mul::*;
use vstd::prelude::*;

use crate::arith::lemma_div_char;
use crate::builder::{valid_cell, RangeMocBuilder};
use crate::moc::{cell_len, lemma_cell_len, RangeMOC};
use crate::moc2d::{elem_has2, elem_wf, elems_canonical, elems_has2, elems_wf, RangeMOC2, RangeMOC2Elem};
use crate::qty::MocQty;
use crate::ranges::{lemma_has_intro, range_has, seq_has};

verus! {

/// `(t, s)` (at the deepest resolutions) lies in the pair of cells `c` of lengths `p1`, `p2`.
pub open spec fn pair_has(c: (u64, u64), p1: int, p2: int, t: int, s: int) -> bool {
    0 <= t && 0 <= s && t / p1 == c.0 && s / p2 == c.1
}

/// `(t, s)` lies in one of the pairs of cells `v[lo..hi]`.
pub open spec fn pairs_has(v: Seq<(u64, u64)>, lo: int, hi: int, p1: int, p2: int, t: int, s: int) -> bool {
    exists|k: int| lo <= k < hi && #[trigger] pair_has(v[k], p1, p2, t, s)
}

/// The pairs are sorted on their first cell.
pub open spec fn sorted_on_first(v: Seq<(u64, u64)>) -> bool {
    forall|i: int, j: int| 0 <= i < j < v.len() ==> (#[trigger] v[i]).0 <= (#[trigger] v[j]).0
}

/// Both cells of each pair exist at the given depths.
pub open spec fn valid_pairs<Q: MocQty<u64>, R: MocQty<u64>>(v: Seq<(u64, u64)>, d1: u8, d2: u8) -> bool {
    forall|k: int| 0 <= k < v.len() ==> valid_cell::<Q>((d1, (#[trigger] v[k]).0)) && valid_cell::<R>((d2, v[k].1))
}

/// Sorts the pairs on their first cell.
/// Calls `slice::sort_unstable_by_key`, whose documentation promises that the slice ends up
/// sorted by the key and holds the same elements; nothing is promised of the order of the
/// pairs with equal keys.
#[verifier::external_body]
fn sort_on_first(v: &mut Vec<(u64, u64)>)
    ensures
        final(v)@.to_multiset() == old(v)@.to_multiset(),
        sorted_on_first(final(v)@),
{
    v.sort_unstable_by_key(|c| c.0);
}

/// A permutation of the pairs covers the same values.
proof fn lemma_pairs_permutation(a: Seq<(u64, u64)>, b: Seq<(u64, u64)>, p1: int, p2: int)
    requires
        a.to_multiset() == b.to_multiset(),
    ensures
        forall|t: int, s: int| #[trigger] pairs_has(a, 0, a.len() as int, p1, p2, t, s) <==> pairs_has(b, 0, b.len() as int, p1, p2, t, s),
        a.len() == b.len(),
{
    broadcast use vstd::seq_lib::group_to_multiset_ensures;

    assert forall|t: int, s: int| #[trigger] pairs_has(a, 0, a.len() as int, p1, p2, t, s) <==> pairs_has(b, 0, b.len() as int, p1, p2, t, s) by {
        if pairs_has(a, 0, a.len() as int, p1, p2, t, s) {
            let k = choose|k: int| 0 <= k < a.len() && #[trigger] pair_has(a[k], p1, p2, t, s);
            assert(a.contains(a[k]));
            vstd::seq_lib::to_multiset_contains(a, a[k]);
            vstd::seq_lib::to_multiset_contains(b, a[k]);
            let m = choose|m: int| 0 <= m < b.len() && b[m] == a[k];
            assert(pair_has(b[m], p1, p2, t, s));
        }
        if pairs_has(b, 0, b.len() as int, p1, p2, t, s) {
            let k = choose|k: int| 0 <= k < b.len() && #[trigger] pair_has(b[k], p1, p2, t, s);
            assert(b.contains(b[k]));
            vstd::seq_lib::to_multiset_contains(b, b[k]);
            vstd::seq_lib::to_multiset_contains(a, b[k]);
            let m = choose|m: int| 0 <= m < a.len() && a[m] == b[k];
            assert(pair_has(a[m], p1, p2, t, s));
        }
    }
    assert(a.len() == a.to_multiset().len());
}

/// A MOC holding only values in `[lo, hi[` has ranges starting at or after `lo` and ending at
/// or before `hi`.
proof fn lemma_moc_bounds<Q: MocQty<u64>>(m: RangeMOC<u64, Q>, lo: int, hi: int)
    requires
        m.wf(),
        m.rs().len() > 0,
        forall|x: int| #[trigger] m.has(x) ==> lo <= x < hi,
    ensures
        m.rs()[0].start >= lo,
        m.rs().last().end <= hi,
{
    let s = m.rs();
    lemma_has_intro(s, 0, s[0].start as int);
    assert(m.has(s[0].start as int));
    let l = s.len() - 1;
    lemma_has_intro(s, l, s[l].end - 1);
    assert(m.has(s[l].end - 1));
}

/// A MOC holding a value has ranges.
proof fn lemma_moc_non_empty<Q: MocQty<u64>>(m: RangeMOC<u64, Q>, x: int)
    requires
        m.has(x),
    ensures
        m.rs().len() > 0,
{
}

/// Pushing an element after elements whose first MOCs end before its first MOC starts.
proof fn lemma_elems_wf_push<Q: MocQty<u64>, R: MocQty<u64>>(
    es: Seq<RangeMOC2Elem<u64, Q, u64, R>>,
    e: RangeMOC2Elem<u64, Q, u64, R>,
    d1: u8,
    d2: u8,
)
    requires
        elems_wf(es, d1, d2),
        elem_wf(e, d1, d2),
        forall|i: int| 0 <= i < es.len() ==> (#[trigger] es[i]).left().rs().last().end <= e.left().rs()[0].start,
    ensures
        elems_wf(es.push(e), d1, d2),
        forall|t: int, s: int| #[trigger] elems_has2(es.push(e), t, s) <==> (elems_has2(es, t, s) || elem_has2(e, t, s)),
{
    let es2 = es.push(e);
    assert forall|i: int, j: int| 0 <= i < j < es2.len() implies (#[trigger] es2[i]).left().rs().last().end <= (
    #[trigger] es2[j]).left().rs()[0].start by {
        if j < es.len() {
            assert(es[i].left().rs().last().end <= es[j].left().rs()[0].start);
        }
    }
    assert forall|i: int| 0 <= i < es2.len() implies elem_wf(#[trigger] es2[i], d1, d2) by {
        if i < es.len() {
            assert(elem_wf(es[i], d1, d2));
        }
    }
    assert forall|t: int, s: int| #[trigger] elems_has2(es2, t, s) <==> (elems_has2(es, t, s) || elem_has2(e, t, s)) by {
        if elems_has2(es2, t, s) {
            let i = choose|i: int| 0 <= i < es2.len() && #[trigger] elem_has2(es2[i], t, s);
            if i < es.len() {
                assert(elem_has2(es[i], t, s));
            }
        }
        if elems_has2(es, t, s) {
            let i = choose|i: int| 0 <= i < es.len() && #[trigger] elem_has2(es[i], t, s);
            assert(elem_has2(es2[i], t, s));
        }
        if elem_has2(e, t, s) {
            assert(elem_has2(es2[es.len() as int], t, s));
        }
    }
}

/// The cells of the first quantity of the pairs `v[lo..hi]` lie between the first cells of
/// `v[lo]` and `v[hi - 1]`.
proof fn lemma_first_cells_bounds(v: Seq<(u64, u64)>, lo: int, hi: int, p1: int, t: int)
    requires
        sorted_on_first(v),
        0 <= lo < hi <= v.len(),
        p1 > 0,
        0 <= t,
        exists|k: int| lo <= k < hi && #[trigger] v[k].0 == t / p1,
    ensures
        v[lo].0 * p1 <= t < (v[hi - 1].0 + 1) * p1,
{
    let k = choose|k: int| lo <= k < hi && #[trigger] v[k].0 == t / p1;
    lemma_div_char(t, p1, t / p1);
    lemma_mul_inequality(v[lo].0 as int, t / p1, p1);
    lemma_mul_inequality(t / p1 + 1, v[hi - 1].0 + 1, p1);
    lemma_mul_is_distributive_add_other_way(p1, t / p1, 1);
    lemma_mul_is_commutative(p1, t / p1);
}

/// The 2D MOC of the pairs of cells of `v`, sorted on the first cell: the successive first
/// cells whose sets of second cells are equal are grouped into one element.
fn buff_to_moc<Q: MocQty<u64>, R: MocQty<u64>>(v: &Vec<(u64, u64)>, depth_1: u8, depth_2: u8) -> (r: RangeMOC2<
    u64,
    Q,
    u64,
    R,
>)
    requires
        depth_1 <= Q::MAX_DEPTH,
        depth_2 <= R::MAX_DEPTH,
        sorted_on_first(v@),
        valid_pairs::<Q, R>(v@, depth_1, depth_2),
    ensures
        r.wf(),
        r.is_canonical(),
        r.dl() == depth_1,
        r.dr() == depth_2,
        forall|t: int, s: int| #[trigger] r.has2(t, s) <==> pairs_has(
            v@,
            0,
            v@.len() as int,
            cell_len::<Q>(depth_1 as int),
            cell_len::<R>(depth_2 as int),
            t,
            s,
        ),
{
    let ghost p1 = cell_len::<Q>(depth_1 as int);
    let ghost p2 = cell_len::<R>(depth_2 as int);
    proof {
        lemma_cell_len::<Q>(depth_1 as int, depth_1 as int);
        lemma_cell_len::<R>(depth_2 as int, depth_2 as int);
    }
    let mut es: Vec<RangeMOC2Elem<u64, Q, u64, R>> = Vec::new();
    let n = v.len();
    if n == 0 {
        return RangeMOC2::new(depth_1, depth_2, es);
    }
    assert(valid_cell::<Q>((depth_1, v@[0].0)) && valid_cell::<R>((depth_2, v@[0].1)));
    let mut from_1 = v[0].0;
    let mut b1 = RangeMocBuilder::<u64, Q>::new(depth_1, Some(64));
    b1.push_cell(from_1);
    let mut b2 = RangeMocBuilder::<u64, R>::new(depth_2, Some(1000));
    b2.push_cell(v[0].1);
    let mut prev: Option<RangeMOC<u64, R>> = None;
    let ghost mut g: int = 0;
    let ghost mut a: int = 0;
    let mut j: usize = 1;
    while j < n
        invariant
            n == v@.len(),
            1 <= j <= n,
            sorted_on_first(v@),
            valid_pairs::<Q, R>(v@, depth_1, depth_2),
            depth_1 <= Q::MAX_DEPTH,
            depth_2 <= R::MAX_DEPTH,
            p1 == cell_len::<Q>(depth_1 as int),
            p2 == cell_len::<R>(depth_2 as int),
            p1 > 0,
            p2 > 0,
            0 <= g <= a < j,
            from_1 == v@[a].0,
            forall|k: int| a <= k < j ==> (#[trigger] v@[k]).0 == from_1,
            a > 0 ==> v@[a - 1].0 < from_1,
            b2.wf(),
            b2.spec_depth() == depth_2,
            b2.p() == p2,
            forall|s: int| #[trigger] b2.has(s) <==> (0 <= s && exists|k: int| a <= k < j && #[trigger] v@[k].1 == s / p2),
            b1.wf(),
            b1.spec_depth() == depth_1,
            b1.p() == p1,
            prev is None ==> es@.len() == 0 && g == 0 && a == 0 && forall|t: int| #[trigger] b1.has(t) <==> (0 <= t && t / p1 == from_1),
            prev matches Some(pm) ==> {
                &&& g < a
                &&& pm.wf()
                &&& pm.depth() == depth_2
                &&& pm.rs().len() > 0
                &&& forall|t: int| #[trigger] b1.has(t) <==> (0 <= t && exists|k: int| g <= k < a && #[trigger] v@[k].0 == t / p1)
                &&& forall|t: int, s: int| #[trigger] pairs_has(v@, g, a, p1, p2, t, s) <==> (b1.has(t) && pm.has(s))
            },
            elems_wf(es@, depth_1, depth_2),
            elems_canonical(es@),
            prev matches Some(pm) ==> (es@.len() > 0 ==> es@.last().right().rs() != pm.rs()),
            forall|t: int, s: int| #[trigger] elems_has2(es@, t, s) <==> pairs_has(v@, 0, g, p1, p2, t, s),
            forall|i: int| 0 <= i < es@.len() ==> (#[trigger] es@[i]).left().rs().last().end <= v@[g].0 * p1,
        decreases n - j,
    {
        let c1 = v[j].0;
        let c2 = v[j].1;
        proof {
            assert(valid_cell::<Q>((depth_1, v@[j as int].0)) && valid_cell::<R>((depth_2, v@[j as int].1)));
            assert(v@[j - 1].0 <= v@[j as int].0);
        }
        if c1 == from_1 {
            b2.push_cell(c2);
            proof {
                assert forall|s: int| #[trigger] b2.has(s) <==> (0 <= s && exists|k: int| a <= k < j + 1 && #[trigger] v@[k].1 == s / p2) by {
                    if 0 <= s && s / p2 == c2 {
                        assert(v@[j as int].1 == s / p2);
                    }
                }
            }
        } else {
            let ghost es0 = es@;
            let ghost b1_0 = b1;
            let moc_2 = b2.into_moc();
            proof {
                // The group `[a, j[` of the first cell `from_1`.
                assert(v@[a].1 as int * p2 >= 0) by { lemma_mul_nonnegative(v@[a].1 as int, p2); }
                lemma_div_char(v@[a].1 * p2, p2, v@[a].1 as int);
                lemma_mul_is_commutative(p2, v@[a].1 as int);
                assert(moc_2.has(v@[a].1 * p2));
                lemma_moc_non_empty(moc_2, v@[a].1 * p2);
                assert forall|t: int, s: int| #[trigger] pairs_has(v@, a, j as int, p1, p2, t, s) <==> ((0 <= t && t / p1
                    == from_1) && moc_2.has(s)) by {
                    if pairs_has(v@, a, j as int, p1, p2, t, s) {
                        let k = choose|k: int| a <= k < j && #[trigger] pair_has(v@[k], p1, p2, t, s);
                        assert(v@[k].1 == s / p2);
                    }
                    if (0 <= t && t / p1 == from_1) && moc_2.has(s) {
                        let k = choose|k: int| a <= k < j && #[trigger] v@[k].1 == s / p2;
                        assert(pair_has(v@[k], p1, p2, t, s));
                    }
                }
            }
            match prev {
                None => {
                    prev = Some(moc_2);
                    proof {
                        assert forall|t: int| #[trigger] b1.has(t) <==> (0 <= t && exists|k: int| g <= k < j && #[trigger] v@[k].0 == t / p1) by {
                            if 0 <= t && t / p1 == from_1 {
                                assert(v@[0].0 == t / p1);
                            }
                        }
                    }
                },
                Some(pm) => {
                    if moc_2.eq_without_depth(&pm) {
                        // Same set of second cells: the first cell joins the pending group.
                        b1.push_cell(from_1);
                        prev = Some(pm);
                        proof {
                            assert forall|s: int| #[trigger] moc_2.has(s) <==> pm.has(s) by {}
                            assert forall|t: int| #[trigger] b1.has(t) <==> (0 <= t && exists|k: int| g <= k < j && #[trigger] v@[k].0 == t / p1) by {
                                if 0 <= t && t / p1 == from_1 {
                                    assert(v@[a].0 == t / p1);
                                }
                                if 0 <= t && exists|k: int| g <= k < j && #[trigger] v@[k].0 == t / p1 {
                                    let k = choose|k: int| g <= k < j && #[trigger] v@[k].0 == t / p1;
                                    if k < a {
                                        assert(b1_0.has(t));
                                    }
                                }
                            }
                            assert forall|t: int, s: int| #[trigger] pairs_has(v@, g, j as int, p1, p2, t, s) <==> (b1.has(t)
                                && pm.has(s)) by {
                                if pairs_has(v@, g, j as int, p1, p2, t, s) {
                                    let k = choose|k: int| g <= k < j && #[trigger] pair_has(v@[k], p1, p2, t, s);
                                    if k < a {
                                        assert(pairs_has(v@, g, a, p1, p2, t, s));
                                    } else {
                                        assert(pairs_has(v@, a, j as int, p1, p2, t, s));
                                    }
                                }
                                if b1.has(t) && pm.has(s) {
                                    if b1_0.has(t) {
                                        assert(pairs_has(v@, g, a, p1, p2, t, s));
                                        let k = choose|k: int| g <= k < a && #[trigger] pair_has(v@[k], p1, p2, t, s);
                                        assert(pair_has(v@[k], p1, p2, t, s));
                                    } else {
                                        assert(moc_2.has(s));
                                        assert(pairs_has(v@, a, j as int, p1, p2, t, s));
                                        let k = choose|k: int| a <= k < j && #[trigger] pair_has(v@[k], p1, p2, t, s);
                                        assert(pair_has(v@[k], p1, p2, t, s));
                                    }
                                }
                            }
                        }
                    } else {
                        // A new set of second cells: the pending group becomes an element.
                        let m1 = b1.into_moc();
                        proof {
                            assert(m1.has(v@[g].0 * p1)) by {
                                lemma_mul_nonnegative(v@[g].0 as int, p1);
                                lemma_div_char(v@[g].0 * p1, p1, v@[g].0 as int);
                                lemma_mul_is_commutative(p1, v@[g].0 as int);
                                assert(v@[g].0 == (v@[g].0 * p1) / p1);
                            }
                            lemma_moc_non_empty(m1, v@[g].0 * p1);
                            assert(v@[a - 1].0 + 1 <= v@[a].0);
                            lemma_mul_inequality(v@[a - 1].0 + 1, v@[a].0 as int, p1);
                            assert forall|t: int| #[trigger] m1.has(t) implies v@[g].0 * p1 <= t < v@[a].0 * p1 by {
                                lemma_first_cells_bounds(v@, g, a, p1, t);
                            }
                            lemma_moc_bounds(m1, v@[g].0 * p1, v@[a].0 * p1);
                        }
                        let e = RangeMOC2Elem::new(m1, pm);
                        proof {
                            lemma_elems_wf_push(es@, e, depth_1, depth_2);
                        }
                        es.push(e);
                        prev = Some(moc_2);
                        b1 = RangeMocBuilder::<u64, Q>::new(depth_1, Some(64));
                        b1.push_cell(from_1);
                        proof {
                            assert forall|t: int, s: int| #[trigger] elems_has2(es@, t, s) <==> pairs_has(v@, 0, a, p1, p2, t, s) by {
                                assert(elem_has2(e, t, s) <==> (m1.has(t) && pm.has(s)));
                                if pairs_has(v@, 0, a, p1, p2, t, s) {
                                    let k = choose|k: int| 0 <= k < a && #[trigger] pair_has(v@[k], p1, p2, t, s);
                                    if k < g {
                                        assert(pairs_has(v@, 0, g, p1, p2, t, s));
                                    } else {
                                        assert(pairs_has(v@, g, a, p1, p2, t, s));
                                    }
                                }
                                if pairs_has(v@, 0, g, p1, p2, t, s) {
                                    let k = choose|k: int| 0 <= k < g && #[trigger] pair_has(v@[k], p1, p2, t, s);
                                    assert(pair_has(v@[k], p1, p2, t, s));
                                }
                                if pairs_has(v@, g, a, p1, p2, t, s) {
                                    let k = choose|k: int| g <= k < a && #[trigger] pair_has(v@[k], p1, p2, t, s);
                                    assert(pair_has(v@[k], p1, p2, t, s));
                                }
                            }
                            assert forall|i: int| 0 <= i < es@.len() implies (#[trigger] es@[i]).left().rs().last().end <= v@[a].0
                                * p1 by {
                                if i < es0.len() {
                                    assert(es0[i].left().rs().last().end <= v@[g].0 * p1);
                                    lemma_mul_inequality(v@[g].0 as int, v@[a].0 as int, p1);
                                }
                            }
                            assert forall|t: int| #[trigger] b1.has(t) <==> (0 <= t && exists|k: int| a <= k < j && #[trigger] v@[k].0 == t / p1) by {
                                if 0 <= t && t / p1 == from_1 {
                                    assert(v@[a].0 == t / p1);
                                }
                            }
                        }
                        proof {
                            g = a;
                        }
                    }
                },
            }
            proof {
                a = j as int;
            }
            b2 = RangeMocBuilder::<u64, R>::new(depth_2, Some(1000));
            b2.push_cell(c2);
            from_1 = c1;
            proof {
                assert forall|s: int| #[trigger] b2.has(s) <==> (0 <= s && exists|k: int| a <= k < j + 1 && #[trigger] v@[k].1 == s / p2) by {
                    if 0 <= s && s / p2 == c2 {
                        assert(v@[j as int].1 == s / p2);
                    }
                }
            }
        }
        j = j + 1;
    }
    // The last group `[a, n[`.
    let ghost es0 = es@;
    let moc_2 = b2.into_moc();
    proof {
        assert(v@[a].1 as int * p2 >= 0) by { lemma_mul_nonnegative(v@[a].1 as int, p2); }
        lemma_div_char(v@[a].1 * p2, p2, v@[a].1 as int);
        lemma_mul_is_commutative(p2, v@[a].1 as int);
        assert(moc_2.has(v@[a].1 * p2));
        lemma_moc_non_empty(moc_2, v@[a].1 * p2);
        assert forall|t: int, s: int| #[trigger] pairs_has(v@, a, n as int, p1, p2, t, s) <==> ((0 <= t && t / p1 == from_1)
            && moc_2.has(s)) by {
            if pairs_has(v@, a, n as int, p1, p2, t, s) {
                let k = choose|k: int| a <= k < n && #[trigger] pair_has(v@[k], p1, p2, t, s);
                assert(v@[k].1 == s / p2);
            }
            if (0 <= t && t / p1 == from_1) && moc_2.has(s) {
                let k = choose|k: int| a <= k < n && #[trigger] v@[k].1 == s / p2;
                assert(pair_has(v@[k], p1, p2, t, s));
            }
        }
        // Bounds of the cells of the group.
        lemma_mul_nonnegative(from_1 as int, p1);
        lemma_mul_is_distributive_add_other_way(p1, from_1 as int, 1);
        lemma_mul_is_commutative(p1, from_1 as int);
    }
    match prev {
        None => {
            let m1 = b1.into_moc();
            proof {
                assert(m1.has(from_1 * p1)) by {
                    lemma_div_char(from_1 * p1, p1, from_1 as int);
                }
                lemma_moc_non_empty(m1, from_1 * p1);
            }
            let e = RangeMOC2Elem::new(m1, moc_2);
            proof {
                lemma_elems_wf_push(es@, e, depth_1, depth_2);
            }
            es.push(e);
            proof {
                assert forall|t: int, s: int| #[trigger] elems_has2(es@, t, s) <==> pairs_has(v@, 0, n as int, p1, p2, t, s) by {
                    assert(elem_has2(e, t, s) <==> (m1.has(t) && moc_2.has(s)));
                }
            }
        },
        Some(pm) => {
            if moc_2.eq_without_depth(&pm) {
                let ghost b1_0 = b1;
                b1.push_cell(from_1);
                let m1 = b1.into_moc();
                proof {
                    assert forall|s: int| #[trigger] moc_2.has(s) <==> pm.has(s) by {}
                    assert(m1.has(from_1 * p1)) by {
                        lemma_div_char(from_1 * p1, p1, from_1 as int);
                    }
                    lemma_moc_non_empty(m1, from_1 * p1);
                    assert forall|t: int| #[trigger] m1.has(t) implies v@[g].0 * p1 <= t by {
                        if b1_0.has(t) {
                            lemma_first_cells_bounds(v@, g, a, p1, t);
                        } else {
                            assert(v@[g].0 <= v@[a].0);
                            lemma_mul_inequality(v@[g].0 as int, v@[a].0 as int, p1);
                            lemma_div_char(t, p1, from_1 as int);
                        }
                    }
                    lemma_moc_bounds(m1, v@[g].0 * p1, m1.rs().last().end as int + 1);
                }
                let e = RangeMOC2Elem::new(m1, moc_2);
                proof {
                    lemma_elems_wf_push(es@, e, depth_1, depth_2);
                }
                es.push(e);
                proof {
                    assert forall|t: int, s: int| #[trigger] elems_has2(es@, t, s) <==> pairs_has(v@, 0, n as int, p1, p2, t, s) by {
                        assert(elem_has2(e, t, s) <==> (m1.has(t) && moc_2.has(s)));
                        if pairs_has(v@, 0, n as int, p1, p2, t, s) {
                            let k = choose|k: int| 0 <= k < n && #[trigger] pair_has(v@[k], p1, p2, t, s);
                            if k < g {
                                assert(pairs_has(v@, 0, g, p1, p2, t, s));
                            } else if k < a {
                                assert(pairs_has(v@, g, a, p1, p2, t, s));
                            } else {
                                assert(pairs_has(v@, a, n as int, p1, p2, t, s));
                            }
                        }
                        if pairs_has(v@, 0, g, p1, p2, t, s) {
                            let k = choose|k: int| 0 <= k < g && #[trigger] pair_has(v@[k], p1, p2, t, s);
                            assert(pair_has(v@[k], p1, p2, t, s));
                        }
                        if m1.has(t) && moc_2.has(s) {
                            if b1_0.has(t) {
                                assert(pairs_has(v@, g, a, p1, p2, t, s));
                                let k = choose|k: int| g <= k < a && #[trigger] pair_has(v@[k], p1, p2, t, s);
                                assert(pair_has(v@[k], p1, p2, t, s));
                            } else {
                                assert(pairs_has(v@, a, n as int, p1, p2, t, s));
                                let k = choose|k: int| a <= k < n && #[trigger] pair_has(v@[k], p1, p2, t, s);
                                assert(pair_has(v@[k], p1, p2, t, s));
                            }
                        }
                    }
                }
            } else {
                let m1 = b1.into_moc();
                proof {
                    assert(m1.has(v@[g].0 * p1)) by {
                        lemma_mul_nonnegative(v@[g].0 as int, p1);
                        lemma_div_char(v@[g].0 * p1, p1, v@[g].0 as int);
                        lemma_mul_is_commutative(p1, v@[g].0 as int);
                    }
                    lemma_moc_non_empty(m1, v@[g].0 * p1);
                    assert(v@[a - 1].0 + 1 <= v@[a].0);
                    lemma_mul_inequality(v@[a - 1].0 + 1, v@[a].0 as int, p1);
                    assert forall|t: int| #[trigger] m1.has(t) implies v@[g].0 * p1 <= t < v@[a].0 * p1 by {
                        lemma_first_cells_bounds(v@, g, a, p1, t);
                    }
                    lemma_moc_bounds(m1, v@[g].0 * p1, v@[a].0 * p1);
                }
                let e1 = RangeMOC2Elem::new(m1, pm);
                proof {
                    lemma_elems_wf_push(es@, e1, depth_1, depth_2);
                }
                es.push(e1);
                let mut nb1 = RangeMocBuilder::<u64, Q>::new(depth_1, Some(64));
                nb1.push_cell(from_1);
                let m1b = nb1.into_moc();
                proof {
                    assert(m1b.has(from_1 * p1)) by {
                        lemma_div_char(from_1 * p1, p1, from_1 as int);
                    }
                    lemma_moc_non_empty(m1b, from_1 * p1);
                    assert forall|t: int| #[trigger] m1b.has(t) implies from_1 * p1 <= t < from_1 * p1 + p1 by {
                        lemma_div_char(t, p1, from_1 as int);
                    }
                    lemma_moc_bounds(m1b, from_1 * p1, from_1 * p1 + p1);
                    assert forall|i: int| 0 <= i < es@.len() implies (#[trigger] es@[i]).left().rs().last().end
                        <= m1b.rs()[0].start by {
                        if i < es0.len() {
                            assert(es0[i].left().rs().last().end <= v@[g].0 * p1);
                            lemma_mul_inequality(v@[g].0 as int, v@[a].0 as int, p1);
                        }
                    }
                }
                let e2 = RangeMOC2Elem::new(m1b, moc_2);
                proof {
                    lemma_elems_wf_push(es@, e2, depth_1, depth_2);
                }
                es.push(e2);
                proof {
                    assert forall|t: int, s: int| #[trigger] elems_has2(es@, t, s) <==> pairs_has(v@, 0, n as int, p1, p2, t, s) by {
                        assert(elem_has2(e1, t, s) <==> (m1.has(t) && pm.has(s)));
                        assert(elem_has2(e2, t, s) <==> (m1b.has(t) && moc_2.has(s)));
                        if pairs_has(v@, 0, n as int, p1, p2, t, s) {
                            let k = choose|k: int| 0 <= k < n && #[trigger] pair_has(v@[k], p1, p2, t, s);
                            if k < g {
                                assert(pairs_has(v@, 0, g, p1, p2, t, s));
                            } else if k < a {
                                assert(pairs_has(v@, g, a, p1, p2, t, s));
                            } else {
                                assert(pairs_has(v@, a, n as int, p1, p2, t, s));
                            }
                        }
                        if pairs_has(v@, 0, g, p1, p2, t, s) {
                            let k = choose|k: int| 0 <= k < g && #[trigger] pair_has(v@[k], p1, p2, t, s);
                            assert(pair_has(v@[k], p1, p2, t, s));
                        }
                        if pairs_has(v@, g, a, p1, p2, t, s) {
                            let k = choose|k: int| g <= k < a && #[trigger] pair_has(v@[k], p1, p2, t, s);
                            assert(pair_has(v@[k], p1, p2, t, s));
                        }
                        if pairs_has(v@, a, n as int, p1, p2, t, s) {
                            let k = choose|k: int| a <= k < n && #[trigger] pair_has(v@[k], p1, p2, t, s);
                            assert(pair_has(v@[k], p1, p2, t, s));
                        }
                    }
                }
            }
        },
    }
    RangeMOC2::new(depth_1, depth_2, es)
}

/// A 2D MOC builder: pairs of cells `(first quantity, second quantity)` at fixed depths are
/// pushed in any order.
pub struct FixedDepth2DMocBuilder<T, Q, U, R> {
    depth_1: u8,
    depth_2: u8,
    buff: Vec<(T, U)>,
    capacity: usize,
    sorted: bool,
    moc: Option<RangeMOC2<T, Q, U, R>>,
}

impl<Q: MocQty<u64>, R: MocQty<u64>> FixedDepth2DMocBuilder<u64, Q, u64, R> {
    /// Depth of the first quantity.
    pub closed spec fn spec_depth_1(&self) -> u8 {
        self.depth_1
    }

    /// Depth of the second quantity.
    pub closed spec fn spec_depth_2(&self) -> u8 {
        self.depth_2
    }

    pub closed spec fn wf(&self) -> bool {
        &&& self.depth_1 <= Q::MAX_DEPTH
        &&& self.depth_2 <= R::MAX_DEPTH
        &&& self.capacity >= 1
        &&& valid_pairs::<Q, R>(self.buff@, self.depth_1, self.depth_2)
        &&& self.sorted ==> sorted_on_first(self.buff@)
        &&& self.moc matches Some(m) ==> m.wf() && m.is_canonical() && m.dl() == self.depth_1 && m.dr() == self.depth_2
    }

    /// `(t, s)` (at the deepest resolutions) is in the 2D MOC being built.
    pub closed spec fn has2(&self, t: int, s: int) -> bool {
        ||| (self.moc matches Some(m) && m.has2(t, s))
        ||| pairs_has(
            self.buff@,
            0,
            self.buff@.len() as int,
            cell_len::<Q>(self.depth_1 as int),
            cell_len::<R>(self.depth_2 as int),
            t,
            s,
        )
    }

    /// A builder of a 2D MOC of depths `depth_1` and `depth_2`, buffering `buf_capacity` pairs
    /// (100 000 by default).
    pub fn new(depth_1: u8, depth_2: u8, buf_capacity: Option<usize>) -> (r: Self)
        requires
            depth_1 <= Q::MAX_DEPTH,
            depth_2 <= R::MAX_DEPTH,
        ensures
            r.wf(),
            r.spec_depth_1() == depth_1,
            r.spec_depth_2() == depth_2,
            forall|t: int, s: int| !#[trigger] r.has2(t, s),
    {
        let capacity = match buf_capacity {
            Some(c) => if c == 0 { 1 } else { c },
            None => crate::builder::DEFAULT_BUFFER_CAPACITY,
        };
        FixedDepth2DMocBuilder { depth_1, depth_2, buff: Vec::new(), capacity, sorted: true, moc: None }
    }

    /// Adds the pair made of the cell `idx_1` of depth `depth_1` and of the cell `idx_2` of
    /// depth `depth_2`.
    pub fn push(&mut self, idx_1: u64, idx_2: u64)
        requires
            old(self).wf(),
            valid_cell::<Q>((old(self).spec_depth_1(), idx_1)),
            valid_cell::<R>((old(self).spec_depth_2(), idx_2)),
        ensures
            final(self).wf(),
            final(self).spec_depth_1() == old(self).spec_depth_1(),
            final(self).spec_depth_2() == old(self).spec_depth_2(),
            forall|t: int, s: int| #[trigger] final(self).has2(t, s) <==> (old(self).has2(t, s) || pair_has(
                (idx_1, idx_2),
                cell_len::<Q>(old(self).spec_depth_1() as int),
                cell_len::<R>(old(self).spec_depth_2() as int),
                t,
                s,
            )),
    {
        let ghost b0 = self.buff@;
        let ghost p1 = cell_len::<Q>(self.depth_1 as int);
        let ghost p2 = cell_len::<R>(self.depth_2 as int);
        let n = self.buff.len();
        if n > 0 {
            let (h1, h2) = self.buff[n - 1];
            if h1 == idx_1 && h2 == idx_2 {
                proof {
                    assert forall|t: int, s: int| #[trigger] pair_has((idx_1, idx_2), p1, p2, t, s) implies pairs_has(b0, 0, b0.len() as int, p1, p2, t, s) by {
                        assert(pair_has(b0[n - 1], p1, p2, t, s));
                    }
                }
                return;
            } else if self.sorted && h1 > idx_1 {
                self.sorted = false;
            }
        }
        self.buff.push((idx_1, idx_2));
        proof {
            let b = self.buff@;
            assert forall|t: int, s: int| #[trigger] pairs_has(b, 0, b.len() as int, p1, p2, t, s) <==> (pairs_has(b0, 0, b0.len() as int, p1, p2, t, s) || pair_has((idx_1, idx_2), p1, p2, t, s)) by {
                if pairs_has(b, 0, b.len() as int, p1, p2, t, s) {
                    let k = choose|k: int| 0 <= k < b.len() && #[trigger] pair_has(b[k], p1, p2, t, s);
                    if k < n {
                        assert(pair_has(b0[k], p1, p2, t, s));
                    }
                }
                if pairs_has(b0, 0, b0.len() as int, p1, p2, t, s) {
                    let k = choose|k: int| 0 <= k < b0.len() && #[trigger] pair_has(b0[k], p1, p2, t, s);
                    assert(pair_has(b[k], p1, p2, t, s));
                }
                if pair_has((idx_1, idx_2), p1, p2, t, s) {
                    assert(pair_has(b[n as int], p1, p2, t, s));
                }
            }
            if self.sorted {
                assert forall|i: int, j: int| 0 <= i < j < b.len() implies (#[trigger] b[i]).0 <= (#[trigger] b[j]).0 by {
                    if j == n && i < n - 1 {
                        assert(b0[i].0 <= b0[n - 1].0);
                    }
                }
            }
        }
        if self.buff.len() >= self.capacity {
            self.drain_buffer();
        }
    }

    /// Merges the buffered pairs into the 2D MOC.
    fn drain_buffer(&mut self)
        requires
            old(self).wf(),
        ensures
            final(self).wf(),
            final(self).spec_depth_1() == old(self).spec_depth_1(),
            final(self).spec_depth_2() == old(self).spec_depth_2(),
            final(self).moc is Some,
            final(self).buff@.len() == 0,
            forall|t: int, s: int| #[trigger] final(self).has2(t, s) <==> old(self).has2(t, s),
    {
        let ghost old_self = *self;
        let ghost p1 = cell_len::<Q>(self.depth_1 as int);
        let ghost p2 = cell_len::<R>(self.depth_2 as int);
        let mut data: Vec<(u64, u64)> = Vec::new();
        std::mem::swap(&mut data, &mut self.buff);
        let ghost d0 = data@;
        if !self.sorted {
            sort_on_first(&mut data);
            proof {
                lemma_pairs_permutation(d0, data@, p1, p2);
                broadcast use vstd::seq_lib::group_to_multiset_ensures;
                assert forall|k: int| 0 <= k < data@.len() implies valid_cell::<Q>((self.depth_1, (#[trigger] data@[k]).0))
                    && valid_cell::<R>((self.depth_2, data@[k].1)) by {
                    assert(data@.contains(data@[k]));
                    vstd::seq_lib::to_multiset_contains(data@, data@[k]);
                    vstd::seq_lib::to_multiset_contains(d0, data@[k]);
                    let m = choose|m: int| 0 <= m < d0.len() && d0[m] == data@[k];
                    assert(valid_cell::<Q>((self.depth_1, d0[m].0)));
                }
            }
        }
        let fresh = buff_to_moc::<Q, R>(&data, self.depth_1, self.depth_2);
        let merged = match &self.moc {
            Some(prev) => prev.or(&fresh),
            None => fresh,
        };
        self.moc = Some(merged);
        self.sorted = true;
        proof {
            assert forall|t: int, s: int| #[trigger] self.has2(t, s) <==> old_self.has2(t, s) by {
                assert(fresh.has2(t, s) <==> pairs_has(data@, 0, data@.len() as int, p1, p2, t, s));
                assert(pairs_has(data@, 0, data@.len() as int, p1, p2, t, s) <==> pairs_has(d0, 0, d0.len() as int, p1, p2, t, s));
            }
        }
    }

    /// The 2D MOC made of all the pushed pairs.
    pub fn into_moc(self) -> (r: RangeMOC2<u64, Q, u64, R>)
        requires
            self.wf(),
        ensures
            r.wf(),
            r.is_canonical(),
            r.dl() == self.spec_depth_1(),
            r.dr() == self.spec_depth_2(),
            forall|t: int, s: int| #[trigger] r.has2(t, s) <==> self.has2(t, s),
    {
        let mut b = self;
        b.drain_buffer();
        proof {
            assert forall|t: int, s: int| #[trigger] b.moc->Some_0.has2(t, s) <==> self.has2(t, s) by {
                assert(b.has2(t, s) <==> self.has2(t, s));
            }
        }
        match b.moc {
            Some(m) => m,
            None => RangeMOC2::new_empty(b.depth_1, b.depth_2),
        }
    }
}

impl<Q: MocQty<u64>, R: MocQty<u64>> RangeMOC2<u64, Q, u64, R> {
    /// The 2D MOC of the given pairs of cells of depths `depth_1` and `depth_2`.
    pub fn from_fixed_depth_cells(depth_1: u8, depth_2: u8, cells: Vec<(u64, u64)>, buf_capacity: Option<usize>) -> (r: Self)
        requires
            depth_1 <= Q::MAX_DEPTH,
            depth_2 <= R::MAX_DEPTH,
            valid_pairs::<Q, R>(cells@, depth_1, depth_2),
        ensures
            r.wf(),
            r.is_canonical(),
            r.dl() == depth_1,
            r.dr() == depth_2,
            forall|t: int, s: int| #[trigger] r.has2(t, s) <==> pairs_has(
                cells@,
                0,
                cells@.len() as int,
                cell_len::<Q>(depth_1 as int),
                cell_len::<R>(depth_2 as int),
                t,
                s,
            ),
    {
        let ghost p1 = cell_len::<Q>(depth_1 as int);
        let ghost p2 = cell_len::<R>(depth_2 as int);
        let mut builder = FixedDepth2DMocBuilder::<u64, Q, u64, R>::new(depth_1, depth_2, buf_capacity);
        let n = cells.len();
        let mut i: usize = 0;
        while i < n
            invariant
                n == cells@.len(),
                i <= n,
                valid_pairs::<Q, R>(cells@, depth_1, depth_2),
                builder.wf(),
                builder.spec_depth_1() == depth_1,
                builder.spec_depth_2() == depth_2,
                p1 == cell_len::<Q>(depth_1 as int),
                p2 == cell_len::<R>(depth_2 as int),
                forall|t: int, s: int| #[trigger] builder.has2(t, s) <==> pairs_has(cells@, 0, i as int, p1, p2, t, s),
            decreases n - i,
        {
            let (c1, c2) = cells[i];
            proof {
                assert(valid_cell::<Q>((depth_1, cells@[i as int].0)) && valid_cell::<R>((depth_2, cells@[i as int].1)));
            }
            let ghost b_old = builder;
            builder.push(c1, c2);
            proof {
                assert forall|t: int, s: int| #[trigger] builder.has2(t, s) <==> pairs_has(cells@, 0, i + 1, p1, p2, t, s) by {
                    assert(builder.has2(t, s) <==> (b_old.has2(t, s) || pair_has((c1, c2), p1, p2, t, s)));
                    assert(b_old.has2(t, s) <==> pairs_has(cells@, 0, i as int, p1, p2, t, s));
                    if pairs_has(cells@, 0, i + 1, p1, p2, t, s) {
                        let k = choose|k: int| 0 <= k < i + 1 && #[trigger] pair_has(cells@[k], p1, p2, t, s);
                        if k < i {
                            assert(pairs_has(cells@, 0, i as int, p1, p2, t, s));
                        }
                    }
                    if pairs_has(cells@, 0, i as int, p1, p2, t, s) {
                        let k = choose|k: int| 0 <= k < i && #[trigger] pair_has(cells@[k], p1, p2, t, s);
                        assert(pair_has(cells@[k], p1, p2, t, s));
                    }
                    if pair_has((c1, c2), p1, p2, t, s) {
                        assert(pair_has(cells@[i as int], p1, p2, t, s));
                    }
                }
            }
            i = i + 1;
        }
        builder.into_moc()
    }
}

} // verus!
