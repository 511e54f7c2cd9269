//! Laws relating the operations of the library: the algebra of MOCs, the HEALPix borders,
//! the projections of 2D coverages, the unique notation and the store.
//!
//! Each law takes as parameters the values involved, with what the operations' contracts
//! state of them, and concludes over the same spec functions. Equalities of MOCs are equalities
//! of their canonical ranges and depths.

use vstd::arithmetic::power2::*;
use vstd::prelude::*;

use crate::cells::{cells_has, Cell};
use crate::edges::{is_cell_in, law_step_back, once_edge, once_edges_across, shifted, step_in_base, OrdinalSet};
use crate::hpx::{hpx_complement, hpx_set, in_ext_edge};
use crate::moc::{
    cell_len, contracted_has, degraded_has, expanded_has, expanded_range, lemma_aligned_block_closed,
    lemma_seq_aligned_deeper, RangeMOC,
};
use crate::moc2d::RangeMOC2;
use crate::qty::{FREQ_MAX_BITS, FREQ_MIN_BITS, has_trailing_zeros, lemma_trailing_zeros_unique, zuniq_decoded, Hpx, MocQty, MocableQty};
use crate::ranges::{lemma_sno_unique, range_has, seq_has};
use crate::split::law_joint_split_unique;
use crate::store::{split_count_done, split_done, InternalMoc, U64MocStore};

verus! {

/// Two well-formed MOCs covering the same values have the same ranges.
pub proof fn lemma_same_values<Q: MocQty<u64>>(a: RangeMOC<u64, Q>, b: RangeMOC<u64, Q>)
    requires
        a.wf(),
        b.wf(),
        forall|x: int| #[trigger] a.has(x) <==> b.has(x),
    ensures
        a.rs() == b.rs(),
{
    assert forall|x: int| #[trigger] seq_has(a.rs(), x) <==> seq_has(b.rs(), x) by {
        assert(a.has(x) <==> b.has(x));
    }
    lemma_sno_unique(a.rs(), b.rs());
}

/// `c` is the complement of `m`, as [`RangeMOC::complement`] states it.
pub open spec fn is_complement<Q: MocQty<u64>>(m: RangeMOC<u64, Q>, c: RangeMOC<u64, Q>) -> bool {
    &&& c.wf()
    &&& c.depth() == m.depth()
    &&& forall|x: int| #[trigger] c.has(x) <==> (0 <= x < Q::spec_n_cells_max() && !m.has(x))
}

/// `r` is `a` combined with `b` by the point-wise operator `f`, as [`RangeMOC::or`],
/// [`RangeMOC::and`], [`RangeMOC::minus`] and [`RangeMOC::xor`] state it.
pub open spec fn is_combination<Q: MocQty<u64>>(
    a: RangeMOC<u64, Q>,
    b: RangeMOC<u64, Q>,
    r: RangeMOC<u64, Q>,
    f: spec_fn(bool, bool) -> bool,
) -> bool {
    &&& r.wf()
    &&& r.depth() == if a.depth() >= b.depth() { a.depth() } else { b.depth() }
    &&& forall|x: int| #[trigger] r.has(x) <==> f(a.has(x), b.has(x))
}

pub open spec fn or_fn() -> spec_fn(bool, bool) -> bool {
    |p: bool, q: bool| p || q
}

pub open spec fn and_fn() -> spec_fn(bool, bool) -> bool {
    |p: bool, q: bool| p && q
}

pub open spec fn minus_fn() -> spec_fn(bool, bool) -> bool {
    |p: bool, q: bool| p && !q
}

/// The complement of the complement of a MOC is the MOC itself.
pub proof fn law_complement_involutive<Q: MocQty<u64>>(
    m: RangeMOC<u64, Q>,
    c: RangeMOC<u64, Q>,
    cc: RangeMOC<u64, Q>,
)
    requires
        m.wf(),
        is_complement(m, c),
        is_complement(c, cc),
    ensures
        cc.rs() == m.rs(),
        cc.depth() == m.depth(),
{
    assert forall|x: int| #[trigger] cc.has(x) <==> m.has(x) by {
        assert(c.has(x) <==> (0 <= x < Q::spec_n_cells_max() && !m.has(x)));
        if m.has(x) {
            crate::moc::lemma_ends_le(m.rs(), Q::spec_n_cells_max());
            let k = choose|k: int| 0 <= k < m.rs().len() && #[trigger] range_has(m.rs()[k], x);
        }
    }
    lemma_same_values(cc, m);
}

/// The union is commutative.
pub proof fn law_union_commutative<Q: MocQty<u64>>(
    a: RangeMOC<u64, Q>,
    b: RangeMOC<u64, Q>,
    ab: RangeMOC<u64, Q>,
    ba: RangeMOC<u64, Q>,
)
    requires
        a.wf(),
        b.wf(),
        is_combination(a, b, ab, or_fn()),
        is_combination(b, a, ba, or_fn()),
    ensures
        ab.rs() == ba.rs(),
        ab.depth() == ba.depth(),
{
    assert forall|x: int| #[trigger] ab.has(x) <==> ba.has(x) by {
        assert(ab.has(x) == or_fn()(a.has(x), b.has(x)));
        assert(ba.has(x) == or_fn()(b.has(x), a.has(x)));
    }
    lemma_same_values(ab, ba);
}

/// The intersection is commutative.
pub proof fn law_intersection_commutative<Q: MocQty<u64>>(
    a: RangeMOC<u64, Q>,
    b: RangeMOC<u64, Q>,
    ab: RangeMOC<u64, Q>,
    ba: RangeMOC<u64, Q>,
)
    requires
        a.wf(),
        b.wf(),
        is_combination(a, b, ab, and_fn()),
        is_combination(b, a, ba, and_fn()),
    ensures
        ab.rs() == ba.rs(),
        ab.depth() == ba.depth(),
{
    assert forall|x: int| #[trigger] ab.has(x) <==> ba.has(x) by {
        assert(ab.has(x) == and_fn()(a.has(x), b.has(x)));
        assert(ba.has(x) == and_fn()(b.has(x), a.has(x)));
    }
    lemma_same_values(ab, ba);
}

/// The union and the intersection of a MOC with itself give back the MOC.
pub proof fn law_idempotent<Q: MocQty<u64>>(a: RangeMOC<u64, Q>, u: RangeMOC<u64, Q>, i: RangeMOC<u64, Q>)
    requires
        a.wf(),
        is_combination(a, a, u, or_fn()),
        is_combination(a, a, i, and_fn()),
    ensures
        u.rs() == a.rs(),
        u.depth() == a.depth(),
        i.rs() == a.rs(),
        i.depth() == a.depth(),
{
    assert forall|x: int| #[trigger] u.has(x) <==> a.has(x) by {
        assert(u.has(x) == or_fn()(a.has(x), a.has(x)));
    }
    assert forall|x: int| #[trigger] i.has(x) <==> a.has(x) by {
        assert(i.has(x) == and_fn()(a.has(x), a.has(x)));
    }
    lemma_same_values(u, a);
    lemma_same_values(i, a);
}

/// De Morgan: the complement of a union is the intersection of the complements.
pub proof fn law_de_morgan<Q: MocQty<u64>>(
    a: RangeMOC<u64, Q>,
    b: RangeMOC<u64, Q>,
    u: RangeMOC<u64, Q>,
    not_u: RangeMOC<u64, Q>,
    not_a: RangeMOC<u64, Q>,
    not_b: RangeMOC<u64, Q>,
    i: RangeMOC<u64, Q>,
)
    requires
        a.wf(),
        b.wf(),
        is_combination(a, b, u, or_fn()),
        is_complement(u, not_u),
        is_complement(a, not_a),
        is_complement(b, not_b),
        is_combination(not_a, not_b, i, and_fn()),
    ensures
        not_u.rs() == i.rs(),
        not_u.depth() == i.depth(),
{
    assert forall|x: int| #[trigger] not_u.has(x) <==> i.has(x) by {
        assert(u.has(x) == or_fn()(a.has(x), b.has(x)));
        assert(i.has(x) == and_fn()(not_a.has(x), not_b.has(x)));
        assert(not_a.has(x) <==> (0 <= x < Q::spec_n_cells_max() && !a.has(x)));
        assert(not_b.has(x) <==> (0 <= x < Q::spec_n_cells_max() && !b.has(x)));
    }
    lemma_same_values(not_u, i);
}

/// The difference is the intersection with the complement.
pub proof fn law_minus_is_and_not<Q: MocQty<u64>>(
    a: RangeMOC<u64, Q>,
    b: RangeMOC<u64, Q>,
    d: RangeMOC<u64, Q>,
    not_b: RangeMOC<u64, Q>,
    i: RangeMOC<u64, Q>,
)
    requires
        a.wf(),
        b.wf(),
        is_combination(a, b, d, minus_fn()),
        is_complement(b, not_b),
        is_combination(a, not_b, i, and_fn()),
    ensures
        d.rs() == i.rs(),
        d.depth() == i.depth(),
{
    assert forall|x: int| #[trigger] d.has(x) <==> i.has(x) by {
        assert(d.has(x) == minus_fn()(a.has(x), b.has(x)));
        assert(i.has(x) == and_fn()(a.has(x), not_b.has(x)));
        assert(not_b.has(x) <==> (0 <= x < Q::spec_n_cells_max() && !b.has(x)));
        if a.has(x) {
            crate::moc::lemma_ends_le(a.rs(), Q::spec_n_cells_max());
            let k = choose|k: int| 0 <= k < a.rs().len() && #[trigger] range_has(a.rs()[k], x);
        }
    }
    lemma_same_values(d, i);
}

/// `r` is `m` degraded to `new_depth`, as [`RangeMOC::degraded`] states it.
pub open spec fn is_degraded<Q: MocQty<u64>>(m: RangeMOC<u64, Q>, new_depth: u8, r: RangeMOC<u64, Q>) -> bool {
    &&& r.wf()
    &&& r.depth() == if new_depth < m.depth() { new_depth } else { m.depth() }
    &&& forall|x: int| #[trigger] r.has(x) <==> degraded_has(
        m.rs(),
        cell_len::<Q>(if new_depth < Q::MAX_DEPTH { new_depth as int } else { Q::MAX_DEPTH as int }),
        x,
    )
}

/// Degrading a MOC never loses a value, and degrading it to a depth not lower than its own
/// leaves it unchanged.
pub proof fn law_degraded<Q: MocQty<u64>>(m: RangeMOC<u64, Q>, new_depth: u8, r: RangeMOC<u64, Q>)
    requires
        m.wf(),
        is_degraded(m, new_depth, r),
    ensures
        forall|x: int| #[trigger] m.has(x) ==> r.has(x),
        new_depth >= m.depth() ==> r.rs() == m.rs() && r.depth() == m.depth(),
{
    let nd: int = if new_depth < Q::MAX_DEPTH { new_depth as int } else { Q::MAX_DEPTH as int };
    let p = cell_len::<Q>(nd);
    assert forall|x: int| #[trigger] m.has(x) implies r.has(x) by {
        let k = choose|k: int| 0 <= k < m.rs().len() && #[trigger] range_has(m.rs()[k], x);
        assert(seq_has(m.rs(), x) && x / p == x / p);
        assert(degraded_has(m.rs(), p, x));
    }
    if new_depth >= m.depth() {
        crate::moc::lemma_cell_len::<Q>(m.depth() as int, nd);
        lemma_seq_aligned_deeper::<Q>(m.rs(), m.depth() as int, nd);
        lemma_aligned_block_closed(m.rs(), p);
        assert forall|x: int| #[trigger] r.has(x) <==> m.has(x) by {
            if r.has(x) {
                let y = choose|y: int| #[trigger] seq_has(m.rs(), y) && y / p == x / p;
                let k = choose|k: int| 0 <= k < m.rs().len() && #[trigger] range_has(m.rs()[k], y);
                assert(seq_has(m.rs(), x) <==> seq_has(m.rs(), y));
            }
        }
        lemma_same_values(r, m);
    }
}

/// Expanding a one-dimensional MOC (time, frequency) never loses a value, and contracting it
/// never adds one.
pub proof fn law_expand_contract_1d<Q: MocQty<u64>>(m: RangeMOC<u64, Q>, e: RangeMOC<u64, Q>, c: RangeMOC<u64, Q>)
    requires
        m.wf(),
        forall|x: int| #[trigger] e.has(x) <==> expanded_has(m.rs(), cell_len::<Q>(m.depth() as int), Q::spec_n_cells_max(), x),
        forall|x: int| #[trigger] c.has(x) <==> contracted_has(m.rs(), cell_len::<Q>(m.depth() as int), x),
    ensures
        forall|x: int| #[trigger] m.has(x) ==> e.has(x),
        forall|x: int| #[trigger] c.has(x) ==> m.has(x),
{
    let p = cell_len::<Q>(m.depth() as int);
    let n = Q::spec_n_cells_max();
    crate::moc::lemma_cell_len::<Q>(m.depth() as int, m.depth() as int);
    Q::lemma_qty();
    assert forall|x: int| #[trigger] m.has(x) implies e.has(x) by {
        let k = choose|k: int| 0 <= k < m.rs().len() && #[trigger] range_has(m.rs()[k], x);
        let s = m.rs()[k];
        assert(s.start as int % p == 0 && s.end as int % p == 0);
        assert(s.end <= n);
        if s.start > 0 {
            assert(s.start >= p) by {
                vstd::arithmetic::div_mod::lemma_mod_self_0(p);
                if s.start < p {
                    vstd::arithmetic::div_mod::lemma_small_mod(s.start as nat, p as nat);
                }
            }
        }
        if s.end < n {
            assert(s.end + p <= n) by {
                crate::arith::lemma_aligned_gt(n, s.end as int, p);
                vstd::arithmetic::div_mod::lemma_fundamental_div_mod(s.end as int, p);
                vstd::arithmetic::mul::lemma_mul_is_commutative(p, s.end as int / p);
            }
        }
        lemma2_to64_rest();
        let er = expanded_range(s, p, n);
        assert(er.start <= s.start);
        if s.end < n {
            assert(s.end + p <= n);
        }
        assert(er.end >= s.end);
        assert(s.start <= x < s.end);
        assert(range_has(er, x));
    }
    assert forall|x: int| #[trigger] c.has(x) implies m.has(x) by {
        let k = choose|k: int|
            0 <= k < m.rs().len() && (#[trigger] m.rs()[k]).end - m.rs()[k].start > 2 * p && m.rs()[k].start + p <= x
                < m.rs()[k].end - p;
        assert(range_has(m.rs()[k], x));
    }
}

/// Expanding a spatial MOC adds exactly its external border, which lies outside of it.
pub proof fn law_expanded_is_moc_plus_external_border(
    m: RangeMOC<u64, Hpx<u64>>,
    e: RangeMOC<u64, Hpx<u64>>,
    b: RangeMOC<u64, Hpx<u64>>,
)
    requires
        m.wf(),
        forall|x: int| #[trigger] e.has(x) <==> (m.has(x) || in_ext_edge(hpx_set(m), m.depth() as int, x)),
        forall|x: int| #[trigger] b.has(x) <==> (!m.has(x) && in_ext_edge(hpx_set(m), m.depth() as int, x)),
    ensures
        forall|x: int| #[trigger] e.has(x) <==> (m.has(x) || b.has(x)),
        forall|x: int| !(#[trigger] m.has(x) && b.has(x)),
{
}

/// Contracting a spatial MOC removes exactly its internal border, which lies inside of it.
pub proof fn law_contracted_is_moc_minus_internal_border(
    m: RangeMOC<u64, Hpx<u64>>,
    c: RangeMOC<u64, Hpx<u64>>,
    b: RangeMOC<u64, Hpx<u64>>,
)
    requires
        m.wf(),
        forall|x: int| #[trigger] c.has(x) <==> (m.has(x) && !in_ext_edge(hpx_complement(m), m.depth() as int, x)),
        forall|x: int| #[trigger] b.has(x) <==> (m.has(x) && in_ext_edge(hpx_complement(m), m.depth() as int, x)),
    ensures
        forall|x: int| #[trigger] c.has(x) <==> (m.has(x) && !b.has(x)),
        forall|x: int| #[trigger] b.has(x) ==> m.has(x),
{
}

/// Contracting a spatial MOC is complementing the expansion of its complement.
pub proof fn law_contracted_is_dual_of_expanded(
    m: RangeMOC<u64, Hpx<u64>>,
    c: RangeMOC<u64, Hpx<u64>>,
    n: RangeMOC<u64, Hpx<u64>>,
    en: RangeMOC<u64, Hpx<u64>>,
    nen: RangeMOC<u64, Hpx<u64>>,
)
    requires
        m.wf(),
        c.wf(),
        c.depth() == m.depth(),
        forall|x: int| #[trigger] c.has(x) <==> (m.has(x) && !in_ext_edge(hpx_complement(m), m.depth() as int, x)),
        is_complement(m, n),
        en.depth() == n.depth(),
        forall|x: int| #[trigger] en.has(x) <==> (n.has(x) || in_ext_edge(hpx_set(n), n.depth() as int, x)),
        is_complement(en, nen),
    ensures
        c.rs() == nen.rs(),
        c.depth() == nen.depth(),
{
    let big = <Hpx<u64> as MocQty<u64>>::spec_n_cells_max();
    assert(hpx_set(n) =~= hpx_complement(m)) by {
        assert forall|y: int| #[trigger] hpx_set(n)(y) == hpx_complement(m)(y) by {
            assert(n.has(y) <==> (0 <= y < big && !m.has(y)));
        }
    }
    assert forall|x: int| #[trigger] c.has(x) <==> nen.has(x) by {
        assert(nen.has(x) <==> (0 <= x < big && !en.has(x)));
        assert(n.has(x) <==> (0 <= x < big && !m.has(x)));
        if m.has(x) {
            crate::moc::lemma_ends_le(m.rs(), big);
            let k = choose|k: int| 0 <= k < m.rs().len() && #[trigger] range_has(m.rs()[k], x);
        }
    }
    lemma_same_values(c, nen);
}

/// Listing the cells of a MOC and building a MOC back from them gives back the MOC.
pub proof fn law_cells_round_trip<Q: MocQty<u64>>(m: RangeMOC<u64, Q>, cells: Seq<Cell>, r: RangeMOC<u64, Q>)
    requires
        m.wf(),
        forall|x: int| #[trigger] cells_has::<Q>(cells, x) <==> m.has(x),
        r.wf(),
        r.depth() == m.depth(),
        forall|x: int| #[trigger] r.has(x) <==> cells_has::<Q>(cells, x),
    ensures
        r.rs() == m.rs(),
        r.depth() == m.depth(),
{
    assert forall|x: int| #[trigger] r.has(x) <==> m.has(x) by {
        assert(cells_has::<Q>(cells, x) <==> m.has(x));
    }
    lemma_same_values(r, m);
}

/// The projection on the second dimension of a union of coverages is the union of the
/// projections.
pub proof fn law_projection_of_union<Q: MocQty<u64>, R: MocQty<u64>>(
    x: RangeMOC<u64, Q>,
    a: RangeMOC2<u64, Q, u64, R>,
    b: RangeMOC2<u64, Q, u64, R>,
    u: RangeMOC2<u64, Q, u64, R>,
    pu: RangeMOC<u64, R>,
    pa: RangeMOC<u64, R>,
    pb: RangeMOC<u64, R>,
    v: RangeMOC<u64, R>,
)
    requires
        a.wf(),
        b.wf(),
        u.dr() == if a.dr() >= b.dr() { a.dr() } else { b.dr() },
        forall|t: int, s: int| #[trigger] u.has2(t, s) <==> (a.has2(t, s) || b.has2(t, s)),
        pu.wf(),
        pu.depth() == u.dr(),
        forall|s: int| #[trigger] pu.has(s) <==> (exists|t: int| x.has(t) && #[trigger] u.has2(t, s)),
        pa.wf(),
        pa.depth() == a.dr(),
        forall|s: int| #[trigger] pa.has(s) <==> (exists|t: int| x.has(t) && #[trigger] a.has2(t, s)),
        pb.wf(),
        pb.depth() == b.dr(),
        forall|s: int| #[trigger] pb.has(s) <==> (exists|t: int| x.has(t) && #[trigger] b.has2(t, s)),
        is_combination(pa, pb, v, or_fn()),
    ensures
        pu.rs() == v.rs(),
        pu.depth() == v.depth(),
{
    assert forall|s: int| #[trigger] pu.has(s) <==> v.has(s) by {
        assert(v.has(s) == or_fn()(pa.has(s), pb.has(s)));
        if pu.has(s) {
            let t = choose|t: int| x.has(t) && #[trigger] u.has2(t, s);
            assert(a.has2(t, s) || b.has2(t, s));
        }
        if pa.has(s) {
            let t = choose|t: int| x.has(t) && #[trigger] a.has2(t, s);
            assert(u.has2(t, s));
        }
        if pb.has(s) {
            let t = choose|t: int| x.has(t) && #[trigger] b.has2(t, s);
            assert(u.has2(t, s));
        }
    }
    lemma_same_values(pu, v);
}

/// The unique notation of HEALPix cells is injective: a uniq value decodes to a single
/// (depth, index) pair.
pub proof fn law_uniq_injective(d1: u8, i1: u64, d2: u8, i2: u64)
    requires
        i1 < 3 * pow2(2 * d1 as nat + 2),
        i2 < 3 * pow2(2 * d2 as nat + 2),
        i1 + pow2(2 * d1 as nat + 2) == i2 + pow2(2 * d2 as nat + 2),
    ensures
        d1 == d2,
        i1 == i2,
{
    if d1 < d2 {
        lemma_pow2_adds(2 * d1 as nat + 2, 2);
        lemma2_to64();
        if 2 * d1 + 4 < 2 * d2 + 2 {
            lemma_pow2_strictly_increases(2 * d1 as nat + 4, 2 * d2 as nat + 2);
        }
    }
    if d2 < d1 {
        lemma_pow2_adds(2 * d2 as nat + 2, 2);
        lemma2_to64();
        if 2 * d2 + 4 < 2 * d1 + 2 {
            lemma_pow2_strictly_increases(2 * d2 as nat + 4, 2 * d1 as nat + 2);
        }
    }
}

/// Reading an index just added to the store gives back the added MOC, and dropping it gives
/// back the store as it was.
pub proof fn law_store_add_get_drop(s0: U64MocStore, s1: U64MocStore, s2: U64MocStore, k: usize, moc: InternalMoc)
    requires
        s0.wf(),
        !s0.entries().dom().contains(k),
        s1.entries() == s0.entries().insert(k, (1u8, moc)),
        s2.entries() == s1.entries().remove(k),
    ensures
        s1.entries().dom().contains(k),
        s1.entries()[k].1 == moc,
        s1.entries()[k].0 == 1,
        s2.entries() == s0.entries(),
{
    assert(s2.entries() =~= s0.entries());
}

/// Copying then dropping an index gives back the store as it was.
pub proof fn law_store_copy_drop(s0: U64MocStore, s1: U64MocStore, s2: U64MocStore, k: usize)
    requires
        s0.wf(),
        s0.entries().dom().contains(k),
        s0.entries()[k].0 < 255,
        s1.entries() == s0.entries().insert(k, ((s0.entries()[k].0 + 1) as u8, s0.entries()[k].1)),
        s1.entries().dom().contains(k) && s1.entries()[k].0 > 1,
        s2.entries() == s1.entries().insert(k, ((s1.entries()[k].0 - 1) as u8, s1.entries()[k].1)),
    ensures
        s2.entries() == s0.entries(),
{
    assert(s2.entries() =~= s0.entries());
}

/// Decoding the `zuniq` value of a cell gives back the cell, and every encoded value meets
/// the decoding precondition.
pub proof fn law_zuniq_round_trip<Q: MocQty<u64>>(depth: u8, idx: u64, z: u64, r: (u8, u64))
    requires
        depth <= Q::MAX_DEPTH,
        idx < Q::N_D0_CELLS * pow2((depth * Q::DIM) as nat),
        z == (2 * idx + 1) * pow2(((Q::MAX_DEPTH - depth) * Q::DIM) as nat),
    ensures
        z > 0,
        forall|k: nat| #[trigger] has_trailing_zeros(z as int, k) ==> k / (Q::DIM as nat) <= Q::MAX_DEPTH,
        zuniq_decoded::<Q>(z, r) ==> r == (depth, idx),
{
    let s = ((Q::MAX_DEPTH - depth) * Q::DIM) as nat;
    let ps = pow2(s) as int;
    Q::lemma_qty();
    lemma_pow2_pos(s);
    let odd = 2 * idx + 1;
    vstd::arithmetic::mul::lemma_mul_inequality(1, odd as int, ps);
    vstd::arithmetic::div_mod::lemma_mod_multiples_basic(odd as int, ps);
    vstd::arithmetic::div_mod::lemma_div_multiples_vanish(odd as int, ps);
    vstd::arithmetic::mul::lemma_mul_is_commutative(odd as int, ps);
    assert(has_trailing_zeros(z as int, s));
    assert((s / (Q::DIM as nat)) == Q::MAX_DEPTH - depth) by (nonlinear_arith)
        requires
            s == (Q::MAX_DEPTH - depth) * Q::DIM,
            1 <= Q::DIM,
            depth <= Q::MAX_DEPTH,
    ;
    assert forall|k: nat| #[trigger] has_trailing_zeros(z as int, k) implies k / (Q::DIM as nat) <= Q::MAX_DEPTH by {
        lemma_trailing_zeros_unique(z as int, k, s);
    }
    if zuniq_decoded::<Q>(z, r) {
        let k = choose|k: nat|
            #[trigger] has_trailing_zeros(z as int, k) && r.0 == Q::MAX_DEPTH - k / (Q::DIM as nat) && r.1 == z as int
                / (pow2(k + 1) as int);
        lemma_trailing_zeros_unique(z as int, k, s);
        lemma_pow2_adds(s, 1);
        lemma2_to64();
        vstd::arithmetic::div_mod::lemma_div_denominator(z as int, ps, 2);
        assert(odd as int / 2 == idx);
    }
}

/// The edge shared by two distinct cells of a spatial MOC of the same depth, each the
/// neighbour of the other across it, is drawn from exactly one of them.
pub proof fn law_shared_edge_drawn_once(m: RangeMOC<u64, Hpx<u64>>, d: u8, a: u64, b: u64)
    requires
        m.wf(),
        a != b,
        is_cell_in(m, d as int, a as int),
        is_cell_in(m, d as int, b as int),
    ensures
        once_edge(m, d, a, Some(b)) != once_edge(m, d, b, Some(a)),
{
}

/// The edge between a cell `a` of a spatial MOC and the cell `b` of the MOC across its
/// north-east (north-west) edge, in the same base cell, is drawn from exactly one of them: as
/// the north-east (north-west) edge of `a` or as the south-west (south-east) edge of `b`,
/// where `ea` and `eb` are the edges given to `a` and `b` (see [`once_edges_across`]).
pub proof fn law_edge_across_drawn_once(
    m: RangeMOC<u64, Hpx<u64>>,
    d: u8,
    a: u64,
    ea: OrdinalSet,
    b: u64,
    eb: OrdinalSet,
)
    requires
        m.wf(),
        d <= 29,
        (a as int) < 12 * pow2((2 * d) as nat),
        is_cell_in(m, d as int, a as int),
        is_cell_in(m, d as int, b as int),
        once_edges_across(m, d, a, ea),
        once_edges_across(m, d, b, eb),
    ensures
        step_in_base(d, a, 1, 0) && b == shifted(d, a, 1, 0) ==> ea.ne != eb.sw,
        step_in_base(d, a, 0, 1) && b == shifted(d, a, 0, 1) ==> ea.nw != eb.se,
{
    if step_in_base(d, a, 1, 0) && b == shifted(d, a, 1, 0) {
        law_step_back(d, a, 1, 0);
        assert(shifted(d, b, -1, 0) as u64 == a);
        law_shared_edge_drawn_once(m, d, a, b);
    }
    if step_in_base(d, a, 0, 1) && b == shifted(d, a, 0, 1) {
        law_step_back(d, a, 0, 1);
        assert(shifted(d, b, 0, -1) as u64 == a);
        law_shared_edge_drawn_once(m, d, a, b);
    }
}

/// Every frequency of a frequency MOC has a hash value that converts back to the same
/// frequency: `hash2freq_bits` accepts the result of `freq_bits2hash` and inverts it.
pub proof fn law_freq_hash_round_trip(freq_bits: u64)
    requires
        FREQ_MIN_BITS <= freq_bits < FREQ_MAX_BITS,
    ensures
        freq_bits - FREQ_MIN_BITS < 257u64 << 52,
        (freq_bits - FREQ_MIN_BITS) + FREQ_MIN_BITS == freq_bits,
{
    assert((1184u64 << 52) | 0x000FFFFFFFFFFFFFu64 == 0x4A0FFFFFFFFFFFFFu64) by (bit_vector);
    assert(929u64 << 52 == 0x3A10000000000000u64) by (bit_vector);
    assert(257u64 << 52 == 0x1010000000000000u64) by (bit_vector);
}

/// The `zuniq` value of a cell is the sum of the bounds of its range at the deepest resolution
/// (twice its center), so that the order of the `zuniq` values follows the order of the cells
/// along the curve, whatever their depths: a cell that ends before another starts has a
/// smaller `zuniq` value.
pub proof fn law_zuniq_orders_cells<Q: MocQty<u64>>(c1: (u8, u64), c2: (u8, u64))
    requires
        crate::builder::valid_cell::<Q>(c1),
        crate::builder::valid_cell::<Q>(c2),
        crate::builder::cell_range::<Q>(c1).end <= crate::builder::cell_range::<Q>(c2).start,
    ensures
        (2 * c1.1 + 1) * pow2(((Q::MAX_DEPTH - c1.0) * Q::DIM) as nat) == crate::builder::cell_range::<Q>(c1).start
            + crate::builder::cell_range::<Q>(c1).end,
        (2 * c1.1 + 1) * pow2(((Q::MAX_DEPTH - c1.0) * Q::DIM) as nat) < (2 * c2.1 + 1) * pow2(
            ((Q::MAX_DEPTH - c2.0) * Q::DIM) as nat,
        ),
{
    let l1 = crate::moc::cell_len::<Q>(c1.0 as int);
    let l2 = crate::moc::cell_len::<Q>(c2.0 as int);
    crate::moc::lemma_cell_len::<Q>(c1.0 as int, c1.0 as int);
    crate::moc::lemma_cell_len::<Q>(c2.0 as int, c2.0 as int);
    Q::lemma_qty();
    let i1 = c1.1 as int;
    let i2 = c2.1 as int;
    vstd::arithmetic::mul::lemma_mul_nonnegative(i1, l1);
    vstd::arithmetic::mul::lemma_mul_nonnegative(i2, l2);
    vstd::arithmetic::mul::lemma_mul_inequality(i1, i1 + 1, l1);
    vstd::arithmetic::mul::lemma_mul_inequality(i2, i2 + 1, l2);
    assert((i1 + 1) * l1 <= Q::spec_n_cells_max());
    assert((i2 + 1) * l2 <= Q::spec_n_cells_max());
    lemma2_to64_rest();
    assert(crate::builder::cell_range::<Q>(c1).start == i1 * l1);
    assert(crate::builder::cell_range::<Q>(c1).end == (i1 + 1) * l1);
    assert(crate::builder::cell_range::<Q>(c2).start == i2 * l2);
    assert(crate::builder::cell_range::<Q>(c2).end == (i2 + 1) * l2);
    assert(pow2(((Q::MAX_DEPTH - c1.0) * Q::DIM) as nat) == l1);
    assert(pow2(((Q::MAX_DEPTH - c2.0) * Q::DIM) as nat) == l2);
    assert((2 * i1 + 1) * l1 == i1 * l1 + (i1 + 1) * l1) by (nonlinear_arith);
    assert((2 * i2 + 1) * l2 == i2 * l2 + (i2 + 1) * l2) by (nonlinear_arith);
    assert(i1 * l1 < (i1 + 1) * l1) by (nonlinear_arith)
        requires
            l1 > 0,
    ;
    assert(i2 * l2 < (i2 + 1) * l2) by (nonlinear_arith)
        requires
            l2 > 0,
    ;
}

/// Splitting a stored S-MOC stores as many parts as counting its parts gives (with the same
/// kind of neighbourhood).
pub proof fn law_split_matches_count(
    s0: U64MocStore,
    s1: U64MocStore,
    index: usize,
    indirect: bool,
    r: Result<Vec<usize>, String>,
    c: Result<u32, String>,
)
    requires
        split_done(s0, s1, index, indirect, r),
        split_count_done(s0, index, indirect, c),
    ensures
        r is Ok <==> c is Ok,
        r is Ok ==> c->Ok_0 == r->Ok_0@.len() as u32,
{
    if s0.entries().dom().contains(index) {
        if let InternalMoc::Space(m) = s0.entries()[index].1 {
            let g1 = choose|g: Seq<Seq<Cell>>| #[trigger] crate::split::joint_split(m, indirect, g)
                && crate::store::stored_groups(s0, s1, r->Ok_0@, g, m.depth());
            let g2 = choose|g: Seq<Seq<Cell>>| #[trigger] crate::split::joint_split(m, indirect, g)
                && c->Ok_0 == g.len() as u32;
            law_joint_split_unique(m, indirect, g1, g2);
        }
    }
}

} // verus!
