//! The data part of the FITS serialization of a space-time MOC: a flat list of ranges, those
//! of the first quantity (time) flagged, each followed by those of the second (space).

use std::ops::Range;
use vstd::prelude::*;
use vstd::arithmetic::power2::lemma2_to64_rest;
use crate::moc2d::{elem_wf, RangeMOC2, RangeMOC2Elem};
use crate::qty::MocQty;

verus! {

/// The most significant bit, set on both bounds of the ranges of the first quantity.
pub const MSB_MASK: u64 = 0x8000_0000_0000_0000;

/// A range tagged with its quantity: `true` for the first one.
pub open spec fn tag_pair(p: (u64, u64)) -> (bool, Range<u64>) {
    if p.0 & p.1 & MSB_MASK == MSB_MASK {
        (true, Range { start: p.0 & !MSB_MASK, end: p.1 & !MSB_MASK })
    } else {
        (false, Range { start: p.0, end: p.1 })
    }
}

/// A range of the pre-v2 format (signed bounds, negated for the first quantity) tagged with its
/// quantity.
pub open spec fn tag_pair_pre_v2(p: (i64, i64)) -> (bool, Range<u64>) {
    if p.0 < 0 && p.1 < 0 {
        (true, Range { start: (-p.0) as u64, end: (-p.1) as u64 })
    } else {
        (false, Range { start: p.0 as u64, end: p.1 as u64 })
    }
}

/// Elements being grouped: those completed, then the ranges of both quantities of the current
/// one.
pub open spec fn st_fold(s: Seq<(bool, Range<u64>)>) -> (
    Seq<(Seq<Range<u64>>, Seq<Range<u64>>)>,
    Seq<Range<u64>>,
    Seq<Range<u64>>,
)
    decreases s.len(),
{
    if s.len() == 0 {
        (Seq::empty(), Seq::empty(), Seq::empty())
    } else {
        let st = st_fold(s.drop_last());
        let p = s.last();
        if p.0 {
            if st.2.len() > 0 {
                (st.0.push((st.1, st.2)), seq![p.1], Seq::empty())
            } else {
                (st.0, st.1.push(p.1), st.2)
            }
        } else {
            (st.0, st.1, st.2.push(p.1))
        }
    }
}

/// The elements read from tagged ranges: a new element starts at each range of the first
/// quantity that follows a range of the second quantity.
pub open spec fn st_grouped(s: Seq<(bool, Range<u64>)>) -> Seq<(Seq<Range<u64>>, Seq<Range<u64>>)> {
    let st = st_fold(s);
    if st.1.len() > 0 || st.2.len() > 0 {
        st.0.push((st.1, st.2))
    } else {
        st.0
    }
}

/// The ranges of the elements, as sequences.
pub open spec fn groups_view(v: Seq<(Vec<Range<u64>>, Vec<Range<u64>>)>) -> Seq<(Seq<Range<u64>>, Seq<Range<u64>>)> {
    Seq::new(v.len(), |i: int| (v[i].0@, v[i].1@))
}

/// Groups the tagged ranges into elements.
fn group_st_ranges(tagged: &Vec<(bool, Range<u64>)>) -> (r: Vec<(Vec<Range<u64>>, Vec<Range<u64>>)>)
    ensures
        groups_view(r@) == st_grouped(tagged@),
{
    let n = tagged.len();
    let mut out: Vec<(Vec<Range<u64>>, Vec<Range<u64>>)> = Vec::new();
    let mut tranges: Vec<Range<u64>> = Vec::new();
    let mut sranges: Vec<Range<u64>> = Vec::new();
    let mut i: usize = 0;
    while i < n
        invariant
            n == tagged@.len(),
            i <= n,
            st_fold(tagged@.take(i as int)) == (groups_view(out@), tranges@, sranges@),
        decreases n - i,
    {
        let is_first = tagged[i].0;
        let r = Range { start: tagged[i].1.start, end: tagged[i].1.end };
        proof {
            assert(tagged@.take(i + 1).drop_last() =~= tagged@.take(i as int));
            assert(tagged@.take(i + 1).last() == tagged@[i as int]);
        }
        let ghost out0 = out@;
        if is_first {
            if sranges.len() > 0 {
                let mut t: Vec<Range<u64>> = Vec::new();
                let mut s: Vec<Range<u64>> = Vec::new();
                std::mem::swap(&mut t, &mut tranges);
                std::mem::swap(&mut s, &mut sranges);
                out.push((t, s));
                tranges.push(r);
                proof {
                    assert(groups_view(out@) =~= groups_view(out0).push((t@, s@)));
                    assert(tranges@ =~= seq![r]);
                }
            } else {
                tranges.push(r);
            }
        } else {
            sranges.push(r);
        }
        i += 1;
    }
    proof {
        assert(tagged@.take(n as int) =~= tagged@);
    }
    if tranges.len() > 0 || sranges.len() > 0 {
        let ghost out0 = out@;
        out.push((tranges, sranges));
        proof {
            assert(groups_view(out@) =~= groups_view(out0).push((tranges@, sranges@)));
        }
    }
    out
}

/// Reads the elements of a space-time MOC from the ranges of the data part of its FITS
/// serialization: the ranges whose both bounds have the most significant bit set belong to the
/// first quantity (the bit removed); a new element starts at each of them that follows a range
/// of the second quantity.
pub fn decode_st_ranges(pairs: &Vec<(u64, u64)>) -> (r: Vec<(Vec<Range<u64>>, Vec<Range<u64>>)>)
    ensures
        groups_view(r@) == st_grouped(pairs@.map_values(|p: (u64, u64)| tag_pair(p))),
{
    let n = pairs.len();
    let mut tagged: Vec<(bool, Range<u64>)> = Vec::new();
    let mut i: usize = 0;
    while i < n
        invariant
            n == pairs@.len(),
            i <= n,
            tagged@ == pairs@.take(i as int).map_values(|p: (u64, u64)| tag_pair(p)),
        decreases n - i,
    {
        let (a, b) = pairs[i];
        let t = if a & b & MSB_MASK == MSB_MASK {
            (true, Range { start: a & !MSB_MASK, end: b & !MSB_MASK })
        } else {
            (false, Range { start: a, end: b })
        };
        tagged.push(t);
        proof {
            assert(tagged@ =~= pairs@.take(i + 1).map_values(|p: (u64, u64)| tag_pair(p)));
        }
        i += 1;
    }
    proof {
        assert(pairs@.take(n as int) =~= pairs@);
    }
    group_st_ranges(&tagged)
}

/// Same as [`decode_st_ranges`] for the format preceding the version 2.0 of the standard: the
/// bounds are signed and those of the first quantity negated.
pub fn decode_st_ranges_pre_v2(pairs: &Vec<(i64, i64)>) -> (r: Vec<(Vec<Range<u64>>, Vec<Range<u64>>)>)
    requires
        forall|k: int|
            0 <= k < pairs@.len() ==> ((#[trigger] pairs@[k]).0 < 0 && pairs@[k].1 < 0 ==> pairs@[k].0 != i64::MIN
                && pairs@[k].1 != i64::MIN),
    ensures
        groups_view(r@) == st_grouped(pairs@.map_values(|p: (i64, i64)| tag_pair_pre_v2(p))),
{
    let n = pairs.len();
    let mut tagged: Vec<(bool, Range<u64>)> = Vec::new();
    let mut i: usize = 0;
    while i < n
        invariant
            n == pairs@.len(),
            i <= n,
            forall|k: int|
                0 <= k < pairs@.len() ==> ((#[trigger] pairs@[k]).0 < 0 && pairs@[k].1 < 0 ==> pairs@[k].0
                    != i64::MIN && pairs@[k].1 != i64::MIN),
            tagged@ == pairs@.take(i as int).map_values(|p: (i64, i64)| tag_pair_pre_v2(p)),
        decreases n - i,
    {
        let (a, b) = pairs[i];
        proof {
            assert(pairs@[i as int] == (a, b));
        }
        let t = if a < 0 && b < 0 {
            (true, Range { start: (-a) as u64, end: (-b) as u64 })
        } else {
            (false, Range { start: a as u64, end: b as u64 })
        };
        tagged.push(t);
        proof {
            assert(tagged@ =~= pairs@.take(i + 1).map_values(|p: (i64, i64)| tag_pair_pre_v2(p)));
        }
        i += 1;
    }
    proof {
        assert(pairs@.take(n as int) =~= pairs@);
    }
    group_st_ranges(&tagged)
}

/// The ranges of the first quantity, both bounds flagged with the most significant bit.
pub open spec fn enc_first(rs: Seq<Range<u64>>) -> Seq<(u64, u64)> {
    rs.map_values(|r: Range<u64>| (r.start | MSB_MASK, r.end | MSB_MASK))
}

/// The ranges of the second quantity, as they are.
pub open spec fn enc_second(rs: Seq<Range<u64>>) -> Seq<(u64, u64)> {
    rs.map_values(|r: Range<u64>| (r.start, r.end))
}

/// The data part of the elements: for each element, its ranges of the first quantity (flagged)
/// then those of the second.
pub open spec fn st_encoded<Q: MocQty<u64>, R: MocQty<u64>>(es: Seq<RangeMOC2Elem<u64, Q, u64, R>>) -> Seq<(u64, u64)>
    decreases es.len(),
{
    if es.len() == 0 {
        Seq::empty()
    } else {
        st_encoded(es.drop_last()) + enc_first(es.last().left().rs()) + enc_second(es.last().right().rs())
    }
}

/// The ranges of both quantities of each element.
pub open spec fn elems_view<Q: MocQty<u64>, R: MocQty<u64>>(es: Seq<RangeMOC2Elem<u64, Q, u64, R>>) -> Seq<(Seq<Range<u64>>, Seq<Range<u64>>)> {
    Seq::new(es.len(), |i: int| (es[i].left().rs(), es[i].right().rs()))
}

/// The ranges of the data part of the FITS serialization of the MOC2.
pub fn encode_st_ranges<Q: MocQty<u64>, R: MocQty<u64>>(moc: &RangeMOC2<u64, Q, u64, R>) -> (r: Vec<(u64, u64)>)
    ensures
        r@ == st_encoded(moc.es()),
{
    let elems = moc.elems();
    let n = elems.len();
    let mut out: Vec<(u64, u64)> = Vec::new();
    let mut i: usize = 0;
    while i < n
        invariant
            n == elems@.len(),
            elems@ == moc.es(),
            i <= n,
            out@ == st_encoded(moc.es().take(i as int)),
        decreases n - i,
    {
        let ghost out0 = out@;
        let ls = &elems[i].moc_l().moc_ranges().0;
        let rs = &elems[i].moc_r().moc_ranges().0;
        let nl = ls.len();
        let mut j: usize = 0;
        while j < nl
            invariant
                nl == ls@.len(),
                j <= nl,
                out@ == out0 + enc_first(ls@.take(j as int)),
            decreases nl - j,
        {
            out.push((ls[j].start | MSB_MASK, ls[j].end | MSB_MASK));
            proof {
                assert(out@ =~= out0 + enc_first(ls@.take(j + 1)));
            }
            j += 1;
        }
        let ghost out1 = out@;
        let nr = rs.len();
        let mut j: usize = 0;
        while j < nr
            invariant
                nr == rs@.len(),
                j <= nr,
                out@ == out1 + enc_second(rs@.take(j as int)),
            decreases nr - j,
        {
            out.push((rs[j].start, rs[j].end));
            proof {
                assert(out@ =~= out1 + enc_second(rs@.take(j + 1)));
            }
            j += 1;
        }
        proof {
            assert(ls@.take(nl as int) =~= ls@);
            assert(rs@.take(nr as int) =~= rs@);
            let es = moc.es();
            assert(es.take(i + 1).drop_last() =~= es.take(i as int));
            assert(es.take(i + 1).last() == es[i as int]);
        }
        i += 1;
    }
    proof {
        assert(moc.es().take(n as int) =~= moc.es());
    }
    out
}

/// The tagged ranges of the elements.
pub open spec fn st_tagged<Q: MocQty<u64>, R: MocQty<u64>>(es: Seq<RangeMOC2Elem<u64, Q, u64, R>>) -> Seq<(bool, Range<u64>)>
    decreases es.len(),
{
    if es.len() == 0 {
        Seq::empty()
    } else {
        st_tagged(es.drop_last()) + es.last().left().rs().map_values(|r: Range<u64>| (true, r))
            + es.last().right().rs().map_values(|r: Range<u64>| (false, r))
    }
}

proof fn lemma_msb(x: u64, y: u64)
    requires
        x < 0x8000_0000_0000_0000u64,
        y < 0x8000_0000_0000_0000u64,
    ensures
        (x | MSB_MASK) & (y | MSB_MASK) & MSB_MASK == MSB_MASK,
        (x | MSB_MASK) & !MSB_MASK == x,
        x & y & MSB_MASK != MSB_MASK,
{
    assert((x | 0x8000_0000_0000_0000u64) & (y | 0x8000_0000_0000_0000u64) & 0x8000_0000_0000_0000u64
        == 0x8000_0000_0000_0000u64) by (bit_vector);
    assert((x | 0x8000_0000_0000_0000u64) & !0x8000_0000_0000_0000u64 == x) by (bit_vector)
        requires
            x < 0x8000_0000_0000_0000u64,
    ;
    assert(x & y & 0x8000_0000_0000_0000u64 != 0x8000_0000_0000_0000u64) by (bit_vector)
        requires
            x < 0x8000_0000_0000_0000u64,
    ;
}

/// All bounds are below the most significant bit.
pub open spec fn bounds_below_msb(rs: Seq<Range<u64>>) -> bool {
    forall|k: int| 0 <= k < rs.len() ==> (#[trigger] rs[k]).start < 0x8000_0000_0000_0000u64 && rs[k].end
        < 0x8000_0000_0000_0000u64
}

proof fn lemma_tag_first(rs: Seq<Range<u64>>)
    requires
        bounds_below_msb(rs),
    ensures
        enc_first(rs).map_values(|p: (u64, u64)| tag_pair(p)) == rs.map_values(|r: Range<u64>| (true, r)),
{
    let e = enc_first(rs);
    let a = e.map_values(|p: (u64, u64)| tag_pair(p));
    let b = rs.map_values(|r: Range<u64>| (true, r));
    assert forall|k: int| 0 <= k < rs.len() implies #[trigger] a[k] == b[k] by {
        lemma_msb(rs[k].start, rs[k].end);
        lemma_msb(rs[k].end, rs[k].start);
        let x = rs[k].start | MSB_MASK;
        let y = rs[k].end | MSB_MASK;
        assert(e[k] == (x, y));
        assert(x & y & MSB_MASK == MSB_MASK);
        assert(tag_pair((x, y)) == (true, Range { start: rs[k].start, end: rs[k].end }));
        assert(a[k] == tag_pair(e[k]));
    }
    assert(a =~= b);
}

proof fn lemma_tag_second(rs: Seq<Range<u64>>)
    requires
        bounds_below_msb(rs),
    ensures
        enc_second(rs).map_values(|p: (u64, u64)| tag_pair(p)) == rs.map_values(|r: Range<u64>| (false, r)),
{
    let a = enc_second(rs).map_values(|p: (u64, u64)| tag_pair(p));
    let b = rs.map_values(|r: Range<u64>| (false, r));
    assert forall|k: int| 0 <= k < rs.len() implies #[trigger] a[k] == b[k] by {
        lemma_msb(rs[k].start, rs[k].end);
    }
    assert(a =~= b);
}

/// Tagging the encoded ranges gives back the tagged ranges of the elements.
proof fn lemma_tag_encoded<Q: MocQty<u64>, R: MocQty<u64>>(es: Seq<RangeMOC2Elem<u64, Q, u64, R>>)
    requires
        forall|i: int| 0 <= i < es.len() ==> bounds_below_msb((#[trigger] es[i]).left().rs()) && bounds_below_msb(es[i].right().rs()),
    ensures
        st_encoded(es).map_values(|p: (u64, u64)| tag_pair(p)) == st_tagged(es),
    decreases es.len(),
{
    if es.len() > 0 {
        let es0 = es.drop_last();
        assert forall|i: int| 0 <= i < es0.len() implies bounds_below_msb((#[trigger] es0[i]).left().rs()) && bounds_below_msb(es0[i].right().rs()) by {
            assert(es0[i] == es[i]);
        }
        lemma_tag_encoded(es0);
        let l = es.last().left().rs();
        let r = es.last().right().rs();
        assert(bounds_below_msb(es[es.len() - 1].left().rs()));
        lemma_tag_first(l);
        lemma_tag_second(r);
        let a = st_encoded(es0);
        let b = enc_first(l);
        let c = enc_second(r);
        let f = |p: (u64, u64)| tag_pair(p);
        assert((a + b + c).map_values(f) =~= a.map_values(f) + b.map_values(f) + c.map_values(f));
    }
}

/// Appending ranges of the first quantity.
proof fn lemma_fold_first(s: Seq<(bool, Range<u64>)>, ts: Seq<Range<u64>>)
    requires
        ts.len() > 0,
    ensures
        st_fold(s + ts.map_values(|r: Range<u64>| (true, r))) == if st_fold(s).2.len() == 0 {
            (st_fold(s).0, st_fold(s).1 + ts, Seq::<Range<u64>>::empty())
        } else {
            (st_fold(s).0.push((st_fold(s).1, st_fold(s).2)), ts, Seq::<Range<u64>>::empty())
        },
    decreases ts.len(),
{
    let f = |r: Range<u64>| (true, r);
    let u = s + ts.map_values(f);
    if ts.len() == 1 {
        assert(u.drop_last() =~= s);
        assert(st_fold(s).1 + ts =~= st_fold(s).1.push(ts[0]));
        assert(ts =~= seq![ts[0]]);
    } else {
        let t0 = ts.drop_last();
        lemma_fold_first(s, t0);
        assert(u.drop_last() =~= s + t0.map_values(f));
        assert(st_fold(s).1 + t0 + seq![ts.last()] =~= st_fold(s).1 + ts);
        assert(t0.push(ts.last()) =~= ts);
        assert((st_fold(s).1 + t0).push(ts.last()) =~= st_fold(s).1 + ts);
    }
}

/// Appending ranges of the second quantity.
proof fn lemma_fold_second(s: Seq<(bool, Range<u64>)>, rs: Seq<Range<u64>>)
    ensures
        st_fold(s + rs.map_values(|r: Range<u64>| (false, r))) == (st_fold(s).0, st_fold(s).1, st_fold(s).2 + rs),
    decreases rs.len(),
{
    let f = |r: Range<u64>| (false, r);
    let u = s + rs.map_values(f);
    if rs.len() == 0 {
        assert(u =~= s);
        assert(st_fold(s).2 + rs =~= st_fold(s).2);
    } else {
        let r0 = rs.drop_last();
        lemma_fold_second(s, r0);
        assert(u.drop_last() =~= s + r0.map_values(f));
        assert((st_fold(s).2 + r0).push(rs.last()) =~= st_fold(s).2 + rs);
    }
}

/// Grouping the tagged ranges of well-formed elements: the last element is still open.
proof fn lemma_fold_tagged<Q: MocQty<u64>, R: MocQty<u64>>(es: Seq<RangeMOC2Elem<u64, Q, u64, R>>)
    requires
        es.len() > 0,
        forall|i: int| 0 <= i < es.len() ==> (#[trigger] es[i]).left().rs().len() > 0 && es[i].right().rs().len() > 0,
    ensures
        st_fold(st_tagged(es)) == (elems_view(es.drop_last()), es.last().left().rs(), es.last().right().rs()),
    decreases es.len(),
{
    let es0 = es.drop_last();
    let l = es.last().left().rs();
    let r = es.last().right().rs();
    assert(l.len() > 0 && r.len() > 0) by {
        assert(es[es.len() - 1].left().rs().len() > 0);
    }
    let s0 = st_tagged(es0);
    let s1 = s0 + l.map_values(|x: Range<u64>| (true, x));
    assert(st_tagged(es) == s1 + r.map_values(|x: Range<u64>| (false, x)));
    lemma_fold_first(s0, l);
    lemma_fold_second(s1, r);
    if es.len() == 1 {
        assert(s0 =~= Seq::<(bool, Range<u64>)>::empty());
        assert(Seq::<Range<u64>>::empty() + l =~= l);
        assert(Seq::<Range<u64>>::empty() + r =~= r);
        assert(elems_view(es0) =~= Seq::<(Seq<Range<u64>>, Seq<Range<u64>>)>::empty());
    } else {
        assert forall|i: int| 0 <= i < es0.len() implies (#[trigger] es0[i]).left().rs().len() > 0 && es0[i].right().rs().len() > 0 by {
            assert(es0[i] == es[i]);
        }
        lemma_fold_tagged(es0);
        assert(es0.last().right().rs().len() > 0) by {
            assert(es0.last() == es[es.len() - 2]);
        }
        assert(elems_view(es0.drop_last()).push((es0.last().left().rs(), es0.last().right().rs())) =~= elems_view(es0));
        assert(Seq::<Range<u64>>::empty() + r =~= r);
    }
}

/// Reading back the data part written for a MOC2 gives its elements.
pub proof fn law_st_data_round_trip<Q: MocQty<u64>, R: MocQty<u64>>(m: RangeMOC2<u64, Q, u64, R>)
    requires
        m.wf(),
    ensures
        st_grouped(st_encoded(m.es()).map_values(|p: (u64, u64)| tag_pair(p))) == elems_view(m.es()),
{
    let es = m.es();
    Q::lemma_qty();
    R::lemma_qty();
    lemma2_to64_rest();
    assert forall|i: int| 0 <= i < es.len() implies bounds_below_msb((#[trigger] es[i]).left().rs()) && bounds_below_msb(es[i].right().rs()) by {
        assert(elem_wf(es[i], m.dl(), m.dr()));
        let l = es[i].left().rs();
        let r = es[i].right().rs();
        assert forall|k: int| 0 <= k < l.len() implies (#[trigger] l[k]).start < 0x8000_0000_0000_0000u64 && l[k].end < 0x8000_0000_0000_0000u64 by {
            assert(l[k].start < l[k].end);
            assert(l[k].end <= Q::spec_n_cells_max());
        }
        assert forall|k: int| 0 <= k < r.len() implies (#[trigger] r[k]).start < 0x8000_0000_0000_0000u64 && r[k].end < 0x8000_0000_0000_0000u64 by {
            assert(r[k].start < r[k].end);
            assert(r[k].end <= R::spec_n_cells_max());
        }
    }
    lemma_tag_encoded(es);
    if es.len() == 0 {
        assert(st_tagged(es) =~= Seq::<(bool, Range<u64>)>::empty());
        assert(elems_view(es) =~= Seq::<(Seq<Range<u64>>, Seq<Range<u64>>)>::empty());
    } else {
        assert forall|i: int| 0 <= i < es.len() implies (#[trigger] es[i]).left().rs().len() > 0 && es[i].right().rs().len() > 0 by {
            assert(elem_wf(es[i], m.dl(), m.dr()));
        }
        lemma_fold_tagged(es);
        assert(elems_view(es.drop_last()).push((es.last().left().rs(), es.last().right().rs())) =~= elems_view(es));
    }
}

/// Size of a FITS block, in bytes.
pub const FITS_BLOCK_LEN: u64 = 2880;

/// Number of zero bytes completing `n_bytes` bytes of data to a whole number of FITS blocks.
pub fn fits_block_padding(n_bytes: u64) -> (r: u64)
    ensures
        r < FITS_BLOCK_LEN,
        (n_bytes + r) % (FITS_BLOCK_LEN as int) == 0,
{
    let m = n_bytes % FITS_BLOCK_LEN;
    if m != 0 {
        FITS_BLOCK_LEN - m
    } else {
        0
    }
}

} // verus!
