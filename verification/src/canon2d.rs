//! The canonical form of a 2D MOC is unique: two well-formed element lists in canonical form
//! (consecutive elements carry different second MOCs) that cover the same pairs hold the same
//! ranges, element by element.

use std::ops::Range;
use vstd::prelude::*;

use crate::moc2d::{elem_has2, elem_wf, elems_canonical, elems_has2, elems_wf, same_elems, RangeMOC2, RangeMOC2Elem};
use crate::qty::MocQty;
use crate::ranges::{lemma_has_intro, lemma_sno_unique, range_has, seq_has, sno};

verus! {

/// A value held by canonical ranges lies between the start of the first range and the end of
/// the last one.
proof fn lemma_sno_bounds(s: Seq<Range<u64>>, t: int)
    requires
        sno(s),
        seq_has(s, t),
    ensures
        s.len() > 0,
        s[0].start <= t < s.last().end,
{
    let k = choose|k: int| 0 <= k < s.len() && #[trigger] range_has(s[k], t);
    if k > 0 {
        assert(s[0].end < s[k].start);
    }
    if k < s.len() - 1 {
        assert(s[k].end < s[s.len() - 1].start);
    }
}

/// The values of the first MOC of an element come before those of any later element.
proof fn lemma_elem_sep<Q: MocQty<u64>, R: MocQty<u64>>(
    es: Seq<RangeMOC2Elem<u64, Q, u64, R>>,
    dl: u8,
    dr: u8,
    i: int,
    j: int,
    t: int,
    u: int,
)
    requires
        elems_wf(es, dl, dr),
        0 <= i < j < es.len(),
        es[i].left().has(t),
        es[j].left().has(u),
    ensures
        t < u,
{
    assert(elem_wf(es[i], dl, dr));
    assert(elem_wf(es[j], dl, dr));
    lemma_sno_bounds(es[i].left().rs(), t);
    lemma_sno_bounds(es[j].left().rs(), u);
}

/// At most one element holds a given value in its first MOC.
proof fn lemma_elem_unique<Q: MocQty<u64>, R: MocQty<u64>>(
    es: Seq<RangeMOC2Elem<u64, Q, u64, R>>,
    dl: u8,
    dr: u8,
    i: int,
    j: int,
    t: int,
)
    requires
        elems_wf(es, dl, dr),
        0 <= i < es.len(),
        0 <= j < es.len(),
        es[i].left().has(t),
        es[j].left().has(t),
    ensures
        i == j,
{
    if i < j {
        lemma_elem_sep(es, dl, dr, i, j, t, t);
    } else if j < i {
        lemma_elem_sep(es, dl, dr, j, i, t, t);
    }
}

/// The first value of the first MOC, and the first value of the second MOC, of an element.
proof fn lemma_elem_first<Q: MocQty<u64>, R: MocQty<u64>>(e: RangeMOC2Elem<u64, Q, u64, R>, dl: u8, dr: u8)
    requires
        elem_wf(e, dl, dr),
    ensures
        e.left().has(e.left().rs()[0].start as int),
        e.right().has(e.right().rs()[0].start as int),
        forall|t: int| #[trigger] e.left().has(t) ==> e.left().rs()[0].start <= t,
{
    lemma_has_intro(e.left().rs(), 0, e.left().rs()[0].start as int);
    lemma_has_intro(e.right().rs(), 0, e.right().rs()[0].start as int);
    assert forall|t: int| #[trigger] e.left().has(t) implies e.left().rs()[0].start <= t by {
        lemma_sno_bounds(e.left().rs(), t);
    }
}

/// Element `i` of `es` holds `t` in its first MOC: the second MOC of the element is the set of
/// values `s` such that `(t, s)` is covered.
proof fn lemma_column<Q: MocQty<u64>, R: MocQty<u64>>(
    es: Seq<RangeMOC2Elem<u64, Q, u64, R>>,
    dl: u8,
    dr: u8,
    i: int,
    t: int,
)
    requires
        elems_wf(es, dl, dr),
        0 <= i < es.len(),
        es[i].left().has(t),
    ensures
        forall|s: int| #[trigger] elems_has2(es, t, s) <==> es[i].right().has(s),
{
    assert forall|s: int| #[trigger] elems_has2(es, t, s) <==> es[i].right().has(s) by {
        if elems_has2(es, t, s) {
            let k = choose|k: int| 0 <= k < es.len() && #[trigger] elem_has2(es[k], t, s);
            lemma_elem_unique(es, dl, dr, i, k, t);
        }
        if es[i].right().has(s) {
            assert(elem_has2(es[i], t, s));
        }
    }
}

/// Canonical forms are unique: two lists of well-formed elements of the same depths, both in
/// canonical form, that cover the same pairs hold the same ranges, element by element.
pub proof fn lemma_canonical_unique<Q: MocQty<u64>, R: MocQty<u64>>(
    a: Seq<RangeMOC2Elem<u64, Q, u64, R>>,
    b: Seq<RangeMOC2Elem<u64, Q, u64, R>>,
    dl: u8,
    dr: u8,
)
    requires
        elems_wf(a, dl, dr),
        elems_wf(b, dl, dr),
        elems_canonical(a),
        elems_canonical(b),
        forall|t: int, s: int| #[trigger] elems_has2(a, t, s) <==> elems_has2(b, t, s),
    ensures
        same_elems(a, b),
    decreases a.len() + b.len(),
{
    if a.len() == 0 || b.len() == 0 {
        if a.len() > 0 {
            lemma_elem_first(a[0], dl, dr);
            let t = a[0].left().rs()[0].start as int;
            let s = a[0].right().rs()[0].start as int;
            assert(elem_has2(a[0], t, s));
            assert(elems_has2(a, t, s));
            assert(elems_has2(b, t, s));
        }
        if b.len() > 0 {
            lemma_elem_first(b[0], dl, dr);
            let t = b[0].left().rs()[0].start as int;
            let s = b[0].right().rs()[0].start as int;
            assert(elem_has2(b[0], t, s));
            assert(elems_has2(a, t, s));
        }
        return;
    }
    let a0 = a[0];
    let b0 = b[0];
    assert(elem_wf(a0, dl, dr));
    assert(elem_wf(b0, dl, dr));
    lemma_elem_first(a0, dl, dr);
    lemma_elem_first(b0, dl, dr);
    let ta = a0.left().rs()[0].start as int;
    let tb = b0.left().rs()[0].start as int;
    let sa = a0.right().rs()[0].start as int;
    let sb = b0.right().rs()[0].start as int;
    // The first covered value of the first quantity is the same in both lists.
    assert(ta == tb) by {
        assert(elem_has2(a0, ta, sa));
        assert(elems_has2(a, ta, sa));
        assert(elems_has2(b, ta, sa));
        let j = choose|j: int| 0 <= j < b.len() && #[trigger] elem_has2(b[j], ta, sa);
        if j > 0 {
            lemma_elem_sep(b, dl, dr, 0, j, tb, ta);
        }
        assert(elem_has2(b0, tb, sb));
        assert(elems_has2(a, tb, sb));
        let i = choose|i: int| 0 <= i < a.len() && #[trigger] elem_has2(a[i], tb, sb);
        if i > 0 {
            lemma_elem_sep(a, dl, dr, 0, i, ta, tb);
        }
    }
    // Same second MOC for the first elements.
    lemma_column(a, dl, dr, 0, ta);
    lemma_column(b, dl, dr, 0, ta);
    assert forall|s: int| #[trigger] seq_has(a0.right().rs(), s) <==> seq_has(b0.right().rs(), s) by {
        assert(elems_has2(a, ta, s) <==> a0.right().has(s));
        assert(elems_has2(b, ta, s) <==> b0.right().has(s));
    }
    lemma_sno_unique(a0.right().rs(), b0.right().rs());
    // Same first MOC for the first elements.
    assert forall|t: int| a0.left().has(t) implies #[trigger] b0.left().has(t) by {
        lemma_first_holds(a, b, dl, dr, t);
    }
    assert forall|t: int| b0.left().has(t) implies #[trigger] a0.left().has(t) by {
        lemma_first_holds(b, a, dl, dr, t);
    }
    assert forall|t: int| #[trigger] seq_has(a0.left().rs(), t) <==> seq_has(b0.left().rs(), t) by {
        if a0.left().has(t) {
            assert(b0.left().has(t));
        }
        if b0.left().has(t) {
            assert(a0.left().has(t));
        }
    }
    lemma_sno_unique(a0.left().rs(), b0.left().rs());
    // The remaining elements.
    let a1 = a.subrange(1, a.len() as int);
    let b1 = b.subrange(1, b.len() as int);
    lemma_tail(a, dl, dr);
    lemma_tail(b, dl, dr);
    assert forall|t: int, s: int| #[trigger] elems_has2(a1, t, s) <==> elems_has2(b1, t, s) by {
        assert(elems_has2(a1, t, s) <==> (elems_has2(a, t, s) && !a0.left().has(t)));
        assert(elems_has2(b1, t, s) <==> (elems_has2(b, t, s) && !b0.left().has(t)));
        assert(a0.left().has(t) <==> b0.left().has(t));
    }
    lemma_canonical_unique(a1, b1, dl, dr);
    assert forall|i: int| 0 <= i < a.len() implies #[trigger] a[i].left().rs() == b[i].left().rs() && a[i].right().rs()
        == b[i].right().rs() by {
        if i > 0 {
            assert(a1[i - 1] == a[i]);
            assert(b1[i - 1] == b[i]);
        }
    }
}

/// The tail of a well-formed canonical list is well-formed and canonical, and covers the pairs
/// of the list whose first value is not in the first element.
proof fn lemma_tail<Q: MocQty<u64>, R: MocQty<u64>>(es: Seq<RangeMOC2Elem<u64, Q, u64, R>>, dl: u8, dr: u8)
    requires
        elems_wf(es, dl, dr),
        elems_canonical(es),
        es.len() > 0,
    ensures
        elems_wf(es.subrange(1, es.len() as int), dl, dr),
        elems_canonical(es.subrange(1, es.len() as int)),
        forall|t: int, s: int|
            #[trigger] elems_has2(es.subrange(1, es.len() as int), t, s) <==> (elems_has2(es, t, s) && !es[0].left().has(
                t,
            )),
{
    let e1 = es.subrange(1, es.len() as int);
    assert forall|i: int| 0 <= i < e1.len() implies elem_wf(#[trigger] e1[i], dl, dr) by {
        assert(e1[i] == es[i + 1]);
    }
    assert forall|i: int, j: int| 0 <= i < j < e1.len() implies (#[trigger] e1[i]).left().rs().last().end <= (
    #[trigger] e1[j]).left().rs()[0].start by {
        assert(e1[i] == es[i + 1]);
        assert(e1[j] == es[j + 1]);
    }
    assert forall|i: int| 0 <= i && i + 1 < e1.len() implies (#[trigger] e1[i]).right().rs() != e1[i + 1].right().rs() by {
        assert(e1[i] == es[i + 1]);
        assert(e1[i + 1] == es[i + 2]);
    }
    assert forall|t: int, s: int| #[trigger] elems_has2(e1, t, s) <==> (elems_has2(es, t, s) && !es[0].left().has(t)) by {
        if elems_has2(e1, t, s) {
            let k = choose|k: int| 0 <= k < e1.len() && #[trigger] elem_has2(e1[k], t, s);
            assert(e1[k] == es[k + 1]);
            assert(elem_has2(es[k + 1], t, s));
            if es[0].left().has(t) {
                lemma_elem_unique(es, dl, dr, 0, k + 1, t);
            }
        }
        if elems_has2(es, t, s) && !es[0].left().has(t) {
            let k = choose|k: int| 0 <= k < es.len() && #[trigger] elem_has2(es[k], t, s);
            assert(k > 0);
            assert(e1[k - 1] == es[k]);
            assert(elem_has2(e1[k - 1], t, s));
        }
    }
}

/// In two canonical lists covering the same pairs, whose first elements start at the same value
/// with the same second MOC, a value of the first MOC of the first element of `a` is in the
/// first MOC of the first element of `b`.
proof fn lemma_first_holds<Q: MocQty<u64>, R: MocQty<u64>>(
    a: Seq<RangeMOC2Elem<u64, Q, u64, R>>,
    b: Seq<RangeMOC2Elem<u64, Q, u64, R>>,
    dl: u8,
    dr: u8,
    t: int,
)
    requires
        elems_wf(a, dl, dr),
        elems_wf(b, dl, dr),
        elems_canonical(b),
        a.len() > 0,
        b.len() > 0,
        forall|t: int, s: int| #[trigger] elems_has2(a, t, s) <==> elems_has2(b, t, s),
        a[0].left().rs()[0].start == b[0].left().rs()[0].start,
        a[0].right().rs() == b[0].right().rs(),
        a[0].left().has(t),
    ensures
        b[0].left().has(t),
{
    let a0 = a[0];
    let b0 = b[0];
    assert(elem_wf(a0, dl, dr));
    assert(elem_wf(b0, dl, dr));
    lemma_elem_first(a0, dl, dr);
    lemma_elem_first(b0, dl, dr);
    let s0 = a0.right().rs()[0].start as int;
    assert(elem_has2(a0, t, s0));
    assert(elems_has2(a, t, s0));
    assert(elems_has2(b, t, s0));
    let j = choose|j: int| 0 <= j < b.len() && #[trigger] elem_has2(b[j], t, s0);
    if j > 0 {
        // The element `b[1]` starts within the first element of `a`, so its second MOC is the
        // second MOC of `a[0]`, that is the one of `b[0]`: not canonical.
        let b1 = b[1];
        assert(elem_wf(b1, dl, dr));
        lemma_elem_first(b1, dl, dr);
        let u = b1.left().rs()[0].start as int;
        if j > 1 {
            lemma_elem_sep(b, dl, dr, 1, j, u, t);
        }
        assert(u <= t);
        let s1 = b1.right().rs()[0].start as int;
        assert(elem_has2(b1, u, s1));
        assert(elems_has2(a, u, s1));
        let k = choose|k: int| 0 <= k < a.len() && #[trigger] elem_has2(a[k], u, s1);
        if k > 0 {
            lemma_elem_sep(a, dl, dr, 0, k, t, u);
        }
        assert(k == 0);
        lemma_column(a, dl, dr, 0, u);
        lemma_column(b, dl, dr, 1, u);
        assert forall|s: int| #[trigger] seq_has(b1.right().rs(), s) <==> seq_has(b0.right().rs(), s) by {
            assert(elems_has2(a, u, s) <==> a0.right().has(s));
            assert(elems_has2(b, u, s) <==> b1.right().has(s));
        }
        assert(elem_wf(b1, dl, dr));
        lemma_sno_unique(b1.right().rs(), b0.right().rs());
        assert(b[0].right().rs() != b[1].right().rs());
    }
}

/// Two well-formed 2D MOCs in canonical form, of the same depths, that cover the same pairs
/// hold the same elements, range by range.
pub proof fn law_canonical2_unique<Q: MocQty<u64>, R: MocQty<u64>>(
    a: RangeMOC2<u64, Q, u64, R>,
    b: RangeMOC2<u64, Q, u64, R>,
)
    requires
        a.wf(),
        b.wf(),
        a.is_canonical(),
        b.is_canonical(),
        a.dl() == b.dl(),
        a.dr() == b.dr(),
        forall|t: int, s: int| #[trigger] a.has2(t, s) <==> b.has2(t, s),
    ensures
        a.same_as(&b),
{
    assert forall|t: int, s: int| #[trigger] elems_has2(a.es(), t, s) <==> elems_has2(b.es(), t, s) by {
        assert(a.has2(t, s) <==> b.has2(t, s));
    }
    lemma_canonical_unique(a.es(), b.es(), a.dl(), a.dr());
}

/// `r` is what [`RangeMOC2::or`] returns for `a` and `b`.
pub open spec fn is_union2<Q: MocQty<u64>, R: MocQty<u64>>(
    a: RangeMOC2<u64, Q, u64, R>,
    b: RangeMOC2<u64, Q, u64, R>,
    r: RangeMOC2<u64, Q, u64, R>,
) -> bool {
    &&& r.wf()
    &&& r.is_canonical()
    &&& r.dl() == if a.dl() >= b.dl() { a.dl() } else { b.dl() }
    &&& r.dr() == if a.dr() >= b.dr() { a.dr() } else { b.dr() }
    &&& forall|t: int, s: int| #[trigger] r.has2(t, s) <==> (a.has2(t, s) || b.has2(t, s))
}

/// The union of 2D MOCs is commutative: `a.or(&b)` and `b.or(&a)` hold the same elements.
pub proof fn law_union2_commutative<Q: MocQty<u64>, R: MocQty<u64>>(
    a: RangeMOC2<u64, Q, u64, R>,
    b: RangeMOC2<u64, Q, u64, R>,
    ab: RangeMOC2<u64, Q, u64, R>,
    ba: RangeMOC2<u64, Q, u64, R>,
)
    requires
        a.wf(),
        b.wf(),
        is_union2(a, b, ab),
        is_union2(b, a, ba),
    ensures
        ab.same_as(&ba),
{
    assert forall|t: int, s: int| #[trigger] ab.has2(t, s) <==> ba.has2(t, s) by {
        assert(ab.has2(t, s) <==> (a.has2(t, s) || b.has2(t, s)));
        assert(ba.has2(t, s) <==> (b.has2(t, s) || a.has2(t, s)));
    }
    law_canonical2_unique(ab, ba);
}

/// The union of an empty 2D MOC, of depths not above those of `a`, with a 2D MOC `a` in
/// canonical form holds exactly the elements of `a`.
pub proof fn law_union2_empty<Q: MocQty<u64>, R: MocQty<u64>>(
    e: RangeMOC2<u64, Q, u64, R>,
    a: RangeMOC2<u64, Q, u64, R>,
    r: RangeMOC2<u64, Q, u64, R>,
)
    requires
        e.wf(),
        e.es().len() == 0,
        e.dl() <= a.dl(),
        e.dr() <= a.dr(),
        a.wf(),
        a.is_canonical(),
        is_union2(e, a, r),
    ensures
        r.same_as(&a),
{
    assert forall|t: int, s: int| #[trigger] r.has2(t, s) <==> a.has2(t, s) by {
        assert(r.has2(t, s) <==> (e.has2(t, s) || a.has2(t, s)));
        if e.has2(t, s) {
            let k = choose|k: int| 0 <= k < e.es().len() && #[trigger] elem_has2(e.es()[k], t, s);
        }
    }
    law_canonical2_unique(r, a);
}

} // verus!
