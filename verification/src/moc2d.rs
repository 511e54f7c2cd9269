//! Two-dimensional MOCs (e.g. Space-Time MOCs): a list of elements, each made of a MOC on the
//! first quantity associated to a MOC on the second quantity.
//! A pair `(t, s)` is covered when an element has `t` in its first MOC and `s` in its second
//! MOC.

use std::ops::Range;
use vstd::prelude::*;

use crate::moc::{
    aligned, cell_len, ends_le, lemma_seq_aligned_deeper, NonOverlapping, RangeMOC, ZSorted,
};
use crate::qty::MocQty;
use crate::ranges::{
    lemma_contains_range_set, lemma_has_extend_last, lemma_has_intro, lemma_has_push, range_has,
    seq_has, sno, spec_contains_range, BoolOp, Ranges,
};

verus! {

/// Returns the maximum depths of the two quantities of the implementor.
pub trait HasTwoMaxDepth {
    fn depth_max_1(&self) -> u8;

    fn depth_max_2(&self) -> u8;
}

/// Commodity trait containing all MOC2 properties.
pub trait MOC2Properties: HasTwoMaxDepth + ZSorted + NonOverlapping {}

/// Non-empty ranges, sorted, that do not overlap (consecutive ranges may touch).
pub open spec fn segs_ok(s: Seq<Range<u64>>) -> bool {
    &&& forall|k: int| 0 <= k < s.len() ==> (#[trigger] s[k]).start < s[k].end
    &&& forall|i: int, j: int| 0 <= i < j < s.len() ==> (#[trigger] s[i]).end <= (#[trigger] s[j]).start
}

/// In sorted, non-overlapping ranges whose ranges before `i` end at or before `pos` and whose
/// range `i` (if any) ends after `pos`, the only range that may hold a value of `[pos, next[`
/// is the range `i`, and it holds all of them when `inside`.
pub proof fn lemma_seg_point(s: Seq<Range<u64>>, i: int, pos: int, next: int, inside: bool)
    requires
        segs_ok(s),
        0 <= i <= s.len(),
        forall|k: int| 0 <= k < i ==> (#[trigger] s[k]).end <= pos,
        i < s.len() ==> s[i].end > pos,
        i == s.len() ==> !inside,
        i < s.len() ==> inside == (s[i].start <= pos),
        i < s.len() && inside ==> next <= s[i].end,
        i < s.len() && !inside ==> next <= s[i].start,
    ensures
        forall|k: int, x: int|
            0 <= k < s.len() && pos <= x < next && #[trigger] range_has(s[k], x) ==> k == i && inside,
        forall|x: int| inside && pos <= x < next ==> #[trigger] range_has(s[i], x),
{
    assert forall|k: int, x: int|
        0 <= k < s.len() && pos <= x < next && #[trigger] range_has(s[k], x) implies k == i && inside by {
        if k > i {
            assert(s[i].end <= s[k].start);
        }
    }
}

/// One element of a MOC2: a MOC on the first quantity and a MOC on the second quantity.
#[derive(Debug, PartialEq)]
pub struct RangeMOC2Elem<T, Q, U, R> {
    moc_l: RangeMOC<T, Q>,
    moc_r: RangeMOC<U, R>,
}

/// The element covers `(t, s)`.
pub open spec fn elem_has2<Q: MocQty<u64>, R: MocQty<u64>>(
    e: RangeMOC2Elem<u64, Q, u64, R>,
    t: int,
    s: int,
) -> bool {
    e.left().has(t) && e.right().has(s)
}

/// One of the elements covers `(t, s)`.
pub open spec fn elems_has2<Q: MocQty<u64>, R: MocQty<u64>>(
    es: Seq<RangeMOC2Elem<u64, Q, u64, R>>,
    t: int,
    s: int,
) -> bool {
    exists|i: int| 0 <= i < es.len() && #[trigger] elem_has2(es[i], t, s)
}

/// Both MOCs of the element are well-formed, non-empty and of the given depths.
pub open spec fn elem_wf<Q: MocQty<u64>, R: MocQty<u64>>(
    e: RangeMOC2Elem<u64, Q, u64, R>,
    dl: u8,
    dr: u8,
) -> bool {
    &&& e.left().wf()
    &&& e.left().depth() == dl
    &&& e.left().rs().len() > 0
    &&& e.right().wf()
    &&& e.right().depth() == dr
    &&& e.right().rs().len() > 0
}

/// Well-formed elements of the given depths, whose first MOCs follow each other.
pub open spec fn elems_wf<Q: MocQty<u64>, R: MocQty<u64>>(
    es: Seq<RangeMOC2Elem<u64, Q, u64, R>>,
    dl: u8,
    dr: u8,
) -> bool {
    &&& forall|i: int| 0 <= i < es.len() ==> elem_wf(#[trigger] es[i], dl, dr)
    &&& forall|i: int, j: int|
        0 <= i < j < es.len() ==> (#[trigger] es[i]).left().rs().last().end <= (
        #[trigger] es[j]).left().rs()[0].start
}

/// Canonical form: two consecutive elements never carry the same second MOC (pieces of the
/// first quantity sharing a second MOC are grouped in a single element).
pub open spec fn elems_canonical<Q: MocQty<u64>, R: MocQty<u64>>(es: Seq<RangeMOC2Elem<u64, Q, u64, R>>) -> bool {
    forall|i: int| 0 <= i && i + 1 < es.len() ==> (#[trigger] es[i]).right().rs() != es[i + 1].right().rs()
}

/// The two element sequences hold the same ranges, element by element.
pub open spec fn same_elems<Q: MocQty<u64>, R: MocQty<u64>>(
    a: Seq<RangeMOC2Elem<u64, Q, u64, R>>,
    b: Seq<RangeMOC2Elem<u64, Q, u64, R>>,
) -> bool {
    &&& a.len() == b.len()
    &&& forall|i: int|
        #![trigger a[i]]
        #![trigger b[i]]
        0 <= i < a.len() ==> a[i].left().rs() == b[i].left().rs() && a[i].right().rs() == b[i].right().rs()
}

pub(crate) proof fn lemma_elems_has2_push<Q: MocQty<u64>, R: MocQty<u64>>(
    es: Seq<RangeMOC2Elem<u64, Q, u64, R>>,
    e: RangeMOC2Elem<u64, Q, u64, R>,
)
    ensures
        forall|t: int, s: int|
            #[trigger] elems_has2(es.push(e), t, s) <==> (elems_has2(es, t, s) || elem_has2(e, t, s)),
{
    let es2 = es.push(e);
    assert forall|t: int, s: int| #[trigger]
        elems_has2(es2, t, s) <==> (elems_has2(es, t, s) || elem_has2(e, t, s)) by {
        if elems_has2(es2, t, s) {
            let i = choose|i: int| 0 <= i < es2.len() && #[trigger] elem_has2(es2[i], t, s);
            if i < es.len() {
                assert(elem_has2(es[i], t, s));
            }
        }
        if elems_has2(es, t, s) {
            let i = choose|i: int| 0 <= i < es.len() && #[trigger] elem_has2(es[i], t, s);
            assert(elem_has2(es2[i], t, s));
        }
        if elem_has2(e, t, s) {
            assert(elem_has2(es2[es.len() as int], t, s));
        }
    }
}

/// Total number of ranges of the elements, in both dimensions.
pub open spec fn n_ranges_sum<Q: MocQty<u64>, R: MocQty<u64>>(es: Seq<RangeMOC2Elem<u64, Q, u64, R>>) -> int
    decreases es.len(),
{
    if es.len() == 0 {
        0
    } else {
        n_ranges_sum(es.drop_last()) + es.last().left().rs().len() + es.last().right().rs().len()
    }
}

/// The total of a prefix is at most the total.
proof fn lemma_n_ranges_sum_prefix<Q: MocQty<u64>, R: MocQty<u64>>(es: Seq<RangeMOC2Elem<u64, Q, u64, R>>, k: int)
    requires
        0 <= k <= es.len(),
    ensures
        n_ranges_sum(es.take(k)) <= n_ranges_sum(es),
    decreases es.len() - k,
{
    if k < es.len() {
        lemma_n_ranges_sum_prefix(es, k + 1);
        assert(es.take(k + 1).drop_last() =~= es.take(k));
    } else {
        assert(es.take(k) =~= es);
    }
}

impl<Q: MocQty<u64>, R: MocQty<u64>> RangeMOC2Elem<u64, Q, u64, R> {
    /// The MOC on the first quantity.
    pub closed spec fn left(&self) -> RangeMOC<u64, Q> {
        self.moc_l
    }

    /// The MOC on the second quantity.
    pub closed spec fn right(&self) -> RangeMOC<u64, R> {
        self.moc_r
    }

    pub fn new(moc_l: RangeMOC<u64, Q>, moc_r: RangeMOC<u64, R>) -> (r: Self)
        ensures
            r.left() == moc_l,
            r.right() == moc_r,
    {
        RangeMOC2Elem { moc_l, moc_r }
    }

    /// Returns the number of ranges in the first dimension
    pub fn n_ranges_1(&self) -> (r: usize)
        ensures
            r == self.left().rs().len(),
    {
        self.moc_l.len()
    }

    /// Returns the number of ranges in the second dimension
    pub fn n_ranges_2(&self) -> (r: usize)
        ensures
            r == self.right().rs().len(),
    {
        self.moc_r.len()
    }

    /// Returns the number of ranges in both quantities
    pub fn n_ranges(&self) -> (r: u64)
        requires
            self.left().rs().len() + self.right().rs().len() <= u64::MAX,
        ensures
            r == self.left().rs().len() + self.right().rs().len(),
    {
        self.n_ranges_1() as u64 + self.n_ranges_2() as u64
    }

    pub fn mocs(self) -> (r: (RangeMOC<u64, Q>, RangeMOC<u64, R>))
        ensures
            r.0 == self.left(),
            r.1 == self.right(),
    {
        (self.moc_l, self.moc_r)
    }

    /// Borrows the MOC on the first quantity.
    pub fn moc_l(&self) -> (r: &RangeMOC<u64, Q>)
        ensures
            *r == self.left(),
    {
        &self.moc_l
    }

    /// Borrows the MOC on the second quantity.
    pub fn moc_r(&self) -> (r: &RangeMOC<u64, R>)
        ensures
            *r == self.right(),
    {
        &self.moc_r
    }

    pub fn first_index_left(&self) -> (r: Option<u64>)
        ensures
            self.left().rs().len() == 0 ==> r.is_none(),
            self.left().rs().len() > 0 ==> r == Some(self.left().rs()[0].start),
    {
        self.moc_l.first_index()
    }

    pub fn last_index_left(&self) -> (r: Option<u64>)
        ensures
            self.left().rs().len() == 0 ==> r.is_none(),
            self.left().rs().len() > 0 ==> r == Some(self.left().rs().last().end),
    {
        self.moc_l.last_index()
    }

    /// The values are the values at the deepest resolution of each quantity.
    pub fn contains_val(&self, val_left: &u64, val_right: &u64) -> (r: bool)
        requires
            self.left().wf(),
            self.right().wf(),
        ensures
            r == elem_has2(*self, *val_left as int, *val_right as int),
    {
        self.moc_l.contains_val(val_left) && self.moc_r.contains_val(val_right)
    }
}

/// A MOC2 made of Range elements.
#[derive(Debug, PartialEq)]
pub struct RangeMOC2<T, Q, U, R> {
    depth_max_l: u8,
    depth_max_r: u8,
    elems: Vec<RangeMOC2Elem<T, Q, U, R>>,
}

impl<Q: MocQty<u64>, R: MocQty<u64>> RangeMOC2<u64, Q, u64, R> {
    /// Depth of the first quantity.
    pub closed spec fn dl(&self) -> u8 {
        self.depth_max_l
    }

    /// Depth of the second quantity.
    pub closed spec fn dr(&self) -> u8 {
        self.depth_max_r
    }

    /// The elements.
    pub closed spec fn es(&self) -> Seq<RangeMOC2Elem<u64, Q, u64, R>> {
        self.elems@
    }

    pub open spec fn wf(&self) -> bool {
        &&& self.dl() <= Q::MAX_DEPTH
        &&& self.dr() <= R::MAX_DEPTH
        &&& elems_wf(self.es(), self.dl(), self.dr())
    }

    /// `(t, s)` is covered by the MOC2.
    pub open spec fn has2(&self, t: int, s: int) -> bool {
        elems_has2(self.es(), t, s)
    }

    /// Consecutive elements carry different second MOCs.
    pub open spec fn is_canonical(&self) -> bool {
        elems_canonical(self.es())
    }

    /// Same depths and same elements, range by range.
    pub open spec fn same_as(&self, other: &Self) -> bool {
        &&& self.dl() == other.dl()
        &&& self.dr() == other.dr()
        &&& same_elems(self.es(), other.es())
    }

    /// The depths are bounded by the maximum depths of the quantities.
    pub fn new(depth_max_l: u8, depth_max_r: u8, elems: Vec<RangeMOC2Elem<u64, Q, u64, R>>) -> (r: Self)
        requires
            elems_wf(
                elems@,
                if depth_max_l <= Q::MAX_DEPTH { depth_max_l } else { Q::MAX_DEPTH },
                if depth_max_r <= R::MAX_DEPTH { depth_max_r } else { R::MAX_DEPTH },
            ),
        ensures
            r.wf(),
            r.dl() == if depth_max_l <= Q::MAX_DEPTH { depth_max_l } else { Q::MAX_DEPTH },
            r.dr() == if depth_max_r <= R::MAX_DEPTH { depth_max_r } else { R::MAX_DEPTH },
            r.es() == elems@,
    {
        let dl = if depth_max_l <= Q::MAX_DEPTH { depth_max_l } else { Q::MAX_DEPTH };
        let dr = if depth_max_r <= R::MAX_DEPTH { depth_max_r } else { R::MAX_DEPTH };
        RangeMOC2 { depth_max_l: dl, depth_max_r: dr, elems }
    }

    /// The total number of ranges of the elements, in both dimensions.
    pub fn compute_n_ranges(&self) -> (r: u64)
        requires
            n_ranges_sum(self.es()) <= u64::MAX,
        ensures
            r == n_ranges_sum(self.es()),
    {
        let es = &self.elems;
        let mut total: u64 = 0;
        let mut i: usize = 0;
        while i < es.len()
            invariant
                es@ == self.es(),
                i <= es@.len(),
                total == n_ranges_sum(es@.take(i as int)),
                n_ranges_sum(es@) <= u64::MAX,
            decreases es@.len() - i,
        {
            proof {
                assert(es@.take(i + 1).drop_last() =~= es@.take(i as int));
                lemma_n_ranges_sum_prefix(es@, i + 1);
            }
            total = total + es[i].n_ranges();
            i = i + 1;
        }
        proof {
            assert(es@.take(es@.len() as int) =~= es@);
        }
        total
    }

    /// An empty MOC2.
    pub fn new_empty(depth_l: u8, depth_r: u8) -> (r: Self)
        ensures
            r.wf(),
            r.dl() == if depth_l <= Q::MAX_DEPTH { depth_l } else { Q::MAX_DEPTH },
            r.dr() == if depth_r <= R::MAX_DEPTH { depth_r } else { R::MAX_DEPTH },
            r.es().len() == 0,
    {
        Self::new(depth_l, depth_r, Vec::new())
    }

    pub fn is_empty(&self) -> (r: bool)
        ensures
            r == (self.es().len() == 0),
    {
        self.elems.len() == 0
    }

    /// Number of elements.
    pub fn len(&self) -> (r: usize)
        ensures
            r == self.es().len(),
    {
        self.elems.len()
    }

    /// Borrows the elements.
    pub fn elems(&self) -> (r: &Vec<RangeMOC2Elem<u64, Q, u64, R>>)
        ensures
            r@ == self.es(),
    {
        &self.elems
    }

    /// Smallest value of the first quantity.
    pub fn min_index_left(&self) -> (r: Option<u64>)
        requires
            self.wf(),
        ensures
            self.es().len() == 0 ==> r.is_none(),
            self.es().len() > 0 ==> r == Some(self.es()[0].left().rs()[0].start),
    {
        if self.elems.len() == 0 {
            None
        } else {
            proof {
                assert(elem_wf(self.es()[0], self.dl(), self.dr()));
            }
            self.elems[0].first_index_left()
        }
    }

    /// Upper bound (exclusive) of the values of the first quantity.
    pub fn max_index_left(&self) -> (r: Option<u64>)
        requires
            self.wf(),
        ensures
            self.es().len() == 0 ==> r.is_none(),
            self.es().len() > 0 ==> r == Some(self.es().last().left().rs().last().end),
    {
        let n = self.elems.len();
        if n == 0 {
            None
        } else {
            proof {
                assert(elem_wf(self.es()[n - 1], self.dl(), self.dr()));
            }
            self.elems[n - 1].last_index_left()
        }
    }

    /// The range from the first to the last value of the first quantity, if any.
    pub fn global_range_left(&self) -> (r: Option<Range<u64>>)
        requires
            self.wf(),
        ensures
            self.es().len() == 0 ==> r.is_none(),
            self.es().len() > 0 ==> r == Some(
                Range { start: self.es()[0].left().rs()[0].start, end: self.es().last().left().rs().last().end },
            ),
    {
        match (self.min_index_left(), self.max_index_left()) {
            (Some(min), Some(max)) => Some(Range { start: min, end: max }),
            _ => None,
        }
    }
}

/// Some range of `sr` holds `t` and the second MOC of the element it comes from holds `s`.
pub open spec fn flat_has2<Q: MocQty<u64>, R: MocQty<u64>>(
    sr: Seq<Range<u64>>,
    se: Seq<usize>,
    es: Seq<RangeMOC2Elem<u64, Q, u64, R>>,
    t: int,
    s: int,
) -> bool {
    exists|k: int| 0 <= k < sr.len() && #[trigger] range_has(sr[k], t) && es[se[k] as int].right().has(s)
}

impl<Q: MocQty<u64>, R: MocQty<u64>> RangeMOC2<u64, Q, u64, R> {
    /// The first-quantity ranges of all the elements, in order, each with the index of the
    /// element it comes from.
    fn flatten(&self) -> (res: (Vec<Range<u64>>, Vec<usize>))
        requires
            self.wf(),
        ensures
            res.0@.len() == res.1@.len(),
            segs_ok(res.0@),
            forall|k: int| 0 <= k < res.1@.len() ==> (#[trigger] res.1@[k]) < self.es().len(),
            ends_le(res.0@, Q::spec_n_cells_max()),
            aligned(res.0@, cell_len::<Q>(self.dl() as int)),
            forall|t: int, s: int|
                #[trigger] self.has2(t, s) <==> flat_has2(res.0@, res.1@, self.es(), t, s),
    {
        let n = self.elems.len();
        let mut sr: Vec<Range<u64>> = Vec::new();
        let mut se: Vec<usize> = Vec::new();
        let ghost mut gm: Seq<int> = Seq::empty();
        let ghost mut base: Seq<int> = Seq::empty();
        let ghost es = self.es();
        let mut i: usize = 0;
        while i < n
            invariant
                n == es.len(),
                es == self.es(),
                self.wf(),
                i <= n,
                sr@.len() == se@.len(),
                sr@.len() == gm.len(),
                base.len() == i,
                segs_ok(sr@),
                forall|k: int| 0 <= k < se@.len() ==> (#[trigger] se@[k]) < i,
                forall|k: int|
                    0 <= k < sr@.len() ==> 0 <= #[trigger] gm[k] < es[se@[k] as int].left().rs().len()
                        && sr@[k] == es[se@[k] as int].left().rs()[gm[k]],
                forall|e: int| 0 <= e < i ==> 0 <= #[trigger] base[e] && base[e] + es[e].left().rs().len() <= sr@.len(),
                forall|e: int, m: int|
                    #![trigger es[e].left().rs()[m]]
                    0 <= e < i && 0 <= m < es[e].left().rs().len() ==> sr@[base[e] + m] == es[e].left().rs()[m]
                        && se@[base[e] + m] == e,
                i > 0 ==> sr@.len() > 0 && sr@.last() == es[i - 1].left().rs().last(),
                i == 0 ==> sr@.len() == 0,
            decreases n - i,
        {
            let v = &self.elems[i].moc_l().moc_ranges().0;
            let m_len = v.len();
            proof {
                assert(elem_wf(es[i as int], self.dl(), self.dr()));
                let old_base = base;
                base = base.push(sr@.len() as int);
                assert forall|e: int| 0 <= e < i implies #[trigger] base[e] == old_base[e] by {}
            }
            let ghost b = sr@.len() as int;
            let mut j: usize = 0;
            while j < m_len
                invariant
                    n == es.len(),
                    es == self.es(),
                    self.wf(),
                    i < n,
                    v@ == es[i as int].left().rs(),
                    m_len == v@.len(),
                    sno(v@),
                    m_len > 0,
                    j <= m_len,
                    b == base[i as int],
                    base.len() == i + 1,
                    sr@.len() == b + j,
                    sr@.len() == se@.len(),
                    sr@.len() == gm.len(),
                    segs_ok(sr@),
                    forall|k: int| 0 <= k < se@.len() ==> (#[trigger] se@[k]) <= i,
                    forall|k: int|
                        0 <= k < sr@.len() ==> 0 <= #[trigger] gm[k] < es[se@[k] as int].left().rs().len()
                            && sr@[k] == es[se@[k] as int].left().rs()[gm[k]],
                    forall|e: int| 0 <= e < i ==> 0 <= #[trigger] base[e] && base[e] + es[e].left().rs().len() <= sr@.len(),
                    forall|e: int, m: int|
                        #![trigger es[e].left().rs()[m]]
                        0 <= e < i && 0 <= m < es[e].left().rs().len() ==> sr@[base[e] + m] == es[e].left().rs()[m]
                            && se@[base[e] + m] == e,
                    forall|m: int| 0 <= m < j ==> #[trigger] sr@[b + m] == v@[m] && se@[b + m] == i,
                    0 <= b,
                    j > 0 ==> sr@.last() == v@[j - 1],
                    j == 0 && i > 0 ==> sr@.len() > 0 && sr@.last() == es[i - 1].left().rs().last(),
                    j == 0 && i == 0 ==> sr@.len() == 0,
                decreases m_len - j,
            {
                let r = Range { start: v[j].start, end: v[j].end };
                proof {
                    if sr@.len() > 0 {
                        if j > 0 {
                            assert(v@[j - 1].end < v@[j as int].start);
                        } else {
                            assert(es[i - 1].left().rs().last().end <= es[i as int].left().rs()[0].start);
                        }
                    }
                }
                let ghost old_sr = sr@;
                let ghost old_se = se@;
                sr.push(r);
                se.push(i);
                proof {
                    gm = gm.push(j as int);
                    assert(sr@ == old_sr.push(r));
                    assert(se@ == old_se.push(i));
                    assert forall|a: int, c: int| 0 <= a < c < sr@.len() implies (#[trigger] sr@[a]).end <= (#[trigger] sr@[c]).start by {
                        if c == sr@.len() - 1 && a < c - 1 {
                            assert(old_sr[a].end <= old_sr[c - 1].start);
                        }
                    }
                    assert forall|e: int, m: int|
                        #![trigger es[e].left().rs()[m]]
                        0 <= e < i && 0 <= m < es[e].left().rs().len() implies sr@[base[e] + m] == es[e].left().rs()[m]
                            && se@[base[e] + m] == e by {
                        assert(0 <= base[e]);
                        assert(old_sr[base[e] + m] == es[e].left().rs()[m]);
                    }
                    assert forall|m: int| 0 <= m < j + 1 implies #[trigger] sr@[b + m] == v@[m] && se@[b + m] == i by {
                        if m < j {
                            assert(old_sr[b + m] == v@[m]);
                        }
                    }
                }
                j = j + 1;
            }
            proof {
                assert forall|e: int| 0 <= e < i + 1 implies 0 <= #[trigger] base[e] && base[e] + es[e].left().rs().len() <= sr@.len() by {}
                assert forall|e: int, m: int|
                    #![trigger es[e].left().rs()[m]]
                    0 <= e < i + 1 && 0 <= m < es[e].left().rs().len() implies sr@[base[e] + m] == es[e].left().rs()[m]
                        && se@[base[e] + m] == e by {
                    if e == i {
                        assert(v@ == es[e].left().rs());
                        assert(0 <= m < j);
                        assert(sr@[b + m] == v@[m]);
                        assert(se@[b + m] == i);
                        assert(b == base[e]);
                    }
                }
            }
            i = i + 1;
        }
        proof {
            let d = self.dl() as int;
            assert forall|k: int| 0 <= k < sr@.len() implies (#[trigger] sr@[k]).end <= Q::spec_n_cells_max()
                && sr@[k].start as int % cell_len::<Q>(d) == 0 && sr@[k].end as int % cell_len::<Q>(d) == 0 by {
                let e = se@[k] as int;
                assert(elem_wf(es[e], self.dl(), self.dr()));
                assert(sr@[k] == es[e].left().rs()[gm[k]]);
            }
            assert forall|t: int, s: int| #[trigger] self.has2(t, s) <==> flat_has2(sr@, se@, es, t, s) by {
                if self.has2(t, s) {
                    let e = choose|e: int| 0 <= e < es.len() && #[trigger] elem_has2(es[e], t, s);
                    let rs = es[e].left().rs();
                    let m = choose|m: int| 0 <= m < rs.len() && #[trigger] range_has(rs[m], t);
                    let k = base[e] + m;
                    assert(0 <= base[e]);
                    assert(sr@[k] == rs[m]);
                    assert(range_has(sr@[k], t));
                }
                if flat_has2(sr@, se@, es, t, s) {
                    let k = choose|k: int| 0 <= k < sr@.len() && #[trigger] range_has(sr@[k], t)
                        && es[se@[k] as int].right().has(s);
                    let e = se@[k] as int;
                    lemma_has_intro(es[e].left().rs(), gm[k], t);
                    assert(elem_has2(es[e], t, s));
                }
            }
        }
        (sr, se)
    }
}

/// Covered by the finished elements, or by the pending group made of the ranges `cur_t`
/// associated to `cur_s`.
pub open spec fn pend_has2<Q: MocQty<u64>, R: MocQty<u64>>(
    out: Seq<RangeMOC2Elem<u64, Q, u64, R>>,
    cur_t: Seq<Range<u64>>,
    cur_s: RangeMOC<u64, R>,
    t: int,
    s: int,
) -> bool {
    elems_has2(out, t, s) || (seq_has(cur_t, t) && cur_s.has(s))
}

/// On `[pos, next[`, the flattened ranges cover `(t, s)` exactly when `sm` holds `s`, where
/// `sm` is the second MOC of the element of the range `i` when `inside`, an empty MOC otherwise.
proof fn lemma_flat_point<Q: MocQty<u64>, R: MocQty<u64>>(
    sr: Seq<Range<u64>>,
    se: Seq<usize>,
    es: Seq<RangeMOC2Elem<u64, Q, u64, R>>,
    i: int,
    pos: int,
    next: int,
    inside: bool,
    sm: RangeMOC<u64, R>,
)
    requires
        segs_ok(sr),
        sr.len() == se.len(),
        0 <= i <= sr.len(),
        forall|k: int| 0 <= k < i ==> (#[trigger] sr[k]).end <= pos,
        i < sr.len() ==> sr[i].end > pos,
        i == sr.len() ==> !inside,
        i < sr.len() ==> inside == (sr[i].start <= pos),
        i < sr.len() && inside ==> next <= sr[i].end,
        i < sr.len() && !inside ==> next <= sr[i].start,
        inside ==> sm == es[se[i] as int].right(),
        !inside ==> sm.rs().len() == 0,
    ensures
        forall|t: int, s: int| pos <= t < next ==> (#[trigger] flat_has2(sr, se, es, t, s) <==> sm.has(s)),
{
    lemma_seg_point(sr, i, pos, next, inside);
    assert forall|t: int, s: int| pos <= t < next implies (#[trigger] flat_has2(sr, se, es, t, s) <==> sm.has(s)) by {
        if flat_has2(sr, se, es, t, s) {
            let k = choose|k: int| 0 <= k < sr.len() && #[trigger] range_has(sr[k], t) && es[se[k] as int].right().has(s);
            assert(k == i && inside);
        }
        if sm.has(s) {
            if !inside {
                let k = choose|k: int| 0 <= k < sm.rs().len() && #[trigger] range_has(sm.rs()[k], s);
            }
            assert(range_has(sr[i], t));
        }
    }
}

impl<Q: MocQty<u64>, R: MocQty<u64>> RangeMOC2<u64, Q, u64, R> {
    /// Point-wise boolean combination of two MOC2s, by a sweep over the bounds of the ranges
    /// of the first quantity. Consecutive pieces associated to the same second MOC are grouped
    /// in a single element.
    fn op2d(&self, rhs: &Self, op: BoolOp) -> (res: Self)
        requires
            self.wf(),
            rhs.wf(),
        ensures
            res.wf(),
            res.is_canonical(),
            res.dl() == if self.dl() >= rhs.dl() { self.dl() } else { rhs.dl() },
            res.dr() == if self.dr() >= rhs.dr() { self.dr() } else { rhs.dr() },
            forall|t: int, s: int| #[trigger] res.has2(t, s) <==> op.spec_apply(self.has2(t, s), rhs.has2(t, s)),
    {
        let dl = if self.depth_max_l >= rhs.depth_max_l { self.depth_max_l } else { rhs.depth_max_l };
        let dr = if self.depth_max_r >= rhs.depth_max_r { self.depth_max_r } else { rhs.depth_max_r };
        let (lr, le) = self.flatten();
        let (rr, re) = rhs.flatten();
        let nl = lr.len();
        let nr = rr.len();
        let empty_l: RangeMOC<u64, R> = RangeMOC::new_empty(self.depth_max_r);
        let empty_r: RangeMOC<u64, R> = RangeMOC::new_empty(rhs.depth_max_r);
        let mut out: Vec<RangeMOC2Elem<u64, Q, u64, R>> = Vec::new();
        let mut cur_t: Vec<Range<u64>> = Vec::new();
        let mut cur_s: RangeMOC<u64, R> = RangeMOC::new_empty(dr);
        let mut i: usize = 0;
        let mut j: usize = 0;
        let mut pos: u64 = 0;
        let ghost p = cell_len::<Q>(dl as int);
        let ghost m = Q::spec_n_cells_max();
        proof {
            lemma_seq_aligned_deeper::<Q>(lr@, self.dl() as int, dl as int);
            lemma_seq_aligned_deeper::<Q>(rr@, rhs.dl() as int, dl as int);
            crate::moc::lemma_cell_len::<Q>(dl as int, dl as int);
            Q::lemma_qty();
            vstd::arithmetic::div_mod::lemma_small_mod(0, p as nat);
        }
        while i < nl || j < nr
            invariant
                self.wf(),
                rhs.wf(),
                dl == if self.dl() >= rhs.dl() { self.dl() } else { rhs.dl() },
                dr == if self.dr() >= rhs.dr() { self.dr() } else { rhs.dr() },
                p == cell_len::<Q>(dl as int),
                p > 0,
                m == Q::spec_n_cells_max(),
                nl == lr@.len(),
                nr == rr@.len(),
                lr@.len() == le@.len(),
                rr@.len() == re@.len(),
                segs_ok(lr@),
                segs_ok(rr@),
                ends_le(lr@, m),
                ends_le(rr@, m),
                aligned(lr@, p),
                aligned(rr@, p),
                forall|k: int| 0 <= k < le@.len() ==> (#[trigger] le@[k]) < self.es().len(),
                forall|k: int| 0 <= k < re@.len() ==> (#[trigger] re@[k]) < rhs.es().len(),
                forall|t: int, s: int| #[trigger] self.has2(t, s) <==> flat_has2(lr@, le@, self.es(), t, s),
                forall|t: int, s: int| #[trigger] rhs.has2(t, s) <==> flat_has2(rr@, re@, rhs.es(), t, s),
                empty_l.wf(),
                empty_l.depth() == self.dr(),
                empty_l.rs().len() == 0,
                empty_r.wf(),
                empty_r.depth() == rhs.dr(),
                empty_r.rs().len() == 0,
                i <= nl,
                j <= nr,
                forall|k: int| 0 <= k < i ==> (#[trigger] lr@[k]).end <= pos,
                forall|k: int| 0 <= k < j ==> (#[trigger] rr@[k]).end <= pos,
                i < nl ==> lr@[i as int].end > pos,
                j < nr ==> rr@[j as int].end > pos,
                pos as int % p == 0,
                pos <= m,
                elems_wf(out@, dl, dr),
                elems_canonical(out@),
                cur_t@.len() == 0 ==> out@.len() == 0,
                cur_t@.len() > 0 && out@.len() > 0 ==> out@.last().right().rs() != cur_s.rs(),
                cur_t@.len() > 0 ==> {
                    &&& sno(cur_t@)
                    &&& aligned(cur_t@, p)
                    &&& ends_le(cur_t@, pos as int)
                    &&& cur_s.wf()
                    &&& cur_s.depth() == dr
                    &&& cur_s.rs().len() > 0
                },
                forall|a: int|
                    0 <= a < out@.len() ==> (#[trigger] out@[a]).left().rs().last().end <= (if cur_t@.len() > 0 {
                        cur_t@[0].start
                    } else {
                        pos
                    }),
                forall|t: int, s: int|
                    t < pos ==> (#[trigger] pend_has2(out@, cur_t@, cur_s, t, s) <==> op.spec_apply(
                        self.has2(t, s),
                        rhs.has2(t, s),
                    )),
                forall|t: int, s: int| t >= pos ==> !#[trigger] pend_has2(out@, cur_t@, cur_s, t, s),
            decreases u64::MAX - pos,
        {
            let in_l = i < nl && lr[i].start <= pos;
            let in_r = j < nr && rr[j].start <= pos;
            let next: u64;
            if i < nl && j < nr {
                let nxl = if in_l { lr[i].end } else { lr[i].start };
                let nxr = if in_r { rr[j].end } else { rr[j].start };
                next = if nxl <= nxr { nxl } else { nxr };
            } else if i < nl {
                next = if in_l { lr[i].end } else { lr[i].start };
            } else {
                next = if in_r { rr[j].end } else { rr[j].start };
            }
            let sl: &RangeMOC<u64, R> = if in_l {
                proof {
                    assert(elem_wf(self.es()[le@[i as int] as int], self.dl(), self.dr()));
                }
                self.elems[le[i]].moc_r()
            } else {
                &empty_l
            };
            let sr: &RangeMOC<u64, R> = if in_r {
                proof {
                    assert(elem_wf(rhs.es()[re@[j as int] as int], rhs.dl(), rhs.dr()));
                }
                rhs.elems[re[j]].moc_r()
            } else {
                &empty_r
            };
            proof {
                lemma_flat_point(lr@, le@, self.es(), i as int, pos as int, next as int, in_l, *sl);
                lemma_flat_point(rr@, re@, rhs.es(), j as int, pos as int, next as int, in_r, *sr);
                assert(next as int % p == 0 && next <= m) by {
                    if i < nl {
                        assert(lr@[i as int].start < lr@[i as int].end);
                    }
                    if j < nr {
                        assert(rr@[j as int].start < rr@[j as int].end);
                    }
                }
            }
            let sm = sl.binary_op(sr, op);
            assert(forall|t: int, s: int|
                pos <= t < next ==> (#[trigger] op.spec_apply(self.has2(t, s), rhs.has2(t, s)) <==> sm.has(s)));
            let ghost old_out = out@;
            let ghost old_t = cur_t@;
            let ghost old_s = cur_s;
            let ghost piece = Range { start: pos, end: next };
            if !sm.is_empty() {
                let n = cur_t.len();
                if n > 0 && cur_s.eq_without_depth(&sm) {
                    if cur_t[n - 1].end == pos {
                        let start = cur_t[n - 1].start;
                        proof {
                            lemma_has_extend_last(cur_t@, next);
                        }
                        cur_t.set(n - 1, Range { start, end: next });
                    } else {
                        proof {
                            lemma_has_push(cur_t@, piece);
                        }
                        cur_t.push(Range { start: pos, end: next });
                    }
                    proof {
                        assert(forall|s: int| cur_s.has(s) <==> sm.has(s));
                        assert forall|t: int| #[trigger] seq_has(cur_t@, t) <==> (seq_has(old_t, t) || pos <= t < next) by {
                            if n > 0 && old_t.last().end == pos {
                                assert(cur_t@ == old_t.update(old_t.len() - 1, Range { start: old_t.last().start, end: next }));
                            } else {
                                assert(cur_t@ == old_t.push(piece));
                            }
                        }
                        assert forall|t: int, s: int| #[trigger] pend_has2(out@, cur_t@, cur_s, t, s) <==> (pend_has2(
                            old_out, old_t, old_s, t, s) || (pos <= t < next && sm.has(s))) by {
                            assert(seq_has(cur_t@, t) <==> (seq_has(old_t, t) || pos <= t < next));
                        }
                    }
                } else {
                    if n > 0 {
                        let left: RangeMOC<u64, Q> = RangeMOC::new(dl, Ranges(cur_t));
                        out.push(RangeMOC2Elem::new(left, cur_s));
                        proof {
                            lemma_elems_has2_push(old_out, out@.last());
                        }
                    }
                    cur_t = Vec::new();
                    cur_t.push(Range { start: pos, end: next });
                    cur_s = sm;
                    proof {
                        lemma_has_push(Seq::<Range<u64>>::empty(), piece);
                        assert(cur_t@ == Seq::<Range<u64>>::empty().push(piece));
                        assert forall|t: int, s: int| #[trigger] pend_has2(out@, cur_t@, cur_s, t, s) <==> (pend_has2(
                            old_out, old_t, old_s, t, s) || (pos <= t < next && sm.has(s))) by {
                            assert(seq_has(cur_t@, t) <==> (seq_has(Seq::<Range<u64>>::empty(), t) || range_has(piece, t)));
                            if seq_has(Seq::<Range<u64>>::empty(), t) {
                                let k = choose|k: int| 0 <= k < 0 && #[trigger] range_has(Seq::<Range<u64>>::empty()[k], t);
                            }
                            if n > 0 {
                                assert(elems_has2(out@, t, s) <==> (elems_has2(old_out, t, s) || elem_has2(out@.last(), t, s)));
                                assert(out@.last().left().rs() == old_t);
                            } else {
                                assert(out@ == old_out);
                                if seq_has(old_t, t) {
                                    let k = choose|k: int| 0 <= k < old_t.len() && #[trigger] range_has(old_t[k], t);
                                }
                            }
                        }
                    }
                }
            } else {
                proof {
                    assert forall|s: int| !sm.has(s) by {
                        if sm.has(s) {
                            let k = choose|k: int| 0 <= k < sm.rs().len() && #[trigger] range_has(sm.rs()[k], s);
                        }
                    }
                }
            }
            proof {
                if sm.rs().len() == 0 {
                    assert forall|t: int, s: int| #[trigger] pend_has2(out@, cur_t@, cur_s, t, s) <==> (pend_has2(
                        old_out, old_t, old_s, t, s) || (pos <= t < next && sm.has(s))) by {}
                }
                assert forall|t: int, s: int|
                    t < next implies (#[trigger] pend_has2(out@, cur_t@, cur_s, t, s) <==> op.spec_apply(
                        self.has2(t, s),
                        rhs.has2(t, s),
                    )) by {
                    assert(pend_has2(out@, cur_t@, cur_s, t, s) <==> (pend_has2(old_out, old_t, old_s, t, s) || (pos
                        <= t < next && sm.has(s))));
                    if t >= pos {
                        assert(!pend_has2(old_out, old_t, old_s, t, s));
                        assert(op.spec_apply(self.has2(t, s), rhs.has2(t, s)) <==> sm.has(s));
                    }
                }
                assert forall|t: int, s: int| t >= next implies !#[trigger] pend_has2(out@, cur_t@, cur_s, t, s) by {
                    assert(pend_has2(out@, cur_t@, cur_s, t, s) <==> (pend_has2(old_out, old_t, old_s, t, s) || (pos
                        <= t < next && sm.has(s))));
                    assert(!pend_has2(old_out, old_t, old_s, t, s));
                }
            }
            pos = next;
            if i < nl && lr[i].end == pos {
                i = i + 1;
            }
            if j < nr && rr[j].end == pos {
                j = j + 1;
            }
        }
        let ghost old_out = out@;
        let ghost old_t = cur_t@;
        let ghost old_s = cur_s;
        if cur_t.len() > 0 {
            proof {
                assert(ends_le(cur_t@, m)) by {
                    assert forall|k: int| 0 <= k < cur_t@.len() implies (#[trigger] cur_t@[k]).end <= m by {
                        assert(cur_t@[k].end <= pos);
                    }
                }
            }
            let left: RangeMOC<u64, Q> = RangeMOC::new(dl, Ranges(cur_t));
            out.push(RangeMOC2Elem::new(left, cur_s));
            proof {
                lemma_elems_has2_push(old_out, out@.last());
            }
        }
        proof {
            assert forall|t: int, s: int| #[trigger] elems_has2(out@, t, s) <==> pend_has2(old_out, old_t, old_s, t, s) by {
                if old_t.len() > 0 {
                    assert(elems_has2(out@, t, s) <==> (elems_has2(old_out, t, s) || elem_has2(out@.last(), t, s)));
                    assert(out@.last().left().rs() == old_t);
                } else {
                    if seq_has(old_t, t) {
                        let k = choose|k: int| 0 <= k < old_t.len() && #[trigger] range_has(old_t[k], t);
                    }
                }
            }
            assert forall|t: int, s: int| t >= pos implies !self.has2(t, s) && !rhs.has2(t, s) by {
                if flat_has2(lr@, le@, self.es(), t, s) {
                    let k = choose|k: int| 0 <= k < lr@.len() && #[trigger] range_has(lr@[k], t) && self.es()[le@[k] as int].right().has(s);
                    assert(lr@[k].end <= pos);
                }
                if flat_has2(rr@, re@, rhs.es(), t, s) {
                    let k = choose|k: int| 0 <= k < rr@.len() && #[trigger] range_has(rr@[k], t) && rhs.es()[re@[k] as int].right().has(s);
                    assert(rr@[k].end <= pos);
                }
            }
        }
        RangeMOC2 { depth_max_l: dl, depth_max_r: dr, elems: out }
    }
}

/// The first MOC of the element shares a value with `x`.
pub open spec fn left_meets<Q: MocQty<u64>, R: MocQty<u64>>(
    e: RangeMOC2Elem<u64, Q, u64, R>,
    x: RangeMOC<u64, Q>,
) -> bool {
    exists|t: int| #[trigger] x.has(t) && e.left().has(t)
}

/// The second MOC of the element is included in `y`.
pub open spec fn right_within<Q: MocQty<u64>, R: MocQty<u64>>(
    e: RangeMOC2Elem<u64, Q, u64, R>,
    y: RangeMOC<u64, R>,
) -> bool {
    forall|s: int| #[trigger] e.right().has(s) ==> y.has(s)
}

/// The second MOC of the element shares a value with `y`.
pub open spec fn right_meets<Q: MocQty<u64>, R: MocQty<u64>>(
    e: RangeMOC2Elem<u64, Q, u64, R>,
    y: RangeMOC<u64, R>,
) -> bool {
    exists|s: int| #[trigger] y.has(s) && e.right().has(s)
}

impl<Q: MocQty<u64>, R: MocQty<u64>> RangeMOC2<u64, Q, u64, R> {
    /// Union of the two MOC2s.
    pub fn or(&self, rhs: &Self) -> (r: Self)
        requires
            self.wf(),
            rhs.wf(),
        ensures
            r.wf(),
            r.is_canonical(),
            r.dl() == if self.dl() >= rhs.dl() { self.dl() } else { rhs.dl() },
            r.dr() == if self.dr() >= rhs.dr() { self.dr() } else { rhs.dr() },
            forall|t: int, s: int| #[trigger] r.has2(t, s) <==> (self.has2(t, s) || rhs.has2(t, s)),
    {
        self.op2d(rhs, BoolOp::Or)
    }

    /// Same as [`RangeMOC2::or`], consuming both MOC2s.
    pub fn into_or(self, rhs: Self) -> (r: Self)
        requires
            self.wf(),
            rhs.wf(),
        ensures
            r.wf(),
            r.is_canonical(),
            r.dl() == if self.dl() >= rhs.dl() { self.dl() } else { rhs.dl() },
            r.dr() == if self.dr() >= rhs.dr() { self.dr() } else { rhs.dr() },
            forall|t: int, s: int| #[trigger] r.has2(t, s) <==> (self.has2(t, s) || rhs.has2(t, s)),
    {
        self.op2d(&rhs, BoolOp::Or)
    }

    /// Intersection of the two MOC2s.
    pub fn and(&self, rhs: &Self) -> (r: Self)
        requires
            self.wf(),
            rhs.wf(),
        ensures
            r.wf(),
            r.is_canonical(),
            r.dl() == if self.dl() >= rhs.dl() { self.dl() } else { rhs.dl() },
            r.dr() == if self.dr() >= rhs.dr() { self.dr() } else { rhs.dr() },
            forall|t: int, s: int| #[trigger] r.has2(t, s) <==> (self.has2(t, s) && rhs.has2(t, s)),
    {
        self.op2d(rhs, BoolOp::And)
    }

    /// The pairs of `self` that are not in `rhs`.
    pub fn minus(&self, rhs: &Self) -> (r: Self)
        requires
            self.wf(),
            rhs.wf(),
        ensures
            r.wf(),
            r.is_canonical(),
            r.dl() == if self.dl() >= rhs.dl() { self.dl() } else { rhs.dl() },
            r.dr() == if self.dr() >= rhs.dr() { self.dr() } else { rhs.dr() },
            forall|t: int, s: int| #[trigger] r.has2(t, s) <==> (self.has2(t, s) && !rhs.has2(t, s)),
    {
        self.op2d(rhs, BoolOp::Minus)
    }

    /// The values are the values at the deepest resolution of each quantity.
    pub fn contains_val(&self, val_left: &u64, val_right: &u64) -> (r: bool)
        requires
            self.wf(),
        ensures
            r == self.has2(*val_left as int, *val_right as int),
    {
        let n = self.elems.len();
        let mut i: usize = 0;
        while i < n
            invariant
                n == self.es().len(),
                self.wf(),
                i <= n,
                forall|k: int| 0 <= k < i ==> !#[trigger] elem_has2(self.es()[k], *val_left as int, *val_right as int),
            decreases n - i,
        {
            proof {
                assert(elem_wf(self.es()[i as int], self.dl(), self.dr()));
            }
            if self.elems[i].contains_val(val_left, val_right) {
                return true;
            }
            i = i + 1;
        }
        false
    }

    /// Union of the second MOCs of the elements whose first MOC shares a value with `x`.
    pub fn project_on_second_dim(x: &RangeMOC<u64, Q>, coverage: &Self) -> (r: RangeMOC<u64, R>)
        requires
            x.wf(),
            coverage.wf(),
        ensures
            r.wf(),
            r.depth() == coverage.dr(),
            forall|s: int| #[trigger] r.has(s) <==> (exists|t: int| x.has(t) && #[trigger] coverage.has2(t, s)),
    {
        let n = coverage.elems.len();
        let ghost es = coverage.es();
        let mut acc: RangeMOC<u64, R> = RangeMOC::new_empty(coverage.depth_max_r);
        let mut i: usize = 0;
        while i < n
            invariant
                n == es.len(),
                es == coverage.es(),
                x.wf(),
                coverage.wf(),
                i <= n,
                acc.wf(),
                acc.depth() == coverage.dr(),
                forall|s: int|
                    #[trigger] acc.has(s) <==> (exists|k: int|
                        0 <= k < i && left_meets(#[trigger] es[k], *x) && es[k].right().has(s)),
            decreases n - i,
        {
            proof {
                assert(elem_wf(es[i as int], coverage.dl(), coverage.dr()));
            }
            let e = &coverage.elems[i];
            let xr = x.moc_ranges();
            let el = e.moc_l();
            let er = el.moc_ranges();
            let meets = xr.intersects(er);
            assert(er.0@ == es[i as int].left().rs());
            assert(xr.0@ == x.rs());
            assert(meets == exists|v: int| xr.has(v) && er.has(v));
            let ghost old_acc = acc;
            if meets {
                acc = acc.or(e.moc_r());
            }
            proof {
                assert(meets == left_meets(es[i as int], *x)) by {
                    let lr = es[i as int].left().rs();
                    if meets {
                        let v = choose|v: int| xr.has(v) && er.has(v);
                        assert(x.has(v) && es[i as int].left().has(v));
                    }
                    if left_meets(es[i as int], *x) {
                        let v = choose|v: int| #[trigger] x.has(v) && es[i as int].left().has(v);
                        assert(xr.has(v) && er.has(v));
                    }
                }
                assert forall|s: int|
                    #[trigger] acc.has(s) <==> (exists|k: int|
                        0 <= k < i + 1 && left_meets(#[trigger] es[k], *x) && es[k].right().has(s)) by {
                    if acc.has(s) && !old_acc.has(s) {
                        assert(0 <= i < i + 1 && left_meets(es[i as int], *x) && es[i as int].right().has(s));
                    }
                    if exists|k: int| 0 <= k < i + 1 && left_meets(#[trigger] es[k], *x) && es[k].right().has(s) {
                        let k = choose|k: int| 0 <= k < i + 1 && left_meets(#[trigger] es[k], *x) && es[k].right().has(s);
                        if k < i {
                            assert(old_acc.has(s));
                        }
                    }
                }
            }
            i = i + 1;
        }
        proof {
            assert forall|s: int| #[trigger] acc.has(s) <==> (exists|t: int| x.has(t) && #[trigger] coverage.has2(t, s)) by {
                if acc.has(s) {
                    let k = choose|k: int| 0 <= k < n && left_meets(#[trigger] es[k], *x) && es[k].right().has(s);
                    let t = choose|t: int| #[trigger] x.has(t) && es[k].left().has(t);
                    assert(elem_has2(es[k], t, s));
                    assert(coverage.has2(t, s));
                }
                if exists|t: int| x.has(t) && #[trigger] coverage.has2(t, s) {
                    let t = choose|t: int| x.has(t) && #[trigger] coverage.has2(t, s);
                    let k = choose|k: int| 0 <= k < es.len() && #[trigger] elem_has2(es[k], t, s);
                    assert(left_meets(es[k], *x));
                }
            }
        }
        acc
    }

    /// Union of the first MOCs of the elements whose second MOC intersects `y`: the values of
    /// the first quantity paired with a value of `y`.
    pub fn project_on_first_dim_meeting(y: &RangeMOC<u64, R>, coverage: &Self) -> (r: RangeMOC<u64, Q>)
        requires
            y.wf(),
            coverage.wf(),
        ensures
            r.wf(),
            r.depth() == coverage.dl(),
            forall|t: int| #[trigger] r.has(t) <==> (exists|s: int| y.has(s) && #[trigger] coverage.has2(t, s)),
    {
        let n = coverage.elems.len();
        let ghost es = coverage.es();
        let mut acc: RangeMOC<u64, Q> = RangeMOC::new_empty(coverage.depth_max_l);
        let mut i: usize = 0;
        while i < n
            invariant
                n == es.len(),
                es == coverage.es(),
                y.wf(),
                coverage.wf(),
                i <= n,
                acc.wf(),
                acc.depth() == coverage.dl(),
                forall|t: int|
                    #[trigger] acc.has(t) <==> (exists|k: int|
                        0 <= k < i && right_meets(#[trigger] es[k], *y) && es[k].left().has(t)),
            decreases n - i,
        {
            proof {
                assert(elem_wf(es[i as int], coverage.dl(), coverage.dr()));
            }
            let e = &coverage.elems[i];
            let yr = y.moc_ranges();
            let em = e.moc_r();
            let er = em.moc_ranges();
            let meets = yr.intersects(er);
            assert(er.0@ == es[i as int].right().rs());
            assert(yr.0@ == y.rs());
            assert(meets == exists|v: int| yr.has(v) && er.has(v));
            let ghost old_acc = acc;
            if meets {
                acc = acc.or(e.moc_l());
            }
            proof {
                assert(meets == right_meets(es[i as int], *y)) by {
                    if meets {
                        let v = choose|v: int| yr.has(v) && er.has(v);
                        assert(y.has(v) && es[i as int].right().has(v));
                    }
                    if right_meets(es[i as int], *y) {
                        let v = choose|v: int| #[trigger] y.has(v) && es[i as int].right().has(v);
                        assert(yr.has(v) && er.has(v));
                    }
                }
                assert forall|t: int|
                    #[trigger] acc.has(t) <==> (exists|k: int|
                        0 <= k < i + 1 && right_meets(#[trigger] es[k], *y) && es[k].left().has(t)) by {
                    if acc.has(t) && !old_acc.has(t) {
                        assert(0 <= i < i + 1 && right_meets(es[i as int], *y) && es[i as int].left().has(t));
                    }
                    if exists|k: int| 0 <= k < i + 1 && right_meets(#[trigger] es[k], *y) && es[k].left().has(t) {
                        let k = choose|k: int| 0 <= k < i + 1 && right_meets(#[trigger] es[k], *y) && es[k].left().has(t);
                        if k < i {
                            assert(old_acc.has(t));
                        }
                    }
                }
            }
            i = i + 1;
        }
        proof {
            assert forall|t: int| #[trigger] acc.has(t) <==> (exists|s: int| y.has(s) && #[trigger] coverage.has2(t, s)) by {
                if acc.has(t) {
                    let k = choose|k: int| 0 <= k < n && right_meets(#[trigger] es[k], *y) && es[k].left().has(t);
                    let s = choose|s: int| #[trigger] y.has(s) && es[k].right().has(s);
                    assert(elem_has2(es[k], t, s));
                    assert(coverage.has2(t, s));
                }
                if exists|s: int| y.has(s) && #[trigger] coverage.has2(t, s) {
                    let s = choose|s: int| y.has(s) && #[trigger] coverage.has2(t, s);
                    let k = choose|k: int| 0 <= k < es.len() && #[trigger] elem_has2(es[k], t, s);
                    assert(right_meets(es[k], *y));
                }
            }
        }
        acc
    }

    /// Union of the first MOCs of the elements whose second MOC is included in `y`.
    pub fn project_on_first_dim(y: &RangeMOC<u64, R>, coverage: &Self) -> (r: RangeMOC<u64, Q>)
        requires
            y.wf(),
            coverage.wf(),
        ensures
            r.wf(),
            r.depth() == coverage.dl(),
            forall|t: int| #[trigger] r.has(t) <==> (exists|k: int|
                0 <= k < coverage.es().len() && right_within(#[trigger] coverage.es()[k], *y)
                    && coverage.es()[k].left().has(t)),
    {
        let n = coverage.elems.len();
        let ghost es = coverage.es();
        let mut acc: RangeMOC<u64, Q> = RangeMOC::new_empty(coverage.depth_max_l);
        let mut i: usize = 0;
        while i < n
            invariant
                n == es.len(),
                es == coverage.es(),
                y.wf(),
                coverage.wf(),
                i <= n,
                acc.wf(),
                acc.depth() == coverage.dl(),
                forall|t: int|
                    #[trigger] acc.has(t) <==> (exists|k: int|
                        0 <= k < i && right_within(#[trigger] es[k], *y) && es[k].left().has(t)),
            decreases n - i,
        {
            proof {
                assert(elem_wf(es[i as int], coverage.dl(), coverage.dr()));
            }
            let e = &coverage.elems[i];
            let within = y.moc_ranges().contains(e.moc_r().moc_ranges());
            let ghost old_acc = acc;
            if within {
                acc = acc.or(e.moc_l());
            }
            proof {
                let rs = es[i as int].right().rs();
                assert(within == right_within(es[i as int], *y)) by {
                    if within {
                        assert forall|s: int| #[trigger] es[i as int].right().has(s) implies y.has(s) by {
                            let k = choose|k: int| 0 <= k < rs.len() && #[trigger] range_has(rs[k], s);
                            lemma_contains_range_set(y.rs(), rs[k]);
                            assert(spec_contains_range(y.rs(), rs[k]));
                        }
                    }
                    if right_within(es[i as int], *y) {
                        assert forall|k: int| 0 <= k < rs.len() implies spec_contains_range(y.rs(), #[trigger] rs[k]) by {
                            lemma_contains_range_set(y.rs(), rs[k]);
                            assert forall|v: int| rs[k].start <= v < rs[k].end implies #[trigger] seq_has(y.rs(), v) by {
                                lemma_has_intro(rs, k, v);
                                assert(es[i as int].right().has(v));
                            }
                        }
                    }
                }
                assert forall|t: int|
                    #[trigger] acc.has(t) <==> (exists|k: int|
                        0 <= k < i + 1 && right_within(#[trigger] es[k], *y) && es[k].left().has(t)) by {
                    if acc.has(t) && !old_acc.has(t) {
                        assert(0 <= i < i + 1 && right_within(es[i as int], *y) && es[i as int].left().has(t));
                    }
                    if exists|k: int| 0 <= k < i + 1 && right_within(#[trigger] es[k], *y) && es[k].left().has(t) {
                        let k = choose|k: int| 0 <= k < i + 1 && right_within(#[trigger] es[k], *y) && es[k].left().has(t);
                        if k < i {
                            assert(old_acc.has(t));
                        }
                    }
                }
            }
            i = i + 1;
        }
        acc
    }
}

impl<Q: MocQty<u64>, R: MocQty<u64>> HasTwoMaxDepth for RangeMOC2<u64, Q, u64, R> {
    fn depth_max_1(&self) -> (r: u8)
        ensures
            r == self.dl(),
    {
        self.depth_max_l
    }

    fn depth_max_2(&self) -> (r: u8)
        ensures
            r == self.dr(),
    {
        self.depth_max_r
    }
}

impl<Q, R> ZSorted for RangeMOC2<u64, Q, u64, R> {}

impl<Q, R> NonOverlapping for RangeMOC2<u64, Q, u64, R> {}

impl<Q: MocQty<u64>, R: MocQty<u64>> MOC2Properties for RangeMOC2<u64, Q, u64, R> {}

} // verus!
