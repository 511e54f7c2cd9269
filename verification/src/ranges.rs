//! Sets of `u64` values represented by sorted, non-overlapping ranges.

use std::ops::Range;
use vstd::prelude::*;
use rayon::slice::ParallelSliceMut;

verus! {

/// `x` lies in the half-open range `r`.
pub open spec fn range_has(r: Range<u64>, x: int) -> bool {
    r.start <= x < r.end
}

/// `x` lies in at least one range of `s`.
pub open spec fn seq_has(s: Seq<Range<u64>>, x: int) -> bool {
    exists|k: int| 0 <= k < s.len() && #[trigger] range_has(s[k], x)
}

/// Sorted, non-overlapping, non-empty and non-adjacent ranges (the canonical form).
pub open spec fn sno(s: Seq<Range<u64>>) -> bool {
    &&& forall|k: int| 0 <= k < s.len() ==> (#[trigger] s[k]).start < s[k].end
    &&& forall|i: int, j: int| 0 <= i < j < s.len() ==> (#[trigger] s[i]).end < (#[trigger] s[j]).start
}

/// Every range of `s` is non-empty.
pub open spec fn all_non_empty(s: Seq<Range<u64>>) -> bool {
    forall|k: int| 0 <= k < s.len() ==> (#[trigger] s[k]).start < s[k].end
}

/// The ranges of `s` are sorted by their lower bound.
pub open spec fn sorted_by_start(s: Seq<Range<u64>>) -> bool {
    forall|i: int, j: int| 0 <= i < j < s.len() ==> (#[trigger] s[i]).start <= (#[trigger] s[j]).start
}

/// Boolean operators applied point-wise by [`merge_op`].
#[derive(Clone, Copy, PartialEq, Eq, Debug)]
pub enum BoolOp {
    And,
    Or,
    /// `a && !b`
    Minus,
    /// `a != b`
    Xor,
}

impl BoolOp {
    pub open spec fn spec_apply(self, a: bool, b: bool) -> bool {
        match self {
            BoolOp::And => a && b,
            BoolOp::Or => a || b,
            BoolOp::Minus => a && !b,
            BoolOp::Xor => a != b,
        }
    }

    pub fn apply(self, a: bool, b: bool) -> (r: bool)
        ensures
            r == self.spec_apply(a, b),
    {
        match self {
            BoolOp::And => a && b,
            BoolOp::Or => a || b,
            BoolOp::Minus => a && !b,
            BoolOp::Xor => a != b,
        }
    }
}

pub proof fn lemma_has_intro(s: Seq<Range<u64>>, k: int, x: int)
    requires
        0 <= k < s.len(),
        s[k].start <= x < s[k].end,
    ensures
        seq_has(s, x),
{
    assert(range_has(s[k], x));
}

/// Membership after pushing a range.
pub proof fn lemma_has_push(s: Seq<Range<u64>>, r: Range<u64>)
    ensures
        forall|x: int| #[trigger] seq_has(s.push(r), x) <==> (seq_has(s, x) || range_has(r, x)),
{
    let t = s.push(r);
    assert forall|x: int| seq_has(t, x) <==> (seq_has(s, x) || range_has(r, x)) by {
        if seq_has(t, x) {
            let k = choose|k: int| 0 <= k < t.len() && #[trigger] range_has(t[k], x);
            if k < s.len() {
                assert(range_has(s[k], x));
            }
        }
        if seq_has(s, x) {
            let k = choose|k: int| 0 <= k < s.len() && #[trigger] range_has(s[k], x);
            assert(range_has(t[k], x));
        }
        if range_has(r, x) {
            assert(range_has(t[s.len() as int], x));
        }
    }
}

/// Membership after replacing the last range by a longer one with the same start.
pub proof fn lemma_has_extend_last(s: Seq<Range<u64>>, new_end: u64)
    requires
        s.len() > 0,
        s.last().start <= s.last().end,
        s.last().end <= new_end,
    ensures
        forall|x: int|
            #[trigger] seq_has(s.update(s.len() - 1, Range { start: s.last().start, end: new_end }), x) <==> (seq_has(s, x) || (
            s.last().end <= x < new_end)),
{
    let n = s.len() - 1;
    let nr = Range { start: s.last().start, end: new_end };
    let t = s.update(n, nr);
    assert forall|x: int| seq_has(t, x) <==> (seq_has(s, x) || (s.last().end <= x < new_end)) by {
        if seq_has(t, x) {
            let k = choose|k: int| 0 <= k < t.len() && #[trigger] range_has(t[k], x);
            if k < n {
                assert(range_has(s[k], x));
            } else if x < s.last().end {
                assert(range_has(s[n], x));
            }
        }
        if seq_has(s, x) {
            let k = choose|k: int| 0 <= k < s.len() && #[trigger] range_has(s[k], x);
            assert(range_has(t[k], x));
        }
        if s.last().end <= x < new_end {
            assert(range_has(t[n], x));
        }
    }
}

/// In a canonical sequence whose ranges before `i` all end at or before `pos` and whose
/// range `i` (if any) ends after `pos`, membership is constant on `[pos, next[`.
pub proof fn lemma_segment(s: Seq<Range<u64>>, i: int, pos: int, next: int, inside: bool)
    requires
        sno(s),
        0 <= i <= s.len(),
        forall|k: int| 0 <= k < i ==> (#[trigger] s[k]).end <= pos,
        i < s.len() ==> s[i].end > pos,
        i == s.len() ==> !inside,
        i < s.len() ==> inside == (s[i].start <= pos),
        i < s.len() && inside ==> next <= s[i].end,
        i < s.len() && !inside ==> next <= s[i].start,
    ensures
        forall|x: int| pos <= x < next ==> (#[trigger] seq_has(s, x) <==> inside),
{
    assert forall|x: int| pos <= x < next implies (seq_has(s, x) <==> inside) by {
        if seq_has(s, x) {
            let k = choose|k: int| 0 <= k < s.len() && #[trigger] range_has(s[k], x);
            if k < i {
            } else if k > i {
                assert(s[i].end < s[k].start);
            }
        }
        if inside {
            lemma_has_intro(s, i, x);
        }
    }
}

/// Point-wise boolean combination of two canonical range sequences, by a sweep over the
/// bounds of both inputs.
pub fn merge_op(l: &Vec<Range<u64>>, r: &Vec<Range<u64>>, op: BoolOp) -> (res: Vec<Range<u64>>)
    requires
        sno(l@),
        sno(r@),
    ensures
        sno(res@),
        forall|x: int| #[trigger] seq_has(res@, x) <==> op.spec_apply(seq_has(l@, x), seq_has(r@, x)),
{
    let nl = l.len();
    let nr = r.len();
    let mut i: usize = 0;
    let mut j: usize = 0;
    let mut pos: u64 = 0;
    let mut res: Vec<Range<u64>> = Vec::new();
    while i < nl || j < nr
        invariant
            nl == l@.len(),
            nr == r@.len(),
            sno(l@),
            sno(r@),
            i <= nl,
            j <= nr,
            forall|k: int| 0 <= k < i ==> (#[trigger] l@[k]).end <= pos,
            forall|k: int| 0 <= k < j ==> (#[trigger] r@[k]).end <= pos,
            i < nl ==> l@[i as int].end > pos,
            j < nr ==> r@[j as int].end > pos,
            sno(res@),
            forall|k: int| 0 <= k < res@.len() ==> (#[trigger] res@[k]).end <= pos,
            forall|x: int|
                x < pos ==> (seq_has(res@, x) <==> op.spec_apply(seq_has(l@, x), seq_has(r@, x))),
        decreases u64::MAX - pos,
    {
        let in_l = i < nl && l[i].start <= pos;
        let in_r = j < nr && r[j].start <= pos;
        let next: u64;
        if i < nl && j < nr {
            let nxl = if in_l { l[i].end } else { l[i].start };
            let nxr = if in_r { r[j].end } else { r[j].start };
            next = if nxl <= nxr { nxl } else { nxr };
        } else if i < nl {
            next = if in_l { l[i].end } else { l[i].start };
        } else {
            next = if in_r { r[j].end } else { r[j].start };
        }
        proof {
            lemma_segment(l@, i as int, pos as int, next as int, in_l);
            lemma_segment(r@, j as int, pos as int, next as int, in_r);
        }
        let ghost old_res = res@;
        if op.apply(in_l, in_r) {
            let n = res.len();
            if n > 0 && res[n - 1].end == pos {
                let start = res[n - 1].start;
                proof {
                    lemma_has_extend_last(res@, next);
                }
                res.set(n - 1, Range { start, end: next });
                assert(res@ == old_res.update(old_res.len() - 1, Range { start: old_res.last().start, end: next }));
            } else {
                proof {
                    lemma_has_push(res@, Range { start: pos, end: next });
                }
                res.push(Range { start: pos, end: next });
                assert(range_has(Range { start: pos, end: next }, pos as int));
            }
        }
        proof {
            assert forall|x: int| x < next implies (seq_has(res@, x) <==> op.spec_apply(
                seq_has(l@, x),
                seq_has(r@, x),
            )) by {
                if x < pos {
                    assert(seq_has(old_res, x) <==> op.spec_apply(seq_has(l@, x), seq_has(r@, x)));
                    if !op.spec_apply(in_l, in_r) {
                        assert(res@ == old_res);
                    } else {
                        assert(seq_has(res@, x) <==> seq_has(old_res, x));
                    }
                } else {
                    assert(seq_has(l@, x) == in_l);
                    assert(seq_has(r@, x) == in_r);
                    if op.spec_apply(in_l, in_r) {
                        if old_res.len() > 0 && old_res.last().end == pos {
                            lemma_has_extend_last(old_res, next);
                            assert(res@ == old_res.update(old_res.len() - 1, Range { start: old_res.last().start, end: next }));
                        } else {
                            lemma_has_push(old_res, Range { start: pos, end: next });
                            assert(res@ == old_res.push(Range { start: pos, end: next }));
                        }
                        assert(seq_has(res@, x));
                    } else {
                        assert(!seq_has(res@, x));
                    }
                    if !op.spec_apply(in_l, in_r) {
                        assert(res@ == old_res);
                        if seq_has(old_res, x) {
                            let k = choose|k: int| 0 <= k < old_res.len() && #[trigger] range_has(old_res[k], x);
                            assert(old_res[k].end <= pos);
                        }
                    }
                }
            }
        }
        pos = next;
        if i < nl && l[i].end == pos {
            i = i + 1;
        }
        if j < nr && r[j].end == pos {
            j = j + 1;
        }
    }
    proof {
        assert forall|x: int| #[trigger] seq_has(res@, x) <==> op.spec_apply(seq_has(l@, x), seq_has(r@, x)) by {
            if x >= pos {
                lemma_segment(l@, i as int, pos as int, x + 1, false);
                lemma_segment(r@, j as int, pos as int, x + 1, false);
                if seq_has(res@, x) {
                    let k = choose|k: int| 0 <= k < res@.len() && #[trigger] range_has(res@[k], x);
                    assert(res@[k].end <= pos);
                }
            }
        }
    }
    res
}

/// In canonical ranges, the binary-search based containment test of a non-empty range holds
/// exactly when all the values of the range are covered.
pub proof fn lemma_contains_range_set(s: Seq<Range<u64>>, x: Range<u64>)
    requires
        sno(s),
        x.start < x.end,
    ensures
        spec_contains_range(s, x) <==> (forall|y: int| x.start <= y < x.end ==> #[trigger] seq_has(s, y)),
{
    if spec_contains_range(s, x) {
        let k = choose|k: int| 0 <= k < s.len() && #[trigger] range_has(s[k], x.start as int) && x.end <= s[k].end;
        assert forall|y: int| x.start <= y < x.end implies #[trigger] seq_has(s, y) by {
            lemma_has_intro(s, k, y);
        }
    }
    if forall|y: int| x.start <= y < x.end ==> #[trigger] seq_has(s, y) {
        assert(seq_has(s, x.start as int));
        let k = choose|k: int| 0 <= k < s.len() && #[trigger] range_has(s[k], x.start as int);
        if s[k].end < x.end {
            assert(seq_has(s, s[k].end as int));
            let k2 = choose|k2: int| 0 <= k2 < s.len() && #[trigger] range_has(s[k2], s[k].end as int);
            if k2 < k {
                assert(s[k2].end < s[k].start);
            } else if k2 > k {
                assert(s[k].end < s[k2].start);
            }
        }
        if k > 0 {
            assert(s[0].end < s[k].start);
        }
        assert(range_has(s[k], x.start as int) && x.end <= s[k].end);
    }
}

/// A canonical sequence starts with its smallest range: the first range starts no later
/// than any other one.
proof fn lemma_sno_first_start(s: Seq<Range<u64>>, k: int)
    requires
        sno(s),
        0 <= k < s.len(),
    ensures
        s[0].start <= s[k].start,
{
    if k > 0 {
        assert(s[0].end < s[k].start);
    }
}

/// Canonical form is unique: two canonical range sequences that cover the same values are
/// equal.
pub proof fn lemma_sno_unique(a: Seq<Range<u64>>, b: Seq<Range<u64>>)
    requires
        sno(a),
        sno(b),
        forall|x: int| #[trigger] seq_has(a, x) <==> seq_has(b, x),
    ensures
        a == b,
    decreases a.len() + b.len(),
{
    if a.len() == 0 || b.len() == 0 {
        if a.len() > 0 {
            assert(seq_has(a, a[0].start as int)) by { lemma_has_intro(a, 0, a[0].start as int); }
            assert(seq_has(b, a[0].start as int));
        }
        if b.len() > 0 {
            assert(seq_has(b, b[0].start as int)) by { lemma_has_intro(b, 0, b[0].start as int); }
            assert(seq_has(a, b[0].start as int));
        }
        assert(a =~= b);
        return;
    }
    // Same first start.
    assert(seq_has(a, a[0].start as int)) by { lemma_has_intro(a, 0, a[0].start as int); }
    assert(seq_has(b, b[0].start as int)) by { lemma_has_intro(b, 0, b[0].start as int); }
    assert(seq_has(b, a[0].start as int));
    assert(seq_has(a, b[0].start as int));
    let ka = choose|k: int| 0 <= k < b.len() && #[trigger] range_has(b[k], a[0].start as int);
    let kb = choose|k: int| 0 <= k < a.len() && #[trigger] range_has(a[k], b[0].start as int);
    lemma_sno_first_start(b, ka);
    lemma_sno_first_start(a, kb);
    assert(a[0].start == b[0].start);
    // Same first end: the first end of one is uncovered by it, so by the other.
    if a[0].end < b[0].end {
        assert(seq_has(b, a[0].end as int)) by { lemma_has_intro(b, 0, a[0].end as int); }
        assert(seq_has(a, a[0].end as int));
        let k = choose|k: int| 0 <= k < a.len() && #[trigger] range_has(a[k], a[0].end as int);
        if k > 0 {
            assert(a[0].end < a[k].start);
        }
    }
    if b[0].end < a[0].end {
        assert(seq_has(a, b[0].end as int)) by { lemma_has_intro(a, 0, b[0].end as int); }
        assert(seq_has(b, b[0].end as int));
        let k = choose|k: int| 0 <= k < b.len() && #[trigger] range_has(b[k], b[0].end as int);
        if k > 0 {
            assert(b[0].end < b[k].start);
        }
    }
    assert(a[0] == b[0]);
    let a1 = a.drop_first();
    let b1 = b.drop_first();
    let e = a[0].end as int;
    assert forall|x: int| #[trigger] seq_has(a1, x) <==> (seq_has(a, x) && x >= e) by {
        if seq_has(a1, x) {
            let k = choose|k: int| 0 <= k < a1.len() && #[trigger] range_has(a1[k], x);
            assert(range_has(a[k + 1], x));
            assert(a[0].end < a[k + 1].start);
        }
        if seq_has(a, x) && x >= e {
            let k = choose|k: int| 0 <= k < a.len() && #[trigger] range_has(a[k], x);
            assert(k != 0);
            assert(range_has(a1[k - 1], x));
        }
    }
    assert forall|x: int| #[trigger] seq_has(b1, x) <==> (seq_has(b, x) && x >= e) by {
        if seq_has(b1, x) {
            let k = choose|k: int| 0 <= k < b1.len() && #[trigger] range_has(b1[k], x);
            assert(range_has(b[k + 1], x));
            assert(b[0].end < b[k + 1].start);
        }
        if seq_has(b, x) && x >= e {
            let k = choose|k: int| 0 <= k < b.len() && #[trigger] range_has(b[k], x);
            assert(k != 0);
            assert(range_has(b1[k - 1], x));
        }
    }
    assert(sno(a1));
    assert(sno(b1));
    assert forall|x: int| #[trigger] seq_has(a1, x) <==> seq_has(b1, x) by {
        assert(seq_has(a, x) <==> seq_has(b, x));
    }
    lemma_sno_unique(a1, b1);
    assert(a =~= b) by {
        assert forall|i: int| 0 <= i < a.len() implies a[i] == b[i] by {
            if i > 0 {
                assert(a[i] == a1[i - 1]);
                assert(b[i] == b1[i - 1]);
            }
        }
    }
}

/// `s` contains the range `x` in the sense of the binary-search based test: `s` is
/// non-empty, `x` does not end before the first range starts, and some range of `s` holds
/// `x.start` and ends at or after `x.end`.
pub open spec fn spec_contains_range(s: Seq<Range<u64>>, x: Range<u64>) -> bool {
    &&& s.len() > 0
    &&& s[0].start < x.end
    &&& exists|k: int| 0 <= k < s.len() && #[trigger] range_has(s[k], x.start as int) && x.end <= s[k].end
}

/// `s` overlaps the range `x` in the sense of the binary-search based test: `s` is non-empty,
/// `x` does not end before the first range starts, and either `x.start` lies in a range of `s`
/// or a range of `s` starts strictly inside `]x.start, x.end[`.
pub open spec fn spec_intersects_range(s: Seq<Range<u64>>, x: Range<u64>) -> bool {
    &&& s.len() > 0
    &&& s[0].start < x.end
    &&& {
        ||| seq_has(s, x.start as int)
        ||| exists|k: int| 0 <= k < s.len() && x.start < (#[trigger] s[k]).start && s[k].start < x.end
    }
}

/// Sum of the lengths of the ranges of `s`.
pub open spec fn spec_range_sum(s: Seq<Range<u64>>) -> int
    decreases s.len(),
{
    if s.len() == 0 {
        0
    } else {
        spec_range_sum(s.drop_last()) + (s.last().end - s.last().start)
    }
}

/// The sum of the lengths of canonical ranges is bounded by the last upper bound.
pub proof fn lemma_range_sum_bound(s: Seq<Range<u64>>)
    requires
        sno(s),
    ensures
        0 <= spec_range_sum(s),
        s.len() > 0 ==> spec_range_sum(s) <= s.last().end,
    decreases s.len(),
{
    if s.len() > 0 {
        let t = s.drop_last();
        assert(sno(t)) by {
            assert forall|i: int, j: int| 0 <= i < j < t.len() implies (#[trigger] t[i]).end < (#[trigger] t[j]).start by {
                assert(s[i].end < s[j].start);
            }
        }
        lemma_range_sum_bound(t);
        if t.len() > 0 {
            assert(s[t.len() - 1].end < s[s.len() - 1].start);
        }
    }
}

/// Two sequences holding the same ranges (as multisets) cover the same values.
pub proof fn lemma_has_permutation(a: Seq<Range<u64>>, b: Seq<Range<u64>>)
    requires
        a.to_multiset() == b.to_multiset(),
    ensures
        forall|x: int| #[trigger] seq_has(a, x) <==> seq_has(b, x),
{
    broadcast use vstd::seq_lib::group_to_multiset_ensures;

    assert forall|x: int| #[trigger] seq_has(a, x) <==> seq_has(b, x) by {
        if seq_has(a, x) {
            let k = choose|k: int| 0 <= k < a.len() && #[trigger] range_has(a[k], x);
            assert(a.contains(a[k]));
            vstd::seq_lib::to_multiset_contains(a, a[k]);
            vstd::seq_lib::to_multiset_contains(b, a[k]);
            assert(b.contains(a[k]));
            let m = choose|m: int| 0 <= m < b.len() && b[m] == a[k];
            assert(range_has(b[m], x));
        }
        if seq_has(b, x) {
            let k = choose|k: int| 0 <= k < b.len() && #[trigger] range_has(b[k], x);
            assert(b.contains(b[k]));
            vstd::seq_lib::to_multiset_contains(a, b[k]);
            vstd::seq_lib::to_multiset_contains(b, b[k]);
            assert(a.contains(b[k]));
            let m = choose|m: int| 0 <= m < a.len() && a[m] == b[k];
            assert(range_has(a[m], x));
        }
    }
}

/// Sorts the given ranges by increasing lower bound, in parallel.
/// Calls `rayon::slice::ParallelSliceMut::par_sort_unstable_by_key`, whose documentation
/// promises that the slice ends up sorted by the key and holds the same elements; nothing is
/// promised of the order of ranges with equal lower bounds.
#[verifier::external_body]
fn par_sort_by_start(v: &mut Vec<Range<u64>>)
    ensures
        final(v)@.to_multiset() == old(v)@.to_multiset(),
        sorted_by_start(final(v)@),
{
    v.par_sort_unstable_by_key(|r| r.start);
}

/// Number of ranges of the canonical sequence `s` whose lower bound is lower than or equal
/// to `v` (binary search).
fn count_starts_le(s: &Vec<Range<u64>>, v: u64) -> (k: usize)
    requires
        sno(s@),
    ensures
        k <= s@.len(),
        forall|i: int| 0 <= i < k ==> (#[trigger] s@[i]).start <= v,
        forall|i: int| k <= i < s@.len() ==> (#[trigger] s@[i]).start > v,
{
    let mut lo: usize = 0;
    let mut hi: usize = s.len();
    while lo < hi
        invariant
            sno(s@),
            lo <= hi <= s@.len(),
            forall|i: int| 0 <= i < lo ==> (#[trigger] s@[i]).start <= v,
            forall|i: int| hi <= i < s@.len() ==> (#[trigger] s@[i]).start > v,
        decreases hi - lo,
    {
        let mid = lo + (hi - lo) / 2;
        if s[mid].start <= v {
            proof {
                assert forall|i: int| 0 <= i < mid + 1 implies (#[trigger] s@[i]).start <= v by {
                    if i < mid {
                        assert(s@[i].end < s@[mid as int].start);
                    }
                }
            }
            lo = mid + 1;
        } else {
            proof {
                assert forall|i: int| mid <= i < s@.len() implies (#[trigger] s@[i]).start > v by {
                    if i > mid {
                        assert(s@[mid as int].end < s@[i].start);
                    }
                }
            }
            hi = mid;
        }
    }
    lo
}

/// Ranges of `u64` values.
/// The set operations assume (and produce) sorted, non-overlapping, non-adjacent ranges.
#[derive(Debug, PartialEq)]
pub struct Ranges<T>(pub Vec<Range<T>>);

impl Ranges<u64> {
    /// The ranges are in canonical form.
    pub open spec fn is_sno(&self) -> bool {
        sno(self.0@)
    }

    /// `x` is covered by the ranges.
    pub open spec fn has(&self, x: int) -> bool {
        seq_has(self.0@, x)
    }

    /// Wraps the given ranges, assuming (without checking!) that they are already sorted and
    /// neither overlapping nor consecutive.
    pub fn new_unchecked(data: Vec<Range<u64>>) -> (r: Self)
        ensures
            r.0@ == data@,
    {
        Ranges(data)
    }

    /// Merges the given ranges, sorted by lower bound but possibly overlapping or consecutive.
    pub fn new_from_sorted(data: Vec<Range<u64>>) -> (r: Self)
        requires
            all_non_empty(data@),
            sorted_by_start(data@),
        ensures
            r.is_sno(),
            forall|x: int| #[trigger] r.has(x) <==> seq_has(data@, x),
    {
        let n = data.len();
        let mut res: Vec<Range<u64>> = Vec::new();
        let mut k: usize = 0;
        while k < n
            invariant
                n == data@.len(),
                all_non_empty(data@),
                sorted_by_start(data@),
                k <= n,
                sno(res@),
                k == 0 <==> res@.len() == 0,
                k > 0 ==> res@.last().start <= data@[k - 1].start,
                forall|x: int| #[trigger] seq_has(res@, x) <==> seq_has(data@.take(k as int), x),
            decreases n - k,
        {
            let d = Range { start: data[k].start, end: data[k].end };
            let ghost old_res = res@;
            proof {
                assert(data@.take(k + 1) == data@.take(k as int).push(data@[k as int]));
                lemma_has_push(data@.take(k as int), data@[k as int]);
            }
            let m = res.len();
            if m > 0 && d.start <= res[m - 1].end {
                let start = res[m - 1].start;
                let end = if d.end > res[m - 1].end { d.end } else { res[m - 1].end };
                proof {
                    lemma_has_extend_last(res@, end);
                    assert(data@[k - 1].start <= data@[k as int].start);
                }
                res.set(m - 1, Range { start, end });
                proof {
                    assert(res@ == old_res.update(old_res.len() - 1, Range { start: old_res.last().start, end }));
                    assert forall|x: int| #[trigger] seq_has(res@, x) <==> seq_has(data@.take(k + 1), x) by {
                        if range_has(d, x) && x < old_res.last().end {
                            lemma_has_intro(old_res, old_res.len() - 1, x);
                        }
                    }
                }
            } else {
                proof {
                    lemma_has_push(res@, d);
                }
                res.push(d);
                proof {
                    assert(res@ == old_res.push(d));
                }
            }
            k = k + 1;
        }
        proof {
            assert(data@.take(n as int) == data@);
        }
        Ranges(res)
    }

    /// Sorts (in parallel) the given ranges and merges the overlapping or consecutive ones
    /// (empty ranges, which hold no value, are left out).
    pub fn new_from(data: Vec<Range<u64>>) -> (r: Self)
        ensures
            r.is_sno(),
            forall|x: int| #[trigger] r.has(x) <==> seq_has(data@, x),
    {
        let ghost input = data@;
        let n = data.len();
        let mut kept: Vec<Range<u64>> = Vec::new();
        let mut i: usize = 0;
        while i < n
            invariant
                n == input.len(),
                data@ == input,
                i <= n,
                all_non_empty(kept@),
                forall|x: int| #[trigger] seq_has(kept@, x) <==> seq_has(input.take(i as int), x),
            decreases n - i,
        {
            let ghost old_kept = kept@;
            let r = Range { start: data[i].start, end: data[i].end };
            if r.start < r.end {
                kept.push(r);
            }
            proof {
                assert forall|x: int| #[trigger] seq_has(kept@, x) <==> seq_has(input.take(i + 1), x) by {
                    let t1 = input.take(i + 1);
                    if seq_has(kept@, x) {
                        let k = choose|k: int| 0 <= k < kept@.len() && #[trigger] range_has(kept@[k], x);
                        if k < old_kept.len() {
                            assert(range_has(old_kept[k], x));
                            assert(seq_has(old_kept, x));
                            let j = choose|j: int| 0 <= j < i && #[trigger] range_has(input.take(i as int)[j], x);
                            assert(range_has(t1[j], x));
                        } else {
                            assert(range_has(t1[i as int], x));
                        }
                    }
                    if seq_has(t1, x) {
                        let j = choose|j: int| 0 <= j < i + 1 && #[trigger] range_has(t1[j], x);
                        if j < i {
                            assert(range_has(input.take(i as int)[j], x));
                            assert(seq_has(old_kept, x));
                            let k = choose|k: int| 0 <= k < old_kept.len() && #[trigger] range_has(old_kept[k], x);
                            assert(range_has(kept@[k], x));
                        } else {
                            assert(range_has(kept@[kept@.len() - 1], x));
                        }
                    }
                }
            }
            i = i + 1;
        }
        proof {
            assert(input.take(n as int) =~= input);
        }
        let mut data = kept;
        let ghost orig = data@;
        par_sort_by_start(&mut data);
        proof {
            broadcast use vstd::seq_lib::group_to_multiset_ensures;

            lemma_has_permutation(orig, data@);
            assert forall|k: int| 0 <= k < data@.len() implies (#[trigger] data@[k]).start < data@[k].end by {
                assert(data@.contains(data@[k]));
                vstd::seq_lib::to_multiset_contains(orig, data@[k]);
                vstd::seq_lib::to_multiset_contains(data@, data@[k]);
                assert(orig.contains(data@[k]));
                let m = choose|m: int| 0 <= m < orig.len() && orig[m] == data@[k];
                assert(orig[m].start < orig[m].end);
            }
        }
        let ghost sorted = data@;
        let res = Self::new_from_sorted(data);
        proof {
            assert forall|x: int| #[trigger] res.has(x) <==> seq_has(input, x) by {
                assert(res.has(x) <==> seq_has(sorted, x));
                assert(seq_has(sorted, x) <==> seq_has(orig, x));
                assert(seq_has(orig, x) <==> seq_has(input.take(n as int), x));
            }
        }
        res
    }

    pub fn is_empty(&self) -> (r: bool)
        ensures
            r == (self.0@.len() == 0),
    {
        self.0.len() == 0
    }

    /// Tells whether `x` is in the ranges (binary search).
    pub fn contains_val(&self, x: &u64) -> (r: bool)
        requires
            self.is_sno(),
        ensures
            r == self.has(*x as int),
    {
        let s = &self.0;
        let len = s.len();
        if len == 0 || *x < s[0].start || s[len - 1].end <= *x {
            proof {
                if seq_has(s@, *x as int) {
                    let k = choose|k: int| 0 <= k < s@.len() && #[trigger] range_has(s@[k], *x as int);
                    if k > 0 {
                        assert(s@[0].end < s@[k].start);
                    }
                    if k < len - 1 {
                        assert(s@[k].end < s@[len - 1].start);
                    }
                }
            }
            return false;
        }
        let k = count_starts_le(s, *x);
        let r = k > 0 && *x < s[k - 1].end;
        proof {
            if r {
                lemma_has_intro(s@, k - 1, *x as int);
            }
            if seq_has(s@, *x as int) {
                let m = choose|m: int| 0 <= m < s@.len() && #[trigger] range_has(s@[m], *x as int);
                if m < k - 1 {
                    assert(s@[m].end < s@[k - 1].start);
                }
            }
        }
        r
    }

    /// Tells whether a range of `self` contains `x` (binary search, see [`spec_contains_range`]).
    pub fn contains_range(&self, x: &Range<u64>) -> (r: bool)
        requires
            self.is_sno(),
        ensures
            r == spec_contains_range(self.0@, *x),
    {
        let s = &self.0;
        let len = s.len();
        if len == 0 || x.end <= s[0].start || s[len - 1].end <= x.start {
            proof {
                if len > 0 && exists|k: int| 0 <= k < s@.len() && #[trigger] range_has(s@[k], x.start as int) && x.end <= s@[k].end {
                    let k = choose|k: int| 0 <= k < s@.len() && #[trigger] range_has(s@[k], x.start as int) && x.end <= s@[k].end;
                    if k < len - 1 {
                        assert(s@[k].end < s@[len - 1].start);
                    }
                }
            }
            return false;
        }
        let k = count_starts_le(s, x.start);
        let r = k > 0 && x.start < s[k - 1].end && x.end <= s[k - 1].end;
        proof {
            if r {
                assert(range_has(s@[k - 1], x.start as int));
            }
            if exists|m: int| 0 <= m < s@.len() && #[trigger] range_has(s@[m], x.start as int) && x.end <= s@[m].end {
                let m = choose|m: int| 0 <= m < s@.len() && #[trigger] range_has(s@[m], x.start as int) && x.end <= s@[m].end;
                if m < k - 1 {
                    assert(s@[m].end < s@[k - 1].start);
                }
            }
        }
        r
    }

    /// Tells whether `x` overlaps the ranges (binary search, see [`spec_intersects_range`]).
    pub fn intersects_range(&self, x: &Range<u64>) -> (r: bool)
        requires
            self.is_sno(),
        ensures
            r == spec_intersects_range(self.0@, *x),
    {
        let s = &self.0;
        let len = s.len();
        if len == 0 || x.end <= s[0].start || s[len - 1].end <= x.start {
            proof {
                if len > 0 && seq_has(s@, x.start as int) {
                    let k = choose|k: int| 0 <= k < s@.len() && #[trigger] range_has(s@[k], x.start as int);
                    if k < len - 1 {
                        assert(s@[k].end < s@[len - 1].start);
                    }
                }
                if len > 0 && exists|k: int| 0 <= k < s@.len() && x.start < (#[trigger] s@[k]).start && s@[k].start < x.end {
                    let k = choose|k: int| 0 <= k < s@.len() && x.start < (#[trigger] s@[k]).start && s@[k].start < x.end;
                    if k < len - 1 {
                        assert(s@[k].end < s@[len - 1].start);
                    }
                }
            }
            return false;
        }
        let k = count_starts_le(s, x.start);
        let inside = k > 0 && x.start < s[k - 1].end;
        let r = inside || (k < len && s[k].start < x.end);
        proof {
            if inside {
                lemma_has_intro(s@, k - 1, x.start as int);
            }
            if seq_has(s@, x.start as int) {
                let m = choose|m: int| 0 <= m < s@.len() && #[trigger] range_has(s@[m], x.start as int);
                if m < k - 1 {
                    assert(s@[m].end < s@[k - 1].start);
                }
            }
            if k < len && s[k as int].start < x.end {
                assert(x.start < s@[k as int].start);
            }
            if exists|m: int| 0 <= m < s@.len() && x.start < (#[trigger] s@[m]).start && s@[m].start < x.end {
                let m = choose|m: int| 0 <= m < s@.len() && x.start < (#[trigger] s@[m]).start && s@[m].start < x.end;
                if m > k {
                    assert(s@[k as int].end < s@[m].start);
                }
            }
        }
        r
    }

    /// Tells whether all ranges of `rhs` are contained in a range of `self`.
    pub fn contains(&self, rhs: &Self) -> (r: bool)
        requires
            self.is_sno(),
        ensures
            r == forall|k: int| 0 <= k < rhs.0@.len() ==> spec_contains_range(self.0@, #[trigger] rhs.0@[k]),
    {
        let n = rhs.0.len();
        let mut k: usize = 0;
        while k < n
            invariant
                n == rhs.0@.len(),
                self.is_sno(),
                k <= n,
                forall|m: int| 0 <= m < k ==> spec_contains_range(self.0@, #[trigger] rhs.0@[m]),
            decreases n - k,
        {
            if !self.contains_range(&rhs.0[k]) {
                return false;
            }
            k = k + 1;
        }
        true
    }

    /// Returns the sum of the ranges lengths.
    pub fn range_sum(&self) -> (r: u64)
        requires
            self.is_sno(),
        ensures
            r == spec_range_sum(self.0@),
    {
        let s = &self.0;
        let n = s.len();
        let mut sum: u64 = 0;
        let mut k: usize = 0;
        while k < n
            invariant
                n == s@.len(),
                sno(s@),
                k <= n,
                sum == spec_range_sum(s@.take(k as int)),
            decreases n - k,
        {
            proof {
                let t = s@.take(k + 1);
                assert(t.drop_last() == s@.take(k as int));
                assert(sno(t)) by {
                    assert forall|i: int, j: int| 0 <= i < j < t.len() implies (#[trigger] t[i]).end < (#[trigger] t[j]).start by {
                        assert(s@[i].end < s@[j].start);
                    }
                }
                lemma_range_sum_bound(t);
            }
            sum = sum + (s[k].end - s[k].start);
            k = k + 1;
        }
        proof {
            assert(s@.take(n as int) == s@);
        }
        sum
    }

    /// Tells whether a value is covered by both `self` and `rhs`.
    pub fn intersects(&self, rhs: &Self) -> (r: bool)
        requires
            self.is_sno(),
            rhs.is_sno(),
        ensures
            r == exists|x: int| self.has(x) && rhs.has(x),
    {
        let l = &self.0;
        let r = &rhs.0;
        let nl = l.len();
        let nr = r.len();
        let mut i: usize = 0;
        let mut j: usize = 0;
        while i < nl && j < nr
            invariant
                l@ == self.0@,
                r@ == rhs.0@,
                nl == l@.len(),
                nr == r@.len(),
                sno(l@),
                sno(r@),
                i <= nl,
                j <= nr,
                forall|a: int, x: int| 0 <= a < i && #[trigger] range_has(l@[a], x) ==> !seq_has(r@, x),
                forall|b: int, x: int| 0 <= b < j && #[trigger] range_has(r@[b], x) ==> !seq_has(l@, x),
            decreases nl - i + nr - j,
        {
            if l[i].end <= r[j].start {
                proof {
                    assert forall|a: int, x: int| 0 <= a < i + 1 && #[trigger] range_has(l@[a], x) implies !seq_has(r@, x) by {
                        if a == i && seq_has(r@, x) {
                            let b = choose|b: int| 0 <= b < r@.len() && #[trigger] range_has(r@[b], x);
                            if b > j {
                                assert(r@[j as int].end < r@[b].start);
                            }
                            if b < j {
                                lemma_has_intro(l@, a, x);
                            }
                        }
                    }
                }
                i = i + 1;
            } else if r[j].end <= l[i].start {
                proof {
                    assert forall|b: int, x: int| 0 <= b < j + 1 && #[trigger] range_has(r@[b], x) implies !seq_has(l@, x) by {
                        if b == j && seq_has(l@, x) {
                            let a = choose|a: int| 0 <= a < l@.len() && #[trigger] range_has(l@[a], x);
                            if a > i {
                                assert(l@[i as int].end < l@[a].start);
                            }
                            if a < i {
                                lemma_has_intro(r@, b, x);
                            }
                        }
                    }
                }
                j = j + 1;
            } else {
                proof {
                    let x: int = if l@[i as int].start <= r@[j as int].start { r@[j as int].start as int } else { l@[i as int].start as int };
                    lemma_has_intro(l@, i as int, x);
                    lemma_has_intro(r@, j as int, x);
                    assert(self.has(x) && rhs.has(x));
                }
                return true;
            }
        }
        proof {
            assert forall|x: int| !(self.has(x) && rhs.has(x)) by {
                if seq_has(l@, x) && seq_has(r@, x) {
                    let a = choose|a: int| 0 <= a < l@.len() && #[trigger] range_has(l@[a], x);
                    let b = choose|b: int| 0 <= b < r@.len() && #[trigger] range_has(r@[b], x);
                }
            }
        }
        false
    }

    /// Union of the two sets of ranges.
    pub fn union(&self, other: &Self) -> (r: Self)
        requires
            self.is_sno(),
            other.is_sno(),
        ensures
            r.is_sno(),
            forall|x: int| #[trigger] r.has(x) <==> (self.has(x) || other.has(x)),
    {
        Ranges(merge_op(&self.0, &other.0, BoolOp::Or))
    }

    /// Intersection of the two sets of ranges.
    pub fn intersection(&self, other: &Self) -> (r: Self)
        requires
            self.is_sno(),
            other.is_sno(),
        ensures
            r.is_sno(),
            forall|x: int| #[trigger] r.has(x) <==> (self.has(x) && other.has(x)),
    {
        Ranges(merge_op(&self.0, &other.0, BoolOp::And))
    }

    /// Values of `self` not in `other`.
    pub fn difference(&self, other: &Self) -> (r: Self)
        requires
            self.is_sno(),
            other.is_sno(),
        ensures
            r.is_sno(),
            forall|x: int| #[trigger] r.has(x) <==> (self.has(x) && !other.has(x)),
    {
        Ranges(merge_op(&self.0, &other.0, BoolOp::Minus))
    }

    /// Values in exactly one of `self` and `other`.
    pub fn symmetric_difference(&self, other: &Self) -> (r: Self)
        requires
            self.is_sno(),
            other.is_sno(),
        ensures
            r.is_sno(),
            forall|x: int| #[trigger] r.has(x) <==> (self.has(x) != other.has(x)),
    {
        Ranges(merge_op(&self.0, &other.0, BoolOp::Xor))
    }

    /// Returns the complement assuming that the possible values are in
    /// `[0, upper_bound_exclusive[`.
    pub fn complement_with_upper_bound(&self, upper_bound_exclusive: u64) -> (r: Self)
        requires
            self.is_sno(),
            forall|k: int| 0 <= k < self.0@.len() ==> (#[trigger] self.0@[k]).end <= upper_bound_exclusive,
        ensures
            upper_bound_exclusive > 0 ==> r.is_sno(),
            self.0@.len() == 0 ==> r.0@ == seq![Range { start: 0u64, end: upper_bound_exclusive }],
            forall|x: int| #[trigger] r.has(x) <==> (0 <= x < upper_bound_exclusive && !self.has(x)),
    {
        let s = &self.0;
        let n = s.len();
        let ub = upper_bound_exclusive;
        let mut res: Vec<Range<u64>> = Vec::new();
        if n == 0 {
            res.push(Range { start: 0, end: ub });
            proof {
                assert forall|x: int| #[trigger] seq_has(res@, x) <==> (0 <= x < ub && !seq_has(s@, x)) by {
                    if 0 <= x < ub {
                        lemma_has_intro(res@, 0, x);
                    }
                }
            }
            return Ranges(res);
        }
        let mut k: usize = 0;
        let mut last: u64 = 0;
        if s[0].start == 0 {
            k = 1;
            last = s[0].end;
            proof {
                assert forall|x: int| #[trigger] seq_has(res@, x) <==> (0 <= x < last && !seq_has(s@, x)) by {
                    if 0 <= x < last {
                        lemma_has_intro(s@, 0, x);
                    }
                }
            }
        }
        while k < n
            invariant
                n == s@.len(),
                n > 0,
                sno(s@),
                forall|m: int| 0 <= m < n ==> (#[trigger] s@[m]).end <= ub,
                1 <= k <= n || (k == 0 && last == 0 && s@[0].start > 0),
                k > 0 ==> last == s@[k - 1].end,
                sno(res@),
                forall|m: int| 0 <= m < res@.len() ==> (#[trigger] res@[m]).end < last,
                forall|x: int| #[trigger] seq_has(res@, x) <==> (0 <= x < last && !seq_has(s@, x)),
            decreases n - k,
        {
            let ghost old_res = res@;
            let nr = Range { start: last, end: s[k].start };
            proof {
                if k > 0 {
                    assert(s@[k - 1].end < s@[k as int].start);
                }
                lemma_has_push(res@, nr);
                assert forall|x: int| #[trigger] seq_has(res@.push(nr), x) <==> (0 <= x < s@[k as int].end && !seq_has(s@, x)) by {
                    if seq_has(s@, x) && x < s@[k as int].end {
                        let m = choose|m: int| 0 <= m < s@.len() && #[trigger] range_has(s@[m], x);
                        if m > k {
                            assert(s@[k as int].end < s@[m].start);
                        }
                        if m < k {
                            assert(s@[m].end <= s@[k - 1].end);
                        }
                    }
                    if last <= x < s@[k as int].start && seq_has(s@, x) {
                        let m = choose|m: int| 0 <= m < s@.len() && #[trigger] range_has(s@[m], x);
                        if m < k - 1 {
                            assert(s@[m].end < s@[k - 1].start);
                        }
                        if m > k {
                            assert(s@[k as int].end < s@[m].start);
                        }
                    }
                    if s@[k as int].start <= x < s@[k as int].end {
                        lemma_has_intro(s@, k as int, x);
                    }
                }
            }
            res.push(nr);
            last = s[k].end;
            k = k + 1;
        }
        if last < ub {
            let ghost old_res = res@;
            proof {
                lemma_has_push(res@, Range { start: last, end: ub });
                assert forall|x: int| last <= x implies !#[trigger] seq_has(s@, x) by {
                    if seq_has(s@, x) {
                        let m = choose|m: int| 0 <= m < s@.len() && #[trigger] range_has(s@[m], x);
                        if m < n - 1 {
                            assert(s@[m].end < s@[n - 1].start);
                        }
                    }
                }
            }
            res.push(Range { start: last, end: ub });
        } else {
            proof {
                assert forall|x: int| last <= x implies !#[trigger] seq_has(s@, x) by {
                    if seq_has(s@, x) {
                        let m = choose|m: int| 0 <= m < s@.len() && #[trigger] range_has(s@[m], x);
                        if m < n - 1 {
                            assert(s@[m].end < s@[n - 1].start);
                        }
                    }
                }
            }
        }
        Ranges(res)
    }
}

/// The logical OR of all the bounds of the ranges.
pub open spec fn bounds_or(s: Seq<Range<u64>>) -> u64
    decreases s.len(),
{
    if s.len() == 0 {
        0
    } else {
        bounds_or(s.drop_last()) | s.last().start | s.last().end
    }
}

impl Ranges<u64> {
    /// Performs a logical OR between all the bounds of all ranges, and returns the number of
    /// trailing zeros (64 if the OR is 0).
    pub fn trailing_zeros(&self) -> (r: u8)
        ensures
            bounds_or(self.0@) == 0 ==> r == 64,
            bounds_or(self.0@) != 0 ==> r < 64 && crate::qty::has_trailing_zeros(bounds_or(self.0@) as int, r as nat),
    {
        let v = &self.0;
        let n = v.len();
        let mut all_vals_or: u64 = 0;
        let mut i: usize = 0;
        while i < n
            invariant
                n == v@.len(),
                i <= n,
                all_vals_or == bounds_or(v@.take(i as int)),
            decreases n - i,
        {
            all_vals_or = all_vals_or | v[i].start | v[i].end;
            proof {
                assert(v@.take(i + 1).drop_last() =~= v@.take(i as int));
            }
            i += 1;
        }
        proof {
            assert(v@.take(n as int) =~= v@);
        }
        if all_vals_or == 0 {
            64
        } else {
            crate::qty::count_trailing_zeros(all_vals_or) as u8
        }
    }
}

} // verus!
