//! Selection of the ranges of a MOC that overlap another MOC.

use std::ops::Range;
use vstd::prelude::*;
use crate::qty::MocQty;
use crate::ranges::{sno, Ranges};
use crate::moc::{aligned, ends_le, cell_len, RangeMOC};

verus! {

/// The two ranges share at least one value (both being non-empty).
pub open spec fn overlap(a: Range<u64>, b: Range<u64>) -> bool {
    a.start < b.end && b.start < a.end
}

/// `x` overlaps at least one range of `s`.
pub open spec fn overlaps_some(s: Seq<Range<u64>>, x: Range<u64>) -> bool {
    exists|k: int| 0 <= k < s.len() && #[trigger] overlap(s[k], x)
}

/// The ranges of `l`, in their order, that overlap at least one range of `r`.
pub open spec fn overlapping(l: Seq<Range<u64>>, r: Seq<Range<u64>>) -> Seq<Range<u64>>
    decreases l.len(),
{
    if l.len() == 0 {
        Seq::empty()
    } else {
        let rest = overlapping(l.drop_last(), r);
        if overlaps_some(r, l.last()) {
            rest.push(l.last())
        } else {
            rest
        }
    }
}

/// The MOC made of the ranges of `left` that overlap at least one range of `right`: the
/// ranges are kept whole, not cut to the intersection. The depth is that of `left`.
pub fn overlapped_by<Q: MocQty<u64>>(left: &RangeMOC<u64, Q>, right: &RangeMOC<u64, Q>) -> (res:
    RangeMOC<u64, Q>)
    requires
        left.wf(),
        right.wf(),
    ensures
        res.wf(),
        res.depth() == left.depth(),
        res.rs() == overlapping(left.rs(), right.rs()),
{
    let l = &left.moc_ranges().0;
    let r = &right.moc_ranges().0;
    let n = l.len();
    let m = r.len();
    let ghost p = cell_len::<Q>(left.depth() as int);
    let ghost mx = Q::spec_n_cells_max();
    let mut res: Vec<Range<u64>> = Vec::new();
    let mut i: usize = 0;
    let mut j: usize = 0;
    while i < n
        invariant
            l@ == left.rs(),
            r@ == right.rs(),
            n == l.len(),
            m == r.len(),
            sno(l@),
            sno(r@),
            aligned(l@, p),
            ends_le(l@, mx),
            i <= n,
            j <= m,
            i < n ==> forall|k: int| 0 <= k < j ==> (#[trigger] r@[k]).end <= l@[i as int].start,
            res@ == overlapping(l@.take(i as int), r@),
            sno(res@),
            aligned(res@, p),
            ends_le(res@, mx),
            i > 0 ==> forall|k: int| 0 <= k < res@.len() ==> (#[trigger] res@[k]).end <= l@[i - 1].end,
        decreases n - i,
    {
        let s = l[i].start;
        let e = l[i].end;
        while j < m && r[j].end <= s
            invariant
                r@ == right.rs(),
                m == r.len(),
                sno(r@),
                j <= m,
                forall|k: int| 0 <= k < j ==> (#[trigger] r@[k]).end <= s,
            decreases m - j,
        {
            j += 1;
        }
        let hit = j < m && r[j].start < e;
        proof {
            let li = l@[i as int];
            assert(li == (Range { start: s, end: e }));
            if hit {
                assert(overlap(r@[j as int], li));
            } else {
                assert forall|k: int| 0 <= k < r@.len() implies !#[trigger] overlap(r@[k], li) by {
                    if k >= j && overlap(r@[k], li) {
                        if k > j {
                            assert(r@[j as int].end < r@[k].start);
                        }
                    }
                }
            }
            assert(hit <==> overlaps_some(r@, li));
            assert(l@.take(i as int + 1).drop_last() == l@.take(i as int));
            assert(l@.take(i as int + 1).last() == li);
            if i > 0 {
                assert(l@[i - 1].end < li.start);
            }
        }
        if hit {
            res.push(Range { start: s, end: e });
        }
        i += 1;
        proof {
            if i < n {
                assert(l@[i - 1].end < l@[i as int].start);
            }
        }
    }
    proof {
        assert(l@.take(n as int) == l@);
    }
    RangeMOC::new(left.depth_max(), Ranges::new_unchecked(res))
}

} // verus!
