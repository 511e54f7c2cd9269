//! Operations (union, intersection, symmetric difference) on a list of MOCs, combined four by
//! four, level after level.

use vstd::prelude::*;

use crate::moc::RangeMOC;
use crate::qty::MocQty;
use crate::ranges::BoolOp;

verus! {

/// The operator is associative and commutative.
pub open spec fn is_assoc(op: BoolOp) -> bool {
    op == BoolOp::Or || op == BoolOp::And || op == BoolOp::Xor
}

/// `x` is in the left fold by `op` of the MOCs of `ms` (false for an empty list).
pub open spec fn fold_has<Q: MocQty<u64>>(op: BoolOp, ms: Seq<RangeMOC<u64, Q>>, x: int) -> bool
    decreases ms.len(),
{
    if ms.len() <= 1 {
        ms.len() == 1 && ms[0].has(x)
    } else {
        op.spec_apply(fold_has(op, ms.drop_last(), x), ms.last().has(x))
    }
}

/// The largest depth of the MOCs of `ms` (0 for an empty list).
pub open spec fn max_depth<Q: MocQty<u64>>(ms: Seq<RangeMOC<u64, Q>>) -> u8
    decreases ms.len(),
{
    if ms.len() == 0 {
        0
    } else if ms.len() == 1 {
        ms[0].depth()
    } else {
        let d = max_depth(ms.drop_last());
        if d >= ms.last().depth() {
            d
        } else {
            ms.last().depth()
        }
    }
}

/// The MOCs behind the references.
pub open spec fn derefs<Q: MocQty<u64>>(s: Seq<&RangeMOC<u64, Q>>) -> Seq<RangeMOC<u64, Q>> {
    Seq::new(s.len(), |i: int| *s[i])
}

/// Every MOC of the list is well-formed.
pub open spec fn all_wf<Q: MocQty<u64>>(ms: Seq<RangeMOC<u64, Q>>) -> bool {
    forall|i: int| 0 <= i < ms.len() ==> (#[trigger] ms[i]).wf()
}

/// The fold of a concatenation is the combination of the folds.
pub proof fn lemma_fold_concat<Q: MocQty<u64>>(op: BoolOp, s1: Seq<RangeMOC<u64, Q>>, s2: Seq<RangeMOC<u64, Q>>, x: int)
    requires
        is_assoc(op),
        s1.len() > 0,
        s2.len() > 0,
    ensures
        fold_has(op, s1 + s2, x) == op.spec_apply(fold_has(op, s1, x), fold_has(op, s2, x)),
    decreases s2.len(),
{
    let s = s1 + s2;
    if s2.len() == 1 {
        assert(s.drop_last() =~= s1);
    } else {
        let s2p = s2.drop_last();
        assert(s.drop_last() =~= s1 + s2p);
        lemma_fold_concat(op, s1, s2p, x);
    }
}

/// The largest depth of a concatenation is the larger of the largest depths.
pub proof fn lemma_max_depth_concat<Q: MocQty<u64>>(s1: Seq<RangeMOC<u64, Q>>, s2: Seq<RangeMOC<u64, Q>>)
    requires
        s1.len() > 0,
        s2.len() > 0,
    ensures
        max_depth(s1 + s2) == if max_depth(s1) >= max_depth(s2) { max_depth(s1) } else { max_depth(s2) },
    decreases s2.len(),
{
    let s = s1 + s2;
    if s2.len() == 1 {
        assert(s.drop_last() =~= s1);
    } else {
        let s2p = s2.drop_last();
        assert(s.drop_last() =~= s1 + s2p);
        lemma_max_depth_concat(s1, s2p);
    }
}

/// Combines the `k` (1 to 4) MOCs starting at `i`: `((a op b) op (c op d))`.
fn combine_group<Q: MocQty<u64>>(v: &Vec<&RangeMOC<u64, Q>>, i: usize, k: usize, op: BoolOp) -> (r: RangeMOC<u64, Q>)
    requires
        is_assoc(op),
        1 <= k <= 4,
        i + k <= v@.len(),
        all_wf(derefs(v@)),
    ensures
        r.wf(),
        r.depth() == max_depth(derefs(v@).subrange(i as int, i + k)),
        forall|x: int| #[trigger] r.has(x) == fold_has(op, derefs(v@).subrange(i as int, i + k), x),
{
    let _n = v.len();
    let ghost d = derefs(v@);
    let ghost g = d.subrange(i as int, i + k);
    proof {
        assert(d[i as int].wf());
        reveal_with_fuel(fold_has, 4);
        reveal_with_fuel(max_depth, 4);
        assert(g.drop_last() =~= d.subrange(i as int, i + k - 1));
        if k >= 2 {
            assert(d[i + 1].wf());
            assert(g.drop_last().drop_last() =~= d.subrange(i as int, i + k - 2));
        }
        if k >= 3 {
            assert(d[i + 2].wf());
            assert(g.drop_last().drop_last().drop_last() =~= d.subrange(i as int, i + k - 3));
        }
        if k >= 4 {
            assert(d[i + 3].wf());
        }
    }
    if k == 1 {
        v[i].to_owned_moc()
    } else if k == 2 {
        v[i].binary_op(v[i + 1], op)
    } else if k == 3 {
        let a = v[i].binary_op(v[i + 1], op);
        a.binary_op(v[i + 2], op)
    } else {
        let a = v[i].binary_op(v[i + 1], op);
        let b = v[i + 2].binary_op(v[i + 3], op);
        let r = a.binary_op(&b, op);
        proof {
            let s1 = d.subrange(i as int, i + 2);
            let s2 = d.subrange(i + 2, i + 4);
            assert(g =~= s1 + s2);
            assert forall|x: int| #[trigger] r.has(x) == fold_has(op, g, x) by {
                lemma_fold_concat(op, s1, s2, x);
                assert(s1.drop_last() =~= d.subrange(i as int, i + 1));
                assert(s2.drop_last() =~= d.subrange(i + 2, i + 3));
            }
            lemma_max_depth_concat(s1, s2);
            assert(s1.drop_last() =~= d.subrange(i as int, i + 1));
            assert(s2.drop_last() =~= d.subrange(i + 2, i + 3));
        }
        r
    }
}

/// One level of the reduction: the MOCs combined four by four.
fn reduce_level<Q: MocQty<u64>>(v: &Vec<&RangeMOC<u64, Q>>, op: BoolOp) -> (w: Vec<RangeMOC<u64, Q>>)
    requires
        is_assoc(op),
        v@.len() > 0,
        all_wf(derefs(v@)),
    ensures
        w@.len() == (v@.len() + 3) / 4,
        w@.len() > 0,
        all_wf(w@),
        max_depth(w@) == max_depth(derefs(v@)),
        forall|x: int| #[trigger] fold_has(op, w@, x) == fold_has(op, derefs(v@), x),
{
    let n = v.len();
    let ghost d = derefs(v@);
    let mut w: Vec<RangeMOC<u64, Q>> = Vec::new();
    let mut i: usize = 0;
    while i < n
        invariant
            is_assoc(op),
            n == v@.len(),
            n > 0,
            d == derefs(v@),
            all_wf(d),
            i <= n,
            i < n ==> i % 4 == 0,
            w@.len() == (i + 3) / 4,
            all_wf(w@),
            i > 0 ==> max_depth(w@) == max_depth(d.subrange(0, i as int)),
            i > 0 ==> forall|x: int| #[trigger] fold_has(op, w@, x) == fold_has(op, d.subrange(0, i as int), x),
        decreases n - i,
    {
        let k: usize = if n - i >= 4 { 4 } else { n - i };
        let c = combine_group(v, i, k, op);
        let ghost w0 = w@;
        w.push(c);
        proof {
            let g = d.subrange(i as int, i + k);
            if i == 0 {
                assert(d.subrange(0, k as int) =~= g);
                assert forall|x: int| #[trigger] fold_has(op, w@, x) == fold_has(op, d.subrange(0, (i + k) as int), x) by {
                    assert(w@.len() == 1);
                }
            } else {
                assert(d.subrange(0, (i + k) as int) =~= d.subrange(0, i as int) + g);
                assert(w@.drop_last() =~= w0);
                assert forall|x: int| #[trigger] fold_has(op, w@, x) == fold_has(op, d.subrange(0, (i + k) as int), x) by {
                    lemma_fold_concat(op, d.subrange(0, i as int), g, x);
                    assert(fold_has(op, w0, x) == fold_has(op, d.subrange(0, i as int), x));
                }
                lemma_max_depth_concat(d.subrange(0, i as int), g);
            }
            assert forall|j: int| 0 <= j < w@.len() implies (#[trigger] w@[j]).wf() by {
                if j < w0.len() {
                    assert(w0[j].wf());
                }
            }
        }
        i = i + k;
    }
    proof {
        assert(d.subrange(0, n as int) =~= d);
    }
    w
}

/// References to the MOCs of the list.
fn refs_of<Q: MocQty<u64>>(v: &Vec<RangeMOC<u64, Q>>) -> (r: Vec<&RangeMOC<u64, Q>>)
    ensures
        derefs(r@) == v@,
{
    let mut r: Vec<&RangeMOC<u64, Q>> = Vec::new();
    let mut i: usize = 0;
    while i < v.len()
        invariant
            i <= v@.len(),
            r@.len() == i,
            forall|j: int| 0 <= j < i ==> *(#[trigger] r@[j]) == v@[j],
        decreases v@.len() - i,
    {
        r.push(&v[i]);
        i = i + 1;
    }
    proof {
        assert(derefs(r@) =~= v@);
    }
    r
}

/// Combines the MOCs of the list, taking them four by four, level after level.
fn kway<Q: MocQty<u64>>(v: Vec<RangeMOC<u64, Q>>, op: BoolOp) -> (r: RangeMOC<u64, Q>)
    requires
        is_assoc(op),
        all_wf(v@),
    ensures
        r.wf(),
        r.depth() == max_depth(v@),
        forall|x: int| #[trigger] r.has(x) == fold_has(op, v@, x),
    decreases v@.len(),
{
    let mut v = v;
    if v.len() == 0 {
        let r = RangeMOC::new_empty(0);
        proof {
            assert forall|x: int| #[trigger] r.has(x) == fold_has(op, v@, x) by {
                if r.has(x) {
                    let k = choose|k: int| 0 <= k < r.rs().len() && #[trigger] crate::ranges::range_has(r.rs()[k], x);
                }
            }
        }
        r
    } else if v.len() == 1 {
        let ghost v0 = v@;
        let r = v.pop().unwrap();
        proof {
            assert(r == v0[0]);
            assert(v0[0].wf());
        }
        r
    } else {
        let refs = refs_of(&v);
        let w = reduce_level(&refs, op);
        kway(w, op)
    }
}

/// Combines the referenced MOCs, taking them four by four, level after level.
fn kway_refs<Q: MocQty<u64>>(v: &Vec<&RangeMOC<u64, Q>>, op: BoolOp) -> (r: RangeMOC<u64, Q>)
    requires
        is_assoc(op),
        all_wf(derefs(v@)),
    ensures
        r.wf(),
        r.depth() == max_depth(derefs(v@)),
        forall|x: int| #[trigger] r.has(x) == fold_has(op, derefs(v@), x),
{
    if v.len() == 0 {
        let e: Vec<RangeMOC<u64, Q>> = Vec::new();
        proof {
            assert(derefs(v@) =~= e@);
        }
        kway(e, op)
    } else {
        let w = reduce_level(v, op);
        kway(w, op)
    }
}

/// Union of all the MOCs of the list (an empty MOC of depth 0 for an empty list).
pub fn kway_or<Q: MocQty<u64>>(mocs: Vec<RangeMOC<u64, Q>>) -> (r: RangeMOC<u64, Q>)
    requires
        all_wf(mocs@),
    ensures
        r.wf(),
        r.depth() == max_depth(mocs@),
        forall|x: int| #[trigger] r.has(x) == fold_has(BoolOp::Or, mocs@, x),
{
    kway(mocs, BoolOp::Or)
}

/// Intersection of all the MOCs of the list (an empty MOC of depth 0 for an empty list).
pub fn kway_and<Q: MocQty<u64>>(mocs: Vec<RangeMOC<u64, Q>>) -> (r: RangeMOC<u64, Q>)
    requires
        all_wf(mocs@),
    ensures
        r.wf(),
        r.depth() == max_depth(mocs@),
        forall|x: int| #[trigger] r.has(x) == fold_has(BoolOp::And, mocs@, x),
{
    kway(mocs, BoolOp::And)
}

/// Symmetric difference of all the MOCs of the list: the values in an odd number of them
/// (an empty MOC of depth 0 for an empty list).
pub fn kway_xor<Q: MocQty<u64>>(mocs: Vec<RangeMOC<u64, Q>>) -> (r: RangeMOC<u64, Q>)
    requires
        all_wf(mocs@),
    ensures
        r.wf(),
        r.depth() == max_depth(mocs@),
        forall|x: int| #[trigger] r.has(x) == fold_has(BoolOp::Xor, mocs@, x),
{
    kway(mocs, BoolOp::Xor)
}

/// Union of all the referenced MOCs (an empty MOC of depth 0 for an empty list).
pub fn kway_or_it<Q: MocQty<u64>>(mocs: &Vec<&RangeMOC<u64, Q>>) -> (r: RangeMOC<u64, Q>)
    requires
        all_wf(derefs(mocs@)),
    ensures
        r.wf(),
        r.depth() == max_depth(derefs(mocs@)),
        forall|x: int| #[trigger] r.has(x) == fold_has(BoolOp::Or, derefs(mocs@), x),
{
    kway_refs(mocs, BoolOp::Or)
}

/// Intersection of all the referenced MOCs (an empty MOC of depth 0 for an empty list).
pub fn kway_and_it<Q: MocQty<u64>>(mocs: &Vec<&RangeMOC<u64, Q>>) -> (r: RangeMOC<u64, Q>)
    requires
        all_wf(derefs(mocs@)),
    ensures
        r.wf(),
        r.depth() == max_depth(derefs(mocs@)),
        forall|x: int| #[trigger] r.has(x) == fold_has(BoolOp::And, derefs(mocs@), x),
{
    kway_refs(mocs, BoolOp::And)
}

/// Symmetric difference of all the referenced MOCs (an empty MOC of depth 0 for an empty
/// list).
pub fn kway_xor_it<Q: MocQty<u64>>(mocs: &Vec<&RangeMOC<u64, Q>>) -> (r: RangeMOC<u64, Q>)
    requires
        all_wf(derefs(mocs@)),
    ensures
        r.wf(),
        r.depth() == max_depth(derefs(mocs@)),
        forall|x: int| #[trigger] r.has(x) == fold_has(BoolOp::Xor, derefs(mocs@), x),
{
    kway_refs(mocs, BoolOp::Xor)
}

/// The largest depth of MOCs of depth at most `d` is at most `d`.
pub proof fn lemma_max_depth_le<Q: MocQty<u64>>(ms: Seq<RangeMOC<u64, Q>>, d: u8)
    requires
        forall|i: int| 0 <= i < ms.len() ==> (#[trigger] ms[i]).depth() <= d,
    ensures
        max_depth(ms) <= d,
    decreases ms.len(),
{
    if ms.len() > 1 {
        lemma_max_depth_le(ms.drop_last(), d);
        assert(ms.last().depth() <= d);
    } else if ms.len() == 1 {
        assert(ms[0].depth() <= d);
    }
}

} // verus!
