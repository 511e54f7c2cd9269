//! Filling the holes of a spatial MOC: the parts of its complement, but the largest ones.

use vstd::prelude::*;

use crate::cells::{cells_has, Cell};
use crate::laws::is_complement;
use crate::moc::RangeMOC;
use crate::multi_op::{all_wf, fold_has, kway_or};
use crate::qty::Hpx;
use crate::ranges::{spec_range_sum, BoolOp};
use crate::split::joint_split;

verus! {

/// Number of the parts `j < m` ranked before the part `c`: of larger key, or of equal key and
/// before it.
pub open spec fn rank_before(keys: Seq<u64>, c: int, m: int) -> nat
    decreases m,
{
    if m <= 0 {
        0
    } else {
        rank_before(keys, c, m - 1) + if keys[m - 1] > keys[c] || (keys[m - 1] == keys[c] && m - 1 < c) {
            1nat
        } else {
            0nat
        }
    }
}

/// The rank of the part `c` when the parts are sorted by decreasing key, parts of equal keys
/// keeping their order.
pub open spec fn rank(keys: Seq<u64>, c: int) -> nat {
    rank_before(keys, c, keys.len() as int)
}

/// The area of each part, in units of `2^12` values at the deepest resolution (the precision
/// at which the area is compared).
pub open spec fn area_keys(parts: Seq<RangeMOC<u64, Hpx<u64>>>) -> Seq<u64> {
    Seq::new(parts.len(), |c: int| (spec_range_sum(parts[c].rs()) / 4096) as u64)
}

/// `x` is in a part of rank at least `skip`.
pub open spec fn in_small_part(parts: Seq<RangeMOC<u64, Hpx<u64>>>, skip: int, x: int) -> bool {
    exists|c: int| 0 <= c < parts.len() && rank(area_keys(parts), c) >= skip && #[trigger] parts[c].has(x)
}

/// `parts` are the MOCs of the groups of cells `g`.
pub open spec fn parts_of_groups(parts: Seq<RangeMOC<u64, Hpx<u64>>>, g: Seq<Seq<Cell>>) -> bool {
    &&& parts.len() == g.len()
    &&& forall|c: int|
        0 <= c < parts.len() ==> (#[trigger] parts[c]).wf() && forall|x: int|
            #[trigger] parts[c].has(x) <==> cells_has::<Hpx<u64>>(g[c], x)
}

/// The filled MOC of `m`: `m` with the parts of its complement, split into joint parts, of rank
/// at least `skip` when sorted by decreasing area.
pub open spec fn is_filled(m: RangeMOC<u64, Hpx<u64>>, skip: int, r: RangeMOC<u64, Hpx<u64>>) -> bool {
    exists|comp: RangeMOC<u64, Hpx<u64>>, g: Seq<Seq<Cell>>, parts: Seq<RangeMOC<u64, Hpx<u64>>>|
        #![trigger is_complement(m, comp), joint_split(comp, true, g), parts_of_groups(parts, g)]
        is_complement(m, comp) && joint_split(comp, true, g) && parts_of_groups(parts, g) && forall|x: int|
            #[trigger] r.has(x) <==> (m.has(x) || in_small_part(parts, skip, x))
}

/// The rank of the part `c`.
fn rank_of(keys: &Vec<u64>, c: usize) -> (r: usize)
    requires
        c < keys@.len(),
    ensures
        r == rank(keys@, c as int),
{
    let n = keys.len();
    let mut r: usize = 0;
    let mut j: usize = 0;
    while j < n
        invariant
            n == keys@.len(),
            c < n,
            j <= n,
            r == rank_before(keys@, c as int, j as int),
            r <= j,
        decreases n - j,
    {
        if keys[j] > keys[c] || (keys[j] == keys[c] && j < c) {
            r = r + 1;
        }
        j = j + 1;
    }
    r
}

impl RangeMOC<u64, Hpx<u64>> {
    /// The joint parts of the complement of the MOC (cells sharing an edge or a vertex are
    /// joint), with their area keys.
    fn complement_parts(&self) -> (r: (Vec<RangeMOC<u64, Hpx<u64>>>, Vec<u64>, Ghost<(RangeMOC<u64, Hpx<u64>>, Seq<Seq<Cell>>)>))
        requires
            self.wf(),
        ensures
            is_complement(*self, r.2@.0),
            joint_split(r.2@.0, true, r.2@.1),
            parts_of_groups(r.0@, r.2@.1),
            r.1@ == area_keys(r.0@),
            forall|q: int| 0 <= q < r.0@.len() ==> (#[trigger] r.0@[q]).depth() == self.depth(),
    {
        let comp = self.complement();
        let split = comp.split_into_joint_mocs(true);
        let ghost g = split@.map_values(|c: crate::cells::CellMOC<u64, Hpx<u64>>| c.cs());
        let n = split.len();
        let mut parts: Vec<RangeMOC<u64, Hpx<u64>>> = Vec::new();
        let mut keys: Vec<u64> = Vec::new();
        let mut i: usize = 0;
        while i < n
            invariant
                n == split@.len(),
                i <= n,
                g == split@.map_values(|c: crate::cells::CellMOC<u64, Hpx<u64>>| c.cs()),
                forall|q: int| 0 <= q < split@.len() ==> (#[trigger] split@[q]).wf(),
                parts@.len() == i,
                keys@.len() == i,
                forall|q: int| 0 <= q < split@.len() ==> (#[trigger] split@[q]).depth() == self.depth(),
                forall|c: int| 0 <= c < i ==> (#[trigger] parts@[c]).depth() == self.depth(),
                forall|c: int|
                    0 <= c < i ==> (#[trigger] parts@[c]).wf() && forall|x: int|
                        #[trigger] parts@[c].has(x) <==> cells_has::<Hpx<u64>>(g[c], x),
                forall|c: int| 0 <= c < i ==> #[trigger] keys@[c] == (spec_range_sum(parts@[c].rs()) / 4096) as u64,
            decreases n - i,
        {
            let m = split[i].to_range_moc();
            let area = m.range_sum();
            let ghost p0 = parts@;
            keys.push(area >> 12);
            parts.push(m);
            proof {
                vstd::bits::lemma_u64_shr_is_div(area, 12);
                vstd::arithmetic::power2::lemma2_to64();
                assert forall|c: int|
                    0 <= c < i + 1 implies (#[trigger] parts@[c]).wf() && forall|x: int|
                        #[trigger] parts@[c].has(x) <==> cells_has::<Hpx<u64>>(g[c], x) by {
                    if c < i {
                        assert(parts@[c] == p0[c]);
                    }
                }
                assert forall|c: int| 0 <= c < i + 1 implies (#[trigger] parts@[c]).depth() == self.depth() by {
                    if c < i {
                        assert(parts@[c] == p0[c]);
                    }
                }
            }
            i = i + 1;
        }
        proof {
            assert(keys@ =~= area_keys(parts@));
            assert(parts_of_groups(parts@, g));
        }
        (parts, keys, Ghost((comp, g)))
    }
}

impl RangeMOC<u64, Hpx<u64>> {
    /// Fills the holes of the MOC, except the `except_n_largest` (0 by default) largest ones:
    /// the complement is split into joint parts (cells sharing an edge or a vertex are joint),
    /// the `1 + except_n_largest` parts of largest areas (the first ones on equal areas) are
    /// left out, and the others are added to the MOC.
    pub fn fill_holes(&self, except_n_largest: Option<usize>) -> (r: Self)
        requires
            self.wf(),
            except_n_largest matches Some(k) ==> k < usize::MAX,
        ensures
            r.wf(),
            r.depth() == self.depth(),
            is_filled(*self, 1 + match except_n_largest {
                Some(k) => k as int,
                None => 0,
            }, r),
    {
        let skip: usize = 1 + match except_n_largest {
            Some(k) => k,
            None => 0,
        };
        let (parts, keys, Ghost(cg)) = self.complement_parts();
        let ghost comp = cg.0;
        let ghost g = cg.1;
        let n = parts.len();
        let mut kept: Vec<RangeMOC<u64, Hpx<u64>>> = Vec::new();
        let ghost mut src: Seq<int> = Seq::empty();
        let mut c: usize = 0;
        while c < n
            invariant
                n == parts@.len(),
                keys@ == area_keys(parts@),
                c <= n,
                forall|q: int| 0 <= q < n ==> (#[trigger] parts@[q]).wf(),
                forall|q: int| 0 <= q < n ==> (#[trigger] parts@[q]).depth() == self.depth(),
                forall|j: int| 0 <= j < kept@.len() ==> (#[trigger] kept@[j]).depth() == self.depth(),
                src.len() == kept@.len(),
                all_wf(kept@),
                forall|j: int| 0 <= j < kept@.len() ==> 0 <= #[trigger] src[j] < c && kept@[j].rs() == parts@[src[j]].rs()
                    && rank(keys@, src[j]) >= skip,
                forall|q: int| 0 <= q < c && #[trigger] rank(keys@, q) >= skip ==> exists|j: int| 0 <= j < kept@.len() && src[j] == q,
            decreases n - c,
        {
            let rk = rank_of(&keys, c);
            if rk >= skip {
                let ghost k0 = kept@;
                proof {
                    assert(parts@[c as int].wf());
                }
                kept.push(parts[c].to_owned_moc());
                let ghost src0 = src;
                proof {
                    src = src.push(c as int);
                    assert forall|j: int| 0 <= j < kept@.len() implies 0 <= #[trigger] src[j] < c + 1 && kept@[j].rs()
                        == parts@[src[j]].rs() && rank(keys@, src[j]) >= skip by {
                        if j < k0.len() {
                            assert(kept@[j] == k0[j]);
                        }
                    }
                    assert forall|q: int| 0 <= q < c + 1 && #[trigger] rank(keys@, q) >= skip implies exists|j: int|
                        0 <= j < kept@.len() && src[j] == q by {
                        if q == c {
                            assert(src[k0.len() as int] == q);
                        } else {
                            let j = choose|j: int| 0 <= j < k0.len() && src0[j] == q;
                            assert(src[j] == src0[j]);
                        }
                    }
                    assert forall|j: int| 0 <= j < kept@.len() implies (#[trigger] kept@[j]).depth() == self.depth() by {
                        if j < k0.len() {
                            assert(kept@[j] == k0[j]);
                        }
                    }
                    assert forall|j: int| 0 <= j < kept@.len() implies (#[trigger] kept@[j]).wf() by {
                        if j < k0.len() {
                            assert(kept@[j] == k0[j]);
                        } else {
                            assert(parts@[c as int].wf());
                        }
                    }
                }
            }
            c = c + 1;
        }
        let ghost kept_s = kept@;
        let u = kway_or(kept);
        proof {
            crate::multi_op::lemma_max_depth_le(kept_s, self.depth());
        }
        let r = self.or(&u);
        proof {
            self.lemma_fill_holes_result(comp, g, parts@, kept_s, src, skip as int, u, r);
        }
        r
    }

    /// The union of the MOC with the kept parts is the filled MOC.
    proof fn lemma_fill_holes_result(
        &self,
        comp: RangeMOC<u64, Hpx<u64>>,
        g: Seq<Seq<Cell>>,
        parts: Seq<RangeMOC<u64, Hpx<u64>>>,
        kept: Seq<RangeMOC<u64, Hpx<u64>>>,
        src: Seq<int>,
        skip: int,
        u: RangeMOC<u64, Hpx<u64>>,
        r: RangeMOC<u64, Hpx<u64>>,
    )
        requires
            self.wf(),
            is_complement(*self, comp),
            joint_split(comp, true, g),
            parts_of_groups(parts, g),
            src.len() == kept.len(),
            forall|j: int| 0 <= j < kept.len() ==> 0 <= #[trigger] src[j] < parts.len() && kept[j].rs() == parts[src[j]].rs()
                && rank(area_keys(parts), src[j]) >= skip,
            forall|q: int| 0 <= q < parts.len() && #[trigger] rank(area_keys(parts), q) >= skip ==> exists|j: int|
                0 <= j < kept.len() && src[j] == q,
            forall|x: int| #[trigger] u.has(x) == fold_has(BoolOp::Or, kept, x),
            forall|x: int| #[trigger] r.has(x) <==> (self.has(x) || u.has(x)),
        ensures
            is_filled(*self, skip, r),
    {
        assert forall|x: int| #[trigger] r.has(x) <==> (self.has(x) || in_small_part(parts, skip, x)) by {
            lemma_fold_or_has(kept, x);
            if u.has(x) {
                let j = choose|j: int| 0 <= j < kept.len() && #[trigger] kept[j].has(x);
                let q = src[j];
                assert(parts[q].has(x));
            }
            if in_small_part(parts, skip, x) {
                let q = choose|q: int| 0 <= q < parts.len() && rank(area_keys(parts), q) >= skip && #[trigger] parts[q].has(x);
                let j = choose|j: int| 0 <= j < kept.len() && src[j] == q;
                assert(kept[j].has(x));
            }
        }
        assert(is_complement(*self, comp));
    }
}

/// `x` is in a part whose area key is at most `max_key`.
pub open spec fn in_part_at_most(parts: Seq<RangeMOC<u64, Hpx<u64>>>, max_key: int, x: int) -> bool {
    exists|c: int| 0 <= c < parts.len() && area_keys(parts)[c] <= max_key && #[trigger] parts[c].has(x)
}

/// `r` is `m` with the parts of its complement, split into joint parts, whose area key is at
/// most `max_key`.
pub open spec fn is_filled_below(m: RangeMOC<u64, Hpx<u64>>, max_key: int, r: RangeMOC<u64, Hpx<u64>>) -> bool {
    exists|comp: RangeMOC<u64, Hpx<u64>>, g: Seq<Seq<Cell>>, parts: Seq<RangeMOC<u64, Hpx<u64>>>|
        #![trigger is_complement(m, comp), joint_split(comp, true, g), parts_of_groups(parts, g)]
        is_complement(m, comp) && joint_split(comp, true, g) && parts_of_groups(parts, g) && forall|x: int|
            #[trigger] r.has(x) <==> (m.has(x) || in_part_at_most(parts, max_key, x))
}

impl RangeMOC<u64, Hpx<u64>> {
    /// Fills the holes of the MOC whose area is at most `max_area_key`: the complement is split
    /// into joint parts (cells sharing an edge or a vertex are joint), and the parts whose area
    /// key (the number of values at the deepest resolution, divided by `2^12`) is at most
    /// `max_area_key` are added to the MOC.
    pub fn fill_holes_smaller_than(&self, max_area_key: u64) -> (r: Self)
        requires
            self.wf(),
        ensures
            r.wf(),
            r.depth() == self.depth(),
            is_filled_below(*self, max_area_key as int, r),
    {
        let (parts, keys, Ghost(cg)) = self.complement_parts();
        let ghost comp = cg.0;
        let ghost g = cg.1;
        let n = parts.len();
        let mut kept: Vec<RangeMOC<u64, Hpx<u64>>> = Vec::new();
        let ghost mut src: Seq<int> = Seq::empty();
        let mut c: usize = 0;
        while c < n
            invariant
                n == parts@.len(),
                keys@ == area_keys(parts@),
                c <= n,
                forall|q: int| 0 <= q < n ==> (#[trigger] parts@[q]).wf(),
                forall|q: int| 0 <= q < n ==> (#[trigger] parts@[q]).depth() == self.depth(),
                forall|j: int| 0 <= j < kept@.len() ==> (#[trigger] kept@[j]).depth() == self.depth(),
                src.len() == kept@.len(),
                all_wf(kept@),
                forall|j: int| 0 <= j < kept@.len() ==> 0 <= #[trigger] src[j] < c && kept@[j].rs() == parts@[src[j]].rs()
                    && keys@[src[j]] <= max_area_key,
                forall|q: int| 0 <= q < c && #[trigger] keys@[q] <= max_area_key ==> exists|j: int| 0 <= j < kept@.len() && src[j] == q,
            decreases n - c,
        {
            if keys[c] <= max_area_key {
                let ghost k0 = kept@;
                proof {
                    assert(parts@[c as int].wf());
                }
                kept.push(parts[c].to_owned_moc());
                let ghost src0 = src;
                proof {
                    src = src.push(c as int);
                    assert forall|j: int| 0 <= j < kept@.len() implies 0 <= #[trigger] src[j] < c + 1 && kept@[j].rs()
                        == parts@[src[j]].rs() && keys@[src[j]] <= max_area_key by {
                        if j < k0.len() {
                            assert(kept@[j] == k0[j]);
                        }
                    }
                    assert forall|q: int| 0 <= q < c + 1 && #[trigger] keys@[q] <= max_area_key implies exists|j: int|
                        0 <= j < kept@.len() && src[j] == q by {
                        if q == c {
                            assert(src[k0.len() as int] == q);
                        } else {
                            let j = choose|j: int| 0 <= j < k0.len() && src0[j] == q;
                            assert(src[j] == src0[j]);
                        }
                    }
                    assert forall|j: int| 0 <= j < kept@.len() implies (#[trigger] kept@[j]).depth() == self.depth() by {
                        if j < k0.len() {
                            assert(kept@[j] == k0[j]);
                        }
                    }
                    assert forall|j: int| 0 <= j < kept@.len() implies (#[trigger] kept@[j]).wf() by {
                        if j < k0.len() {
                            assert(kept@[j] == k0[j]);
                        } else {
                            assert(parts@[c as int].wf());
                        }
                    }
                }
            }
            c = c + 1;
        }
        let ghost kept_s = kept@;
        let u = kway_or(kept);
        proof {
            crate::multi_op::lemma_max_depth_le(kept_s, self.depth());
        }
        let r = self.or(&u);
        proof {
            let ps = parts@;
            assert forall|x: int| #[trigger] r.has(x) <==> (self.has(x) || in_part_at_most(ps, max_area_key as int, x)) by {
                lemma_fold_or_has(kept_s, x);
                if u.has(x) {
                    let j = choose|j: int| 0 <= j < kept_s.len() && #[trigger] kept_s[j].has(x);
                    let q = src[j];
                    assert(ps[q].has(x));
                }
                if in_part_at_most(ps, max_area_key as int, x) {
                    let q = choose|q: int| 0 <= q < ps.len() && area_keys(ps)[q] <= max_area_key && #[trigger] ps[q].has(x);
                    assert(keys@[q] <= max_area_key);
                    let j = choose|j: int| 0 <= j < kept_s.len() && src[j] == q;
                    assert(kept_s[j].has(x));
                }
            }
            assert(is_complement(*self, comp));
        }
        r
    }
}

/// `x` is in the union of the list exactly when it is in one of the MOCs.
pub proof fn lemma_fold_or_has(ms: Seq<RangeMOC<u64, Hpx<u64>>>, x: int)
    ensures
        fold_has(BoolOp::Or, ms, x) <==> exists|j: int| 0 <= j < ms.len() && #[trigger] ms[j].has(x),
    decreases ms.len(),
{
    if ms.len() > 1 {
        lemma_fold_or_has(ms.drop_last(), x);
        if exists|j: int| 0 <= j < ms.len() && #[trigger] ms[j].has(x) {
            let j = choose|j: int| 0 <= j < ms.len() && #[trigger] ms[j].has(x);
            if j < ms.len() - 1 {
                assert(ms.drop_last()[j].has(x));
            }
        }
        if fold_has(BoolOp::Or, ms.drop_last(), x) {
            let j = choose|j: int| 0 <= j < ms.drop_last().len() && #[trigger] ms.drop_last()[j].has(x);
            assert(ms[j].has(x));
        }
        if ms.last().has(x) {
            assert(ms[ms.len() - 1].has(x));
        }
    } else if ms.len() == 1 {
        if ms[0].has(x) {
            assert(ms[0].has(x));
        }
    }
}

} // verus!
