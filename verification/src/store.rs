//! A store of MOCs, identified by their index in the store.
//! Operations read MOCs of the store and store their results, returning their indices.

use slab::Slab;
use vstd::prelude::*;
use vstd::string::*;

use crate::cells::{cells_has, Cell, CellMOC};
use crate::hpx::{hpx_complement, hpx_set, in_ext_edge};
use crate::split::joint_split;
use crate::moc::{cell_len, contracted_has, degraded_has, expanded_has, RangeMOC};
use crate::moc2d::RangeMOC2;
use crate::qty::{Frequency, Hpx, MocQty, Time};

verus! {

#[verifier::external_type_specification]
#[verifier::external_body]
#[verifier::reject_recursive_types(T)]
pub struct ExSlab<T>(Slab<T>);

/// Type of MOC.
#[derive(Clone, Copy, Debug, PartialEq, Eq)]
pub enum MocQType {
    Space,
    Time,
    Frequency,
    SpaceTime,
}

/// A MOC of the store.
#[derive(Debug)]
pub enum InternalMoc {
    Space(RangeMOC<u64, Hpx<u64>>),
    Time(RangeMOC<u64, Time<u64>>),
    Frequency(RangeMOC<u64, Frequency<u64>>),
    TimeSpace(RangeMOC2<u64, Time<u64>, u64, Hpx<u64>>),
}

impl InternalMoc {
    pub open spec fn wf(&self) -> bool {
        match self {
            InternalMoc::Space(m) => m.wf(),
            InternalMoc::Time(m) => m.wf(),
            InternalMoc::Frequency(m) => m.wf(),
            InternalMoc::TimeSpace(m) => m.wf(),
        }
    }

    pub open spec fn qty_type(&self) -> MocQType {
        match self {
            InternalMoc::Space(_) => MocQType::Space,
            InternalMoc::Time(_) => MocQType::Time,
            InternalMoc::Frequency(_) => MocQType::Frequency,
            InternalMoc::TimeSpace(_) => MocQType::SpaceTime,
        }
    }

    pub fn get_qty_type(&self) -> (r: MocQType)
        ensures
            r == self.qty_type(),
    {
        match self {
            InternalMoc::Space(_) => MocQType::Space,
            InternalMoc::Time(_) => MocQType::Time,
            InternalMoc::Frequency(_) => MocQType::Frequency,
            InternalMoc::TimeSpace(_) => MocQType::SpaceTime,
        }
    }
}

/// The entries (number of copies and MOC) of the slab, by key.
pub uninterp spec fn slab_entries(s: Slab<(u8, InternalMoc)>) -> Map<usize, (u8, InternalMoc)>;

/// No entry.
pub open spec fn no_entries() -> Map<usize, (u8, InternalMoc)> {
    Map::empty()
}

/// `Slab::new`: a slab with no entry.
#[verifier::external_body]
fn slab_new() -> (r: Slab<(u8, InternalMoc)>)
    ensures
        slab_entries(r) == no_entries(),
{
    Slab::new()
}

/// `Slab::insert`: stores the value at a key that holds no value and returns that key.
#[verifier::external_body]
fn slab_insert(s: &mut Slab<(u8, InternalMoc)>, v: (u8, InternalMoc)) -> (k: usize)
    ensures
        !slab_entries(*old(s)).dom().contains(k),
        slab_entries(*final(s)) == slab_entries(*old(s)).insert(k, v),
{
    s.insert(v)
}

/// `Slab::get`: the value stored at the key, if any.
#[verifier::external_body]
fn slab_get(s: &Slab<(u8, InternalMoc)>, k: usize) -> (r: Option<&(u8, InternalMoc)>)
    ensures
        match r {
            Some(v) => slab_entries(*s).dom().contains(k) && *v == slab_entries(*s)[k],
            None => !slab_entries(*s).dom().contains(k),
        },
{
    s.get(k)
}

/// `Slab::remove`: removes and returns the value stored at the key (it panics on a key that
/// holds no value).
#[verifier::external_body]
fn slab_remove(s: &mut Slab<(u8, InternalMoc)>, k: usize) -> (r: (u8, InternalMoc))
    requires
        slab_entries(*old(s)).dom().contains(k),
    ensures
        r == slab_entries(*old(s))[k],
        slab_entries(*final(s)) == slab_entries(*old(s)).remove(k),
{
    s.remove(k)
}

/// The mutable index operator of `Slab` (it panics on a key that holds no value), used to
/// replace the number of copies of the MOC stored at the key.
#[verifier::external_body]
fn slab_set_count(s: &mut Slab<(u8, InternalMoc)>, k: usize, count: u8)
    requires
        slab_entries(*old(s)).dom().contains(k),
    ensures
        slab_entries(*final(s)) == slab_entries(*old(s)).insert(k, (count, slab_entries(*old(s))[k].1)),
{
    s[k].0 = count;
}

/// The decimal digit `d`.
pub open spec fn digit(d: nat) -> char {
    (48 + d % 10) as char
}

/// Decimal representation of `n`.
pub open spec fn decimal(n: nat) -> Seq<char>
    decreases n,
{
    if n < 10 {
        seq![digit(n)]
    } else {
        decimal(n / 10).push(digit(n % 10))
    }
}

/// Message of the error given when no MOC is stored at the index.
pub open spec fn not_found_text(index: nat) -> Seq<char> {
    "MOC at index '"@ + decimal(index) + "' not found"@
}

/// The one-character string of the decimal digit `d`.
fn digit_str(d: u64) -> (r: &'static str)
    requires
        d < 10,
    ensures
        r@ == seq![digit(d as nat)],
{
    if d == 0 {
        proof { reveal_strlit("0"); }
        "0"
    } else if d == 1 {
        proof { reveal_strlit("1"); }
        "1"
    } else if d == 2 {
        proof { reveal_strlit("2"); }
        "2"
    } else if d == 3 {
        proof { reveal_strlit("3"); }
        "3"
    } else if d == 4 {
        proof { reveal_strlit("4"); }
        "4"
    } else if d == 5 {
        proof { reveal_strlit("5"); }
        "5"
    } else if d == 6 {
        proof { reveal_strlit("6"); }
        "6"
    } else if d == 7 {
        proof { reveal_strlit("7"); }
        "7"
    } else if d == 8 {
        proof { reveal_strlit("8"); }
        "8"
    } else {
        proof { reveal_strlit("9"); }
        "9"
    }
}

/// Appends the decimal writing of `n`.
pub(crate) fn append_decimal(s: &mut String, n: u64)
    ensures
        final(s)@ == old(s)@ + decimal(n as nat),
    decreases n,
{
    if n >= 10 {
        append_decimal(s, n / 10);
    }
    let d = digit_str(n % 10);
    s.append(d);
    proof {
        assert(digit((n % 10) as nat) == digit(n as nat));
        if n >= 10 {
            assert(final(s)@ =~= old(s)@ + decimal(n as nat));
        } else {
            assert(final(s)@ =~= old(s)@ + decimal(n as nat));
        }
    }
}

/// The message of the error given when no MOC is stored at `index`, with `index` written in
/// decimal.
fn not_found_msg(index: usize) -> (r: String)
    ensures
        r@ == not_found_text(index as nat),
{
    let mut s = String::from_str("MOC at index '");
    append_decimal(&mut s, index as u64);
    s.append("' not found");
    proof {
        assert(s@ =~= not_found_text(index as nat));
    }
    s
}

/// Message of the error given when copying a MOC already copied 255 times.
pub open spec fn max_copies_text() -> Seq<char> {
    "Unable to copy MOC: 255 copies already reached"@
}

/// A store of MOCs, each with its number of copies.
pub struct U64MocStore {
    store: Slab<(u8, InternalMoc)>,
}

impl U64MocStore {
    /// The stored entries (number of copies and MOC), by index.
    pub closed spec fn entries(&self) -> Map<usize, (u8, InternalMoc)> {
        slab_entries(self.store)
    }

    /// Each stored MOC is well-formed and has at least one copy.
    pub open spec fn wf(&self) -> bool {
        forall|k: usize| #[trigger] self.entries().dom().contains(k) ==> self.entries()[k].0 >= 1 && self.entries()[k].1.wf()
    }

    /// An empty store.
    pub fn new() -> (r: Self)
        ensures
            r.wf(),
            r.entries() == no_entries(),
    {
        U64MocStore { store: slab_new() }
    }

    /// Adds a new MOC to the store, returning the index at which it has been inserted.
    pub fn add(&mut self, moc: InternalMoc) -> (k: usize)
        requires
            old(self).wf(),
            moc.wf(),
        ensures
            final(self).wf(),
            !old(self).entries().dom().contains(k),
            final(self).entries() == old(self).entries().insert(k, (1u8, moc)),
    {
        let k = slab_insert(&mut self.store, (1u8, moc));
        proof {
            assert forall|j: usize| #[trigger] self.entries().dom().contains(j) implies self.entries()[j].0 >= 1
                && self.entries()[j].1.wf() by {
                if j != k {
                    assert(old(self).entries().dom().contains(j));
                }
            }
        }
        k
    }

    /// The MOC stored at the index.
    pub fn get(&self, index: usize) -> (r: Result<&InternalMoc, String>)
        ensures
            match r {
                Ok(m) => self.entries().dom().contains(index) && *m == self.entries()[index].1,
                Err(e) => !self.entries().dom().contains(index) && e@ == not_found_text(index as nat),
            },
    {
        match slab_get(&self.store, index) {
            Some(entry) => Ok(&entry.1),
            None => Err(not_found_msg(index)),
        }
    }

    /// Registers one more copy of the MOC stored at the index.
    pub fn copy_moc(&mut self, index: usize) -> (r: Result<(), String>)
        requires
            old(self).wf(),
        ensures
            final(self).wf(),
            !old(self).entries().dom().contains(index) ==> r == Err::<(), String>(r->Err_0) && r->Err_0@
                == not_found_text(index as nat) && final(self).entries() == old(self).entries(),
            old(self).entries().dom().contains(index) && old(self).entries()[index].0 == 255 ==> r
                == Err::<(), String>(r->Err_0) && r->Err_0@ == max_copies_text() && final(self).entries()
                == old(self).entries(),
            old(self).entries().dom().contains(index) && old(self).entries()[index].0 < 255 ==> r is Ok
                && final(self).entries() == old(self).entries().insert(
                index,
                ((old(self).entries()[index].0 + 1) as u8, old(self).entries()[index].1),
            ),
    {
        let count = match slab_get(&self.store, index) {
            Some(entry) => entry.0,
            None => {
                return Err(not_found_msg(index));
            },
        };
        if count == 255 {
            Err("Unable to copy MOC: 255 copies already reached".to_owned())
        } else {
            slab_set_count(&mut self.store, index, count + 1);
            proof {
                assert forall|j: usize| #[trigger] self.entries().dom().contains(j) implies self.entries()[j].0 >= 1
                    && self.entries()[j].1.wf() by {
                    assert(old(self).entries().dom().contains(j));
                }
            }
            Ok(())
        }
    }

    /// Remove from the store (one copy of) the MOC at the given index: the MOC leaves the store
    /// with its last copy.
    pub fn drop(&mut self, index: usize) -> (r: Result<(), String>)
        requires
            old(self).wf(),
        ensures
            final(self).wf(),
            !old(self).entries().dom().contains(index) ==> r == Err::<(), String>(r->Err_0) && r->Err_0@
                == not_found_text(index as nat) && final(self).entries() == old(self).entries(),
            old(self).entries().dom().contains(index) && old(self).entries()[index].0 == 1 ==> r is Ok
                && final(self).entries() == old(self).entries().remove(index),
            old(self).entries().dom().contains(index) && old(self).entries()[index].0 > 1 ==> r is Ok
                && final(self).entries() == old(self).entries().insert(
                index,
                ((old(self).entries()[index].0 - 1) as u8, old(self).entries()[index].1),
            ),
    {
        let count = match slab_get(&self.store, index) {
            Some(entry) => entry.0,
            None => {
                return Err(not_found_msg(index));
            },
        };
        proof {
            assert(old(self).entries().dom().contains(index));
        }
        if count == 1 {
            let _ = slab_remove(&mut self.store, index);
        } else {
            slab_set_count(&mut self.store, index, count - 1);
        }
        proof {
            assert forall|j: usize| #[trigger] self.entries().dom().contains(j) implies self.entries()[j].0 >= 1
                && self.entries()[j].1.wf() by {
                assert(old(self).entries().dom().contains(j));
            }
        }
        Ok(())
    }
}

/// Operations on one MOC giving one MOC.
#[derive(Clone, Copy, Debug, PartialEq, Eq)]
pub enum Op1 {
    Complement,
    Degrade { new_depth: u8 },
    Extend,
    Contract,
    ExtBorder,
    IntBorder,
}

/// `b` is the complement or the degradation of `a`.
pub open spec fn common_op1<Q: MocQty<u64>>(op: Op1, a: RangeMOC<u64, Q>, b: RangeMOC<u64, Q>) -> bool {
    match op {
        Op1::Complement => b.depth() == a.depth() && forall|x: int|
            #[trigger] b.has(x) <==> (0 <= x < Q::spec_n_cells_max() && !a.has(x)),
        Op1::Degrade { new_depth } => b.depth() == (if new_depth < a.depth() {
            new_depth
        } else {
            a.depth()
        }) && forall|x: int|
            #[trigger] b.has(x) <==> degraded_has(
                a.rs(),
                cell_len::<Q>(if new_depth < Q::MAX_DEPTH { new_depth as int } else { Q::MAX_DEPTH as int }),
                x,
            ),
        _ => false,
    }
}

/// `b` is the result of `op` on the time or frequency MOC `a`.
pub open spec fn one_d_op1<Q: MocQty<u64>>(op: Op1, a: RangeMOC<u64, Q>, b: RangeMOC<u64, Q>) -> bool {
    &&& b.wf()
    &&& match op {
        Op1::Extend => b.depth() == a.depth() && forall|x: int|
            #[trigger] b.has(x) <==> expanded_has(
                a.rs(),
                cell_len::<Q>(a.depth() as int),
                Q::spec_n_cells_max(),
                x,
            ),
        Op1::Contract => b.depth() == a.depth() && forall|x: int|
            #[trigger] b.has(x) <==> contracted_has(a.rs(), cell_len::<Q>(a.depth() as int), x),
        _ => common_op1(op, a, b),
    }
}

/// `b` is the result of `op` on the spatial MOC `a`.
pub open spec fn smoc_op1(op: Op1, a: RangeMOC<u64, Hpx<u64>>, b: RangeMOC<u64, Hpx<u64>>) -> bool {
    &&& b.wf()
    &&& b.depth() == a.depth() || op is Degrade
    &&& match op {
        Op1::Extend => forall|x: int|
            #[trigger] b.has(x) <==> (a.has(x) || in_ext_edge(hpx_set(a), a.depth() as int, x)),
        Op1::Contract => forall|x: int|
            #[trigger] b.has(x) <==> (a.has(x) && !in_ext_edge(hpx_complement(a), a.depth() as int, x)),
        Op1::ExtBorder => forall|x: int|
            #[trigger] b.has(x) <==> (!a.has(x) && in_ext_edge(hpx_set(a), a.depth() as int, x)),
        Op1::IntBorder => forall|x: int|
            #[trigger] b.has(x) <==> (a.has(x) && in_ext_edge(hpx_complement(a), a.depth() as int, x)),
        _ => common_op1(op, a, b),
    }
}

/// Message of the error given by `op` on a MOC of the given type, if it is not available for
/// that type.
pub open spec fn op1_err(op: Op1, t: MocQType) -> Option<Seq<char>> {
    match t {
        MocQType::Space => None,
        MocQType::Time => match op {
            Op1::ExtBorder => Some("External border not implemented (yet) for T-MOCs."@),
            Op1::IntBorder => Some("Internal border not implemented (yet) for T-MOCs."@),
            _ => None,
        },
        MocQType::Frequency => match op {
            Op1::ExtBorder => Some("External border not implemented (yet) for F-MOCs."@),
            Op1::IntBorder => Some("Internal border not implemented (yet) for F-MOCs."@),
            _ => None,
        },
        MocQType::SpaceTime => Some(
            match op {
                Op1::Complement => "Complement not implemented (yet) for ST-MOCs."@,
                Op1::Degrade { .. } => "Degrade not implemented (yet) for ST-MOCs."@,
                Op1::Extend => "Extend border not implemented (yet) for ST-MOCs."@,
                Op1::Contract => "Contract border not implemented (yet) for ST-MOCs."@,
                Op1::ExtBorder => "External border not implemented (yet) for ST-MOCs."@,
                Op1::IntBorder => "Internal border not implemented (yet) for ST-MOCs."@,
            },
        ),
    }
}

/// `r` is the result of `op` on `m`.
pub open spec fn op1_ok(op: Op1, m: InternalMoc, r: InternalMoc) -> bool {
    match (m, r) {
        (InternalMoc::Space(a), InternalMoc::Space(b)) => smoc_op1(op, a, b),
        (InternalMoc::Time(a), InternalMoc::Time(b)) => one_d_op1(op, a, b),
        (InternalMoc::Frequency(a), InternalMoc::Frequency(b)) => one_d_op1(op, a, b),
        _ => false,
    }
}

impl Op1 {
    /// Performs the operation on the given MOC.
    pub fn perform(self, m: &InternalMoc) -> (r: Result<InternalMoc, String>)
        requires
            m.wf(),
        ensures
            match r {
                Ok(res) => op1_err(self, m.qty_type()) is None && op1_ok(self, *m, res) && res.wf(),
                Err(e) => op1_err(self, m.qty_type()) == Some(e@),
            },
    {
        match m {
            InternalMoc::Space(a) => Ok(
                InternalMoc::Space(
                    match self {
                        Op1::Complement => a.not(),
                        Op1::Degrade { new_depth } => a.degraded(new_depth),
                        Op1::Extend => a.expanded(),
                        Op1::Contract => a.contracted(),
                        Op1::ExtBorder => a.external_border(),
                        Op1::IntBorder => a.internal_border(),
                    },
                ),
            ),
            InternalMoc::Time(a) => match self {
                Op1::Complement => Ok(InternalMoc::Time(a.not())),
                Op1::Degrade { new_depth } => Ok(InternalMoc::Time(a.degraded(new_depth))),
                Op1::Extend => Ok(InternalMoc::Time(a.expanded())),
                Op1::Contract => Ok(InternalMoc::Time(a.contracted())),
                Op1::ExtBorder => Err("External border not implemented (yet) for T-MOCs.".to_owned()),
                Op1::IntBorder => Err("Internal border not implemented (yet) for T-MOCs.".to_owned()),
            },
            InternalMoc::Frequency(a) => match self {
                Op1::Complement => Ok(InternalMoc::Frequency(a.not())),
                Op1::Degrade { new_depth } => Ok(InternalMoc::Frequency(a.degraded(new_depth))),
                Op1::Extend => Ok(InternalMoc::Frequency(a.expanded())),
                Op1::Contract => Ok(InternalMoc::Frequency(a.contracted())),
                Op1::ExtBorder => Err("External border not implemented (yet) for F-MOCs.".to_owned()),
                Op1::IntBorder => Err("Internal border not implemented (yet) for F-MOCs.".to_owned()),
            },
            InternalMoc::TimeSpace(_) => Err(
                match self {
                    Op1::Complement => "Complement not implemented (yet) for ST-MOCs.".to_owned(),
                    Op1::Degrade { .. } => "Degrade not implemented (yet) for ST-MOCs.".to_owned(),
                    Op1::Extend => "Extend border not implemented (yet) for ST-MOCs.".to_owned(),
                    Op1::Contract => "Contract border not implemented (yet) for ST-MOCs.".to_owned(),
                    Op1::ExtBorder => "External border not implemented (yet) for ST-MOCs.".to_owned(),
                    Op1::IntBorder => "Internal border not implemented (yet) for ST-MOCs.".to_owned(),
                },
            ),
        }
    }
}

/// Outcome of `op` on the MOC stored at `index` in `s0`: the store `s1` and the result `r`.
pub open spec fn op1_done(s0: U64MocStore, s1: U64MocStore, index: usize, op: Op1, r: Result<usize, String>) -> bool {
    if !s0.entries().dom().contains(index) {
        r is Err && r->Err_0@ == not_found_text(index as nat) && s1.entries() == s0.entries()
    } else {
        match op1_err(op, s0.entries()[index].1.qty_type()) {
            Some(msg) => r is Err && r->Err_0@ == msg && s1.entries() == s0.entries(),
            None => r is Ok && !s0.entries().dom().contains(r->Ok_0) && op1_ok(
                op,
                s0.entries()[index].1,
                s1.entries()[r->Ok_0].1,
            ) && s1.entries() == s0.entries().insert(r->Ok_0, (1u8, s1.entries()[r->Ok_0].1)),
        }
    }
}

/// Operations on two MOCs giving one MOC.
#[derive(Clone, Copy, Debug, PartialEq, Eq)]
pub enum Op2 {
    Intersection,
    Union,
    SymmetricDifference,
    Minus,
    TFold,
    SFold,
}

/// The boolean operation applied point-wise by `op`.
pub open spec fn op2_bool(op: Op2, a: bool, b: bool) -> bool {
    match op {
        Op2::Intersection => a && b,
        Op2::Union => a || b,
        Op2::SymmetricDifference => a != b,
        Op2::Minus => a && !b,
        _ => false,
    }
}

/// `c` is the result of `op` on the MOCs `a` and `b` of the same quantity.
pub open spec fn same_op2<Q: MocQty<u64>>(op: Op2, a: RangeMOC<u64, Q>, b: RangeMOC<u64, Q>, c: RangeMOC<u64, Q>) -> bool {
    &&& c.wf()
    &&& c.depth() == if a.depth() >= b.depth() { a.depth() } else { b.depth() }
    &&& forall|x: int| #[trigger] c.has(x) <==> op2_bool(op, a.has(x), b.has(x))
}

/// Message of the error given by `op` on MOCs of the given types, if it is not available for
/// those types.
pub open spec fn op2_err(op: Op2, lt: MocQType, rt: MocQType) -> Option<Seq<char>> {
    match (lt, rt) {
        (MocQType::Space, MocQType::Space) => match op {
            Op2::TFold => Some("TimeFold operation not available on 2 S-MOCs."@),
            Op2::SFold => Some("SpaceFold operation not available on 2 S-MOCs."@),
            _ => None,
        },
        (MocQType::Time, MocQType::Time) => match op {
            Op2::TFold => Some("TimeFold operation not available on 2 T-MOCs."@),
            Op2::SFold => Some("SpaceFold operation not available on 2 T-MOCs."@),
            _ => None,
        },
        (MocQType::Frequency, MocQType::Frequency) => match op {
            Op2::TFold => Some("TimeFold operation not available on 2 F-MOCs."@),
            Op2::SFold => Some("SpaceFold operation not available on 2 F-MOCs."@),
            _ => None,
        },
        (MocQType::SpaceTime, MocQType::SpaceTime) => match op {
            Op2::SymmetricDifference => Some("Symmetric difference not implemented yet for ST-MOCs."@),
            Op2::TFold => Some("TimeFold operation not available on 2 ST-MOCs."@),
            Op2::SFold => Some("SpaceFold operation not available on 2 ST-MOCs."@),
            _ => None,
        },
        (MocQType::Space, MocQType::SpaceTime) => match op {
            Op2::SFold => None,
            _ => Some("Operation SpaceFold expected on S-MOC vs ST-MOC."@),
        },
        (MocQType::Time, MocQType::SpaceTime) => match op {
            Op2::TFold => None,
            _ => Some("Operation TimeFold expected on T-MOC vs ST-MOC."@),
        },
        _ => Some("Both type of both MOCs must be the same, except in fold operations"@),
    }
}

/// `res` is the result of `op` on `l` and `r`.
pub open spec fn op2_ok(op: Op2, l: InternalMoc, r: InternalMoc, res: InternalMoc) -> bool {
    match (l, r, res) {
        (InternalMoc::Space(a), InternalMoc::Space(b), InternalMoc::Space(c)) => same_op2(op, a, b, c),
        (InternalMoc::Time(a), InternalMoc::Time(b), InternalMoc::Time(c)) => same_op2(op, a, b, c),
        (InternalMoc::Frequency(a), InternalMoc::Frequency(b), InternalMoc::Frequency(c)) => same_op2(op, a, b, c),
        (InternalMoc::TimeSpace(a), InternalMoc::TimeSpace(b), InternalMoc::TimeSpace(c)) => {
            &&& c.wf()
            &&& c.dl() == if a.dl() >= b.dl() { a.dl() } else { b.dl() }
            &&& c.dr() == if a.dr() >= b.dr() { a.dr() } else { b.dr() }
            &&& forall|t: int, s: int| #[trigger] c.has2(t, s) <==> op2_bool(op, a.has2(t, s), b.has2(t, s))
        },
        (InternalMoc::Space(a), InternalMoc::TimeSpace(b), InternalMoc::Time(c)) => {
            &&& c.wf()
            &&& c.depth() == b.dl()
            &&& forall|t: int| #[trigger] c.has(t) <==> (exists|s: int| a.has(s) && #[trigger] b.has2(t, s))
        },
        (InternalMoc::Time(a), InternalMoc::TimeSpace(b), InternalMoc::Space(c)) => {
            &&& c.wf()
            &&& c.depth() == b.dr()
            &&& forall|s: int| #[trigger] c.has(s) <==> (exists|t: int| a.has(t) && #[trigger] b.has2(t, s))
        },
        _ => false,
    }
}

impl Op2 {
    /// Performs the operation on the given MOCs.
    pub fn perform(self, l: &InternalMoc, r: &InternalMoc) -> (res: Result<InternalMoc, String>)
        requires
            l.wf(),
            r.wf(),
        ensures
            match res {
                Ok(m) => op2_err(self, l.qty_type(), r.qty_type()) is None && op2_ok(self, *l, *r, m) && m.wf(),
                Err(e) => op2_err(self, l.qty_type(), r.qty_type()) == Some(e@),
            },
    {
        match (l, r) {
            (InternalMoc::Space(a), InternalMoc::Space(b)) => match self {
                Op2::Intersection => Ok(InternalMoc::Space(a.and(b))),
                Op2::Union => Ok(InternalMoc::Space(a.or(b))),
                Op2::SymmetricDifference => Ok(InternalMoc::Space(a.xor(b))),
                Op2::Minus => Ok(InternalMoc::Space(a.minus(b))),
                Op2::TFold => Err("TimeFold operation not available on 2 S-MOCs.".to_owned()),
                Op2::SFold => Err("SpaceFold operation not available on 2 S-MOCs.".to_owned()),
            },
            (InternalMoc::Time(a), InternalMoc::Time(b)) => match self {
                Op2::Intersection => Ok(InternalMoc::Time(a.and(b))),
                Op2::Union => Ok(InternalMoc::Time(a.or(b))),
                Op2::SymmetricDifference => Ok(InternalMoc::Time(a.xor(b))),
                Op2::Minus => Ok(InternalMoc::Time(a.minus(b))),
                Op2::TFold => Err("TimeFold operation not available on 2 T-MOCs.".to_owned()),
                Op2::SFold => Err("SpaceFold operation not available on 2 T-MOCs.".to_owned()),
            },
            (InternalMoc::Frequency(a), InternalMoc::Frequency(b)) => match self {
                Op2::Intersection => Ok(InternalMoc::Frequency(a.and(b))),
                Op2::Union => Ok(InternalMoc::Frequency(a.or(b))),
                Op2::SymmetricDifference => Ok(InternalMoc::Frequency(a.xor(b))),
                Op2::Minus => Ok(InternalMoc::Frequency(a.minus(b))),
                Op2::TFold => Err("TimeFold operation not available on 2 F-MOCs.".to_owned()),
                Op2::SFold => Err("SpaceFold operation not available on 2 F-MOCs.".to_owned()),
            },
            (InternalMoc::TimeSpace(a), InternalMoc::TimeSpace(b)) => match self {
                Op2::Intersection => Ok(InternalMoc::TimeSpace(a.and(b))),
                Op2::Union => Ok(InternalMoc::TimeSpace(a.or(b))),
                Op2::SymmetricDifference => Err("Symmetric difference not implemented yet for ST-MOCs.".to_owned()),
                Op2::Minus => Ok(InternalMoc::TimeSpace(a.minus(b))),
                Op2::TFold => Err("TimeFold operation not available on 2 ST-MOCs.".to_owned()),
                Op2::SFold => Err("SpaceFold operation not available on 2 ST-MOCs.".to_owned()),
            },
            (InternalMoc::Space(a), InternalMoc::TimeSpace(b)) => match self {
                Op2::SFold => Ok(InternalMoc::Time(RangeMOC2::project_on_first_dim_meeting(a, b))),
                _ => Err("Operation SpaceFold expected on S-MOC vs ST-MOC.".to_owned()),
            },
            (InternalMoc::Time(a), InternalMoc::TimeSpace(b)) => match self {
                Op2::TFold => Ok(InternalMoc::Space(RangeMOC2::project_on_second_dim(a, b))),
                _ => Err("Operation TimeFold expected on T-MOC vs ST-MOC.".to_owned()),
            },
            _ => Err("Both type of both MOCs must be the same, except in fold operations".to_owned()),
        }
    }
}

/// Outcome of `op` on the MOCs stored at `li` and `ri` in `s0`: the store `s1` and the result
/// `r`.
pub open spec fn op2_done(
    s0: U64MocStore,
    s1: U64MocStore,
    li: usize,
    ri: usize,
    op: Op2,
    r: Result<usize, String>,
) -> bool {
    if !s0.entries().dom().contains(li) {
        r is Err && r->Err_0@ == not_found_text(li as nat) && s1.entries() == s0.entries()
    } else if !s0.entries().dom().contains(ri) {
        r is Err && r->Err_0@ == not_found_text(ri as nat) && s1.entries() == s0.entries()
    } else {
        match op2_err(op, s0.entries()[li].1.qty_type(), s0.entries()[ri].1.qty_type()) {
            Some(msg) => r is Err && r->Err_0@ == msg && s1.entries() == s0.entries(),
            None => r is Ok && !s0.entries().dom().contains(r->Ok_0) && op2_ok(
                op,
                s0.entries()[li].1,
                s0.entries()[ri].1,
                s1.entries()[r->Ok_0].1,
            ) && s1.entries() == s0.entries().insert(r->Ok_0, (1u8, s1.entries()[r->Ok_0].1)),
        }
    }
}

impl U64MocStore {
    /// Performs the operation on the MOC at the given index and stores the resulting MOC,
    /// returning its index.
    fn exec_op1(&mut self, index: usize, op: Op1) -> (r: Result<usize, String>)
        requires
            old(self).wf(),
        ensures
            final(self).wf(),
            op1_done(*old(self), *final(self), index, op, r),
    {
        let res = match self.get(index) {
            Ok(m) => {
                proof {
                    assert(self.entries().dom().contains(index));
                }
                op.perform(m)
            },
            Err(e) => {
                return Err(e);
            },
        };
        match res {
            Ok(m) => Ok(self.add(m)),
            Err(e) => Err(e),
        }
    }

    /// Performs the operation on the MOCs at the given indices and stores the resulting MOC,
    /// returning its index.
    fn exec_op2(&mut self, left_index: usize, right_index: usize, op: Op2) -> (r: Result<usize, String>)
        requires
            old(self).wf(),
        ensures
            final(self).wf(),
            op2_done(*old(self), *final(self), left_index, right_index, op, r),
    {
        let res = match self.get(left_index) {
            Ok(l) => match self.get(right_index) {
                Ok(r) => {
                    proof {
                        assert(self.entries().dom().contains(left_index));
                        assert(self.entries().dom().contains(right_index));
                    }
                    op.perform(l, r)
                },
                Err(e) => {
                    return Err(e);
                },
            },
            Err(e) => {
                return Err(e);
            },
        };
        match res {
            Ok(m) => Ok(self.add(m)),
            Err(e) => Err(e),
        }
    }
}

impl U64MocStore {
    /// Complement of the MOC (same as `complement`).
    pub fn not(&mut self, index: usize) -> (r: Result<usize, String>)
        requires
            old(self).wf(),
        ensures
            final(self).wf(),
            op1_done(*old(self), *final(self), index, Op1::Complement, r),
    {
        self.exec_op1(index, Op1::Complement)
    }

    /// Complement of the MOC in the domain of its quantity.
    pub fn complement(&mut self, index: usize) -> (r: Result<usize, String>)
        requires
            old(self).wf(),
        ensures
            final(self).wf(),
            op1_done(*old(self), *final(self), index, Op1::Complement, r),
    {
        self.exec_op1(index, Op1::Complement)
    }

    /// Adds to the MOC its external border at the MOC depth.
    pub fn extend(&mut self, index: usize) -> (r: Result<usize, String>)
        requires
            old(self).wf(),
        ensures
            final(self).wf(),
            op1_done(*old(self), *final(self), index, Op1::Extend, r),
    {
        self.exec_op1(index, Op1::Extend)
    }

    /// Removes from the MOC its internal border at the MOC depth.
    pub fn contract(&mut self, index: usize) -> (r: Result<usize, String>)
        requires
            old(self).wf(),
        ensures
            final(self).wf(),
            op1_done(*old(self), *final(self), index, Op1::Contract, r),
    {
        self.exec_op1(index, Op1::Contract)
    }

    /// External border of a spatial MOC.
    pub fn ext_border(&mut self, index: usize) -> (r: Result<usize, String>)
        requires
            old(self).wf(),
        ensures
            final(self).wf(),
            op1_done(*old(self), *final(self), index, Op1::ExtBorder, r),
    {
        self.exec_op1(index, Op1::ExtBorder)
    }

    /// Internal border of a spatial MOC.
    pub fn int_border(&mut self, index: usize) -> (r: Result<usize, String>)
        requires
            old(self).wf(),
        ensures
            final(self).wf(),
            op1_done(*old(self), *final(self), index, Op1::IntBorder, r),
    {
        self.exec_op1(index, Op1::IntBorder)
    }

    /// Degrades the MOC to the given depth.
    pub fn degrade(&mut self, index: usize, new_depth: u8) -> (r: Result<usize, String>)
        requires
            old(self).wf(),
        ensures
            final(self).wf(),
            op1_done(*old(self), *final(self), index, Op1::Degrade { new_depth }, r),
    {
        self.exec_op1(index, Op1::Degrade { new_depth })
    }

    /// Union of the two MOCs (same as `union`).
    pub fn or(&mut self, left_index: usize, right_index: usize) -> (r: Result<usize, String>)
        requires
            old(self).wf(),
        ensures
            final(self).wf(),
            op2_done(*old(self), *final(self), left_index, right_index, Op2::Union, r),
    {
        self.exec_op2(left_index, right_index, Op2::Union)
    }

    /// Union of two MOCs of the same type.
    pub fn union(&mut self, left_index: usize, right_index: usize) -> (r: Result<usize, String>)
        requires
            old(self).wf(),
        ensures
            final(self).wf(),
            op2_done(*old(self), *final(self), left_index, right_index, Op2::Union, r),
    {
        self.exec_op2(left_index, right_index, Op2::Union)
    }

    /// Intersection of the two MOCs (same as `intersection`).
    pub fn and(&mut self, left_index: usize, right_index: usize) -> (r: Result<usize, String>)
        requires
            old(self).wf(),
        ensures
            final(self).wf(),
            op2_done(*old(self), *final(self), left_index, right_index, Op2::Intersection, r),
    {
        self.exec_op2(left_index, right_index, Op2::Intersection)
    }

    /// Intersection of two MOCs of the same type.
    pub fn intersection(&mut self, left_index: usize, right_index: usize) -> (r: Result<usize, String>)
        requires
            old(self).wf(),
        ensures
            final(self).wf(),
            op2_done(*old(self), *final(self), left_index, right_index, Op2::Intersection, r),
    {
        self.exec_op2(left_index, right_index, Op2::Intersection)
    }

    /// Symmetric difference of the two MOCs (same as `difference`).
    pub fn xor(&mut self, left_index: usize, right_index: usize) -> (r: Result<usize, String>)
        requires
            old(self).wf(),
        ensures
            final(self).wf(),
            op2_done(*old(self), *final(self), left_index, right_index, Op2::SymmetricDifference, r),
    {
        self.exec_op2(left_index, right_index, Op2::SymmetricDifference)
    }

    /// Symmetric difference of two MOCs of the same type.
    pub fn difference(&mut self, left_index: usize, right_index: usize) -> (r: Result<usize, String>)
        requires
            old(self).wf(),
        ensures
            final(self).wf(),
            op2_done(*old(self), *final(self), left_index, right_index, Op2::SymmetricDifference, r),
    {
        self.exec_op2(left_index, right_index, Op2::SymmetricDifference)
    }

    /// The values of the left MOC not in the right MOC.
    pub fn minus(&mut self, left_index: usize, right_index: usize) -> (r: Result<usize, String>)
        requires
            old(self).wf(),
        ensures
            final(self).wf(),
            op2_done(*old(self), *final(self), left_index, right_index, Op2::Minus, r),
    {
        self.exec_op2(left_index, right_index, Op2::Minus)
    }

    /// Union of the S-MOCs associated to T-MOCs intersecting the given T-MOC.
    /// Left: T-MOC, right: ST-MOC, result: S-MOC.
    pub fn time_fold(&mut self, time_moc_index: usize, st_moc_index: usize) -> (r: Result<usize, String>)
        requires
            old(self).wf(),
        ensures
            final(self).wf(),
            op2_done(*old(self), *final(self), time_moc_index, st_moc_index, Op2::TFold, r),
    {
        self.exec_op2(time_moc_index, st_moc_index, Op2::TFold)
    }

    /// Union of the T-MOCs associated to S-MOCs intersecting the given S-MOC.
    /// Left: S-MOC, right: ST-MOC, result: T-MOC.
    pub fn space_fold(&mut self, space_moc_index: usize, st_moc_index: usize) -> (r: Result<usize, String>)
        requires
            old(self).wf(),
        ensures
            final(self).wf(),
            op2_done(*old(self), *final(self), space_moc_index, st_moc_index, Op2::SFold, r),
    {
        self.exec_op2(space_moc_index, st_moc_index, Op2::SFold)
    }
}

/// `mi` is the spatial MOC, of depth `d`, covering the cells `cells`.
pub open spec fn is_cells_moc(mi: InternalMoc, cells: Seq<Cell>, d: u8) -> bool {
    match mi {
        InternalMoc::Space(x) => x.wf() && x.depth() == d && forall|v: int| #[trigger] x.has(v) <==> cells_has::<Hpx<u64>>(cells, v),
        _ => false,
    }
}

/// `s1` is `s0` plus, at the new indices `v`, one copy of the MOCs of the groups of cells.
pub open spec fn stored_groups(s0: U64MocStore, s1: U64MocStore, v: Seq<usize>, groups: Seq<Seq<Cell>>, d: u8) -> bool {
    &&& v.len() == groups.len()
    &&& v.no_duplicates()
    &&& forall|i: int| 0 <= i < v.len() ==> !s0.entries().dom().contains(#[trigger] v[i])
    &&& forall|k: usize| #[trigger] s1.entries().dom().contains(k) <==> (s0.entries().dom().contains(k) || v.contains(k))
    &&& forall|k: usize| #[trigger] s0.entries().dom().contains(k) ==> s1.entries()[k] == s0.entries()[k]
    &&& forall|i: int|
        0 <= i < v.len() ==> s1.entries()[#[trigger] v[i]].0 == 1 && is_cells_moc(s1.entries()[v[i]].1, groups[i], d)
}

/// Message of the error given by the splitting of a MOC of the given type, if it is not a
/// spatial MOC.
pub open spec fn split_err(t: MocQType) -> Option<Seq<char>> {
    match t {
        MocQType::Space => None,
        MocQType::Time => Some("Split not implemented for T-MOCs."@),
        MocQType::Frequency => Some("Split not implemented for F-MOCs."@),
        MocQType::SpaceTime => Some("Split not implemented for ST-MOCs."@),
    }
}

/// Outcome of the splitting of the MOC stored at `index` in `s0`: the store `s1` and the
/// result `r`.
pub open spec fn split_done(s0: U64MocStore, s1: U64MocStore, index: usize, indirect: bool, r: Result<Vec<usize>, String>) -> bool {
    if !s0.entries().dom().contains(index) {
        r is Err && r->Err_0@ == not_found_text(index as nat) && s1.entries() == s0.entries()
    } else {
        match s0.entries()[index].1 {
            InternalMoc::Space(m) => r is Ok && exists|groups: Seq<Seq<Cell>>|
                #[trigger] joint_split(m, indirect, groups) && stored_groups(s0, s1, r->Ok_0@, groups, m.depth()),
            other => r is Err && Some(r->Err_0@) == split_err(other.qty_type()) && s1.entries() == s0.entries(),
        }
    }
}

/// Outcome of the counting of the joint parts of the MOC stored at `index` in `s`.
pub open spec fn split_count_done(s: U64MocStore, index: usize, indirect: bool, r: Result<u32, String>) -> bool {
    if !s.entries().dom().contains(index) {
        r is Err && r->Err_0@ == not_found_text(index as nat)
    } else {
        match s.entries()[index].1 {
            InternalMoc::Space(m) => r is Ok && exists|groups: Seq<Seq<Cell>>|
                #[trigger] joint_split(m, indirect, groups) && r->Ok_0 == groups.len() as u32,
            other => r is Err && Some(r->Err_0@) == split_err(other.qty_type()),
        }
    }
}

impl U64MocStore {
    fn exec_split(&mut self, index: usize, indirect: bool) -> (r: Result<Vec<usize>, String>)
        requires
            old(self).wf(),
        ensures
            final(self).wf(),
            split_done(*old(self), *final(self), index, indirect, r),
    {
        let cms = match self.get(index) {
            Ok(InternalMoc::Space(m)) => {
                proof {
                    assert(self.entries().dom().contains(index));
                }
                m.split_into_joint_mocs(indirect)
            },
            Ok(InternalMoc::Time(_)) => {
                return Err("Split not implemented for T-MOCs.".to_owned());
            },
            Ok(InternalMoc::Frequency(_)) => {
                return Err("Split not implemented for F-MOCs.".to_owned());
            },
            Ok(InternalMoc::TimeSpace(_)) => {
                return Err("Split not implemented for ST-MOCs.".to_owned());
            },
            Err(e) => {
                return Err(e);
            },
        };
        let ghost s0 = *self;
        let ghost m = match s0.entries()[index].1 {
            InternalMoc::Space(m) => m,
            _ => arbitrary(),
        };
        let ghost groups = cms@.map_values(|c: CellMOC<u64, Hpx<u64>>| c.cs());
        let n = cms.len();
        let mut v: Vec<usize> = Vec::new();
        let mut i: usize = 0;
        while i < n
            invariant
                s0.wf(),
                self.wf(),
                n == cms@.len(),
                i <= n,
                groups == cms@.map_values(|c: CellMOC<u64, Hpx<u64>>| c.cs()),
                forall|q: int| 0 <= q < n ==> (#[trigger] cms@[q]).wf() && cms@[q].depth() == m.depth(),
                stored_groups(s0, *self, v@, groups.subrange(0, i as int), m.depth()),
            decreases n - i,
        {
            let rm = cms[i].to_range_moc();
            let ghost s_before = *self;
            let ghost v_before = v@;
            let k = self.add(InternalMoc::Space(rm));
            v.push(k);
            proof {
                let gs = groups.subrange(0, i + 1);
                assert(gs == groups.subrange(0, i as int).push(groups[i as int]));
                assert(groups[i as int] == cms@[i as int].cs());
                assert(!v_before.contains(k)) by {
                    if v_before.contains(k) {
                        let q = choose|q: int| 0 <= q < v_before.len() && v_before[q] == k;
                        assert(s_before.entries().dom().contains(v_before[q]));
                    }
                }
                assert forall|q: int| 0 <= q < v@.len() implies !s0.entries().dom().contains(#[trigger] v@[q]) by {
                    if q < v_before.len() {
                        assert(v@[q] == v_before[q]);
                    } else {
                        assert(!s_before.entries().dom().contains(k));
                    }
                }
                assert forall|kk: usize| #[trigger] self.entries().dom().contains(kk) <==> (s0.entries().dom().contains(kk) || v@.contains(kk)) by {
                    if v@.contains(kk) && kk != k {
                        let q = choose|q: int| 0 <= q < v@.len() && v@[q] == kk;
                        assert(v_before[q] == kk);
                    }
                    if v_before.contains(kk) {
                        let q = choose|q: int| 0 <= q < v_before.len() && v_before[q] == kk;
                        assert(v@[q] == kk);
                    }
                    assert(v@[v_before.len() as int] == k);
                }
                assert forall|kk: usize| #[trigger] s0.entries().dom().contains(kk) implies self.entries()[kk] == s0.entries()[kk] by {
                    assert(s_before.entries().dom().contains(kk));
                }
                assert forall|q: int|
                    0 <= q < v@.len() implies self.entries()[#[trigger] v@[q]].0 == 1 && is_cells_moc(self.entries()[v@[q]].1, gs[q], m.depth()) by {
                    if q < v_before.len() {
                        assert(v@[q] == v_before[q]);
                        assert(v_before[q] != k);
                    }
                }
            }
            i = i + 1;
        }
        proof {
            assert(groups.subrange(0, n as int) == groups);
        }
        Ok(v)
    }

    fn exec_split_count(&self, index: usize, indirect: bool) -> (r: Result<u32, String>)
        requires
            self.wf(),
        ensures
            split_count_done(*self, index, indirect, r),
    {
        match self.get(index) {
            Ok(InternalMoc::Space(m)) => {
                proof {
                    assert(self.entries().dom().contains(index));
                }
                let cms = m.split_into_joint_mocs(indirect);
                Ok(cms.len() as u32)
            },
            Ok(InternalMoc::Time(_)) => Err("Split not implemented for T-MOCs.".to_owned()),
            Ok(InternalMoc::Frequency(_)) => Err("Split not implemented for F-MOCs.".to_owned()),
            Ok(InternalMoc::TimeSpace(_)) => Err("Split not implemented for ST-MOCs.".to_owned()),
            Err(e) => Err(e),
        }
    }

    /// Split the given disjoint S-MOC into joint S-MOCs, two cells being joint when they share an
    /// edge, and store them, returning their indices.
    pub fn split(&mut self, index: usize) -> (r: Result<Vec<usize>, String>)
        requires
            old(self).wf(),
        ensures
            final(self).wf(),
            split_done(*old(self), *final(self), index, false, r),
    {
        self.exec_split(index, false)
    }

    /// Number of joint S-MOCs, two cells being joint when they share an edge, the given S-MOC is
    /// made of.
    pub fn split_count(&self, index: usize) -> (r: Result<u32, String>)
        requires
            self.wf(),
        ensures
            split_count_done(*self, index, false, r),
    {
        self.exec_split_count(index, false)
    }

    /// Split the given disjoint S-MOC into joint S-MOCs, two cells being joint when they share an
    /// edge or a vertex, and store them, returning their indices.
    pub fn split_indirect(&mut self, index: usize) -> (r: Result<Vec<usize>, String>)
        requires
            old(self).wf(),
        ensures
            final(self).wf(),
            split_done(*old(self), *final(self), index, true, r),
    {
        self.exec_split(index, true)
    }

    /// Number of joint S-MOCs, two cells being joint when they share an edge or a vertex, the
    /// given S-MOC is made of.
    pub fn split_indirect_count(&self, index: usize) -> (r: Result<u32, String>)
        requires
            self.wf(),
        ensures
            split_count_done(*self, index, true, r),
    {
        self.exec_split_count(index, true)
    }
}

} // verus!
