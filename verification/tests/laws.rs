use std::ops::Range;

use moc::moc::RangeMOC;
use moc::multi_op::{kway_and, kway_and_it, kway_or, kway_or_it, kway_xor, kway_xor_it};
use moc::qty::{Hpx, Time};
use moc::ranges::Ranges;
use moc::store::{InternalMoc, U64MocStore};

type SMoc = RangeMOC<u64, Hpx<u64>>;
type TMoc = RangeMOC<u64, Time<u64>>;

fn smoc(depth: u8, ranges: Vec<Range<u64>>) -> SMoc {
    RangeMOC::new(depth, Ranges::new_from(ranges))
}

fn tmoc(depth: u8, ranges: Vec<Range<u64>>) -> TMoc {
    RangeMOC::new(depth, Ranges::new_from(ranges))
}

/// A spatial MOC of depth 29 made of the given ranges of depth 29 values.
fn s29(ranges: Vec<Range<u64>>) -> SMoc {
    smoc(29, ranges)
}

#[test]
fn complement_is_involutive() {
    let m = s29(vec![0..10, 20..35, 100..101]);
    assert_eq!(m.not().not(), m);
    let e = SMoc::new_empty(5);
    assert_eq!(e.not(), SMoc::new_full_domain(5));
    assert_eq!(e.not().not(), e);
}

#[test]
fn union_and_intersection_commute() {
    let a = s29(vec![0..10, 20..35]);
    let b = s29(vec![5..25, 40..50]);
    assert_eq!(a.or(&b), b.or(&a));
    assert_eq!(a.and(&b), b.and(&a));
    assert_eq!(a.or(&b).moc_ranges().0, vec![0..35, 40..50]);
    assert_eq!(a.and(&b).moc_ranges().0, vec![5..10, 20..25]);
}

#[test]
fn union_and_intersection_are_idempotent() {
    let a = s29(vec![0..10, 20..35]);
    assert_eq!(a.or(&a), a);
    assert_eq!(a.and(&a), a);
}

#[test]
fn de_morgan() {
    let a = s29(vec![0..10, 20..35]);
    let b = s29(vec![5..25, 40..50]);
    assert_eq!(a.or(&b).not(), a.not().and(&b.not()));
}

#[test]
fn minus_is_and_not() {
    let a = s29(vec![0..10, 20..35]);
    let b = s29(vec![5..25, 40..50]);
    assert_eq!(a.minus(&b), a.and(&b.not()));
    assert_eq!(a.minus(&b).moc_ranges().0, vec![0..5, 25..35]);
}

#[test]
fn degrade_keeps_values_and_is_identity_when_deeper() {
    // At depth 28 a cell holds 4 values of depth 29.
    let m = s29(vec![5..6, 17..20]);
    let d = m.degraded(28);
    assert_eq!(d.depth_max(), 28);
    assert_eq!(d.moc_ranges().0, vec![4..8, 16..20]);
    for x in [5u64, 17, 18, 19] {
        assert!(d.contains_val(&x));
    }
    assert_eq!(m.degraded(29), m);
    assert_eq!(m.degraded(40), m);
}

#[test]
fn time_expand_contract_bracket_the_moc() {
    let m = tmoc(60, vec![2..8, 20..22]);
    let e = m.expanded();
    let c = m.contracted();
    for x in 0u64..30 {
        if m.contains_val(&x) {
            assert!(e.contains_val(&x));
        }
        if c.contains_val(&x) {
            assert!(m.contains_val(&x));
        }
    }
    assert_eq!(e.moc_ranges().0, vec![0..10, 18..24]);
    assert_eq!(c.moc_ranges().0, vec![4..6]);
}

#[test]
fn hpx_expand_is_moc_plus_external_border() {
    let m = smoc(3, vec![(100u64 << 52)..(101u64 << 52)]);
    let e = m.expanded();
    let b = m.external_border();
    assert_eq!(e, m.or(&b));
    assert_eq!(m.and(&b), SMoc::new_empty(3));
    assert_eq!(b.n_depth_max_cells(), 8);
}

#[test]
fn hpx_contract_is_moc_minus_internal_border_and_dual_of_expand() {
    let m = smoc(1, vec![0..(4u64 << 56)]);
    let c = m.contracted();
    let b = m.internal_border();
    assert_eq!(c, m.minus(&b));
    assert_eq!(c, m.not().expanded().not());
    // A cell of depth 0 seen at depth 1 is 4 cells, all on the border of the base cell.
    assert_eq!(c, SMoc::new_empty(1));
}

#[test]
fn cells_round_trip() {
    let m = s29(vec![0..5, 64..200]);
    let cells = m.cells();
    let cm = moc::cells::CellMOC::<u64, Hpx<u64>>::new(29, cells);
    assert_eq!(cm.to_range_moc(), m);
}

#[test]
fn uniq_round_trip() {
    for depth in [0u8, 1, 5, 12, 29] {
        let n = 12u64 << (2 * depth);
        for idx in [0u64, 1, n / 2, n - 1] {
            let u = Hpx::<u64>::uniq_hpx(depth, idx);
            assert_eq!(Hpx::<u64>::from_uniq_hpx(u), (depth, idx));
        }
    }
}

#[test]
fn store_add_get_drop_and_copy_drop() {
    let mut store = U64MocStore::new();
    let a = store.add(InternalMoc::Space(s29(vec![0..10])));
    let b = store.add(InternalMoc::Space(s29(vec![20..30])));
    match store.get(a).unwrap() {
        InternalMoc::Space(m) => assert_eq!(m.moc_ranges().0, vec![0..10]),
        _ => panic!("not a S-MOC"),
    }
    assert!(store.copy_moc(b).is_ok());
    assert!(store.drop(b).is_ok());
    assert!(store.get(b).is_ok());
    assert!(store.drop(b).is_ok());
    assert!(store.get(b).is_err());
    assert!(store.drop(a).is_ok());
    assert!(store.get(a).is_err());
}

#[test]
fn kway_union_intersection_and_xor() {
    let mocs = || {
        vec![
            s29(vec![0..10]),
            s29(vec![5..15]),
            s29(vec![8..20]),
            s29(vec![9..12, 30..40]),
            s29(vec![0..100]),
            smoc(10, vec![]),
        ]
    };
    let u = kway_or(mocs());
    assert_eq!(u.moc_ranges().0, vec![0..100]);
    assert_eq!(u.depth_max(), 29);
    let i = kway_and(mocs());
    assert!(i.is_empty());
    let i5 = kway_and(mocs().into_iter().take(5).collect());
    assert_eq!(i5.moc_ranges().0, vec![9..10]);
    // Values in an odd number of MOCs.
    let x = kway_xor(mocs());
    let mut expected = s29(vec![]);
    for m in mocs() {
        expected = expected.xor(&m);
    }
    assert_eq!(x.moc_ranges().0, expected.moc_ranges().0);
    assert!(kway_or::<Hpx<u64>>(vec![]).is_empty());
    assert_eq!(kway_or::<Hpx<u64>>(vec![]).depth_max(), 0);
    assert_eq!(kway_or(vec![s29(vec![3..4])]), s29(vec![3..4]));
}

#[test]
fn kway_on_references() {
    let owned = vec![s29(vec![0..10]), s29(vec![5..15]), s29(vec![8..20]), s29(vec![9..12]), s29(vec![11..13])];
    let refs: Vec<&SMoc> = owned.iter().collect();
    assert_eq!(kway_or_it(&refs).moc_ranges().0, vec![0..20]);
    assert!(kway_and_it(&refs).is_empty());
    assert_eq!(kway_and_it(&refs[0..4].to_vec()).moc_ranges().0, vec![9..10]);
    let single: Vec<&SMoc> = vec![refs[0]];
    assert_eq!(kway_or_it(&single), s29(vec![0..10]));
    let x = kway_xor_it(&refs);
    assert_eq!(x, kway_xor(owned));
}
