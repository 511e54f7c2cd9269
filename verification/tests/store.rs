use std::ops::Range;

use moc::moc::RangeMOC;
use moc::moc2d::{RangeMOC2, RangeMOC2Elem};
use moc::qty::{Hpx, MocQty, Time};
use moc::ranges::Ranges;
use moc::store::{InternalMoc, MocQType, U64MocStore};

fn smoc(depth: u8, ranges: Vec<Range<u64>>) -> InternalMoc {
    InternalMoc::Space(RangeMOC::new(depth, Ranges::new_from(ranges)))
}

fn tmoc(depth: u8, ranges: Vec<Range<u64>>) -> InternalMoc {
    InternalMoc::Time(RangeMOC::new(depth, Ranges::new_from(ranges)))
}

fn stmoc(elems: Vec<(Range<u64>, Range<u64>)>) -> InternalMoc {
    let elems = elems
        .into_iter()
        .map(|(t, s)| {
            RangeMOC2Elem::new(
                RangeMOC::new(Time::<u64>::MAX_DEPTH, Ranges::new_unchecked(vec![t])),
                RangeMOC::new(Hpx::<u64>::MAX_DEPTH, Ranges::new_unchecked(vec![s])),
            )
        })
        .collect();
    InternalMoc::TimeSpace(RangeMOC2::new(Time::<u64>::MAX_DEPTH, Hpx::<u64>::MAX_DEPTH, elems))
}

fn space_ranges(store: &U64MocStore, index: usize) -> Vec<Range<u64>> {
    match store.get(index).unwrap() {
        InternalMoc::Space(m) => m.moc_ranges().0.clone(),
        _ => panic!("not a S-MOC"),
    }
}

fn time_ranges(store: &U64MocStore, index: usize) -> Vec<Range<u64>> {
    match store.get(index).unwrap() {
        InternalMoc::Time(m) => m.moc_ranges().0.clone(),
        _ => panic!("not a T-MOC"),
    }
}

#[test]
fn store_add_get_drop() {
    let mut store = U64MocStore::new();
    let a = store.add(smoc(29, vec![0..10]));
    let b = store.add(tmoc(61, vec![5..8]));
    assert_ne!(a, b);
    assert_eq!(store.get(a).unwrap().get_qty_type(), MocQType::Space);
    assert_eq!(store.get(b).unwrap().get_qty_type(), MocQType::Time);
    assert_eq!(store.drop(a), Ok(()));
    assert_eq!(store.drop(a), Err(format!("MOC at index '{}' not found", a)));
    assert!(store.get(a).is_err());
    assert_eq!(store.get(42).err(), Some(String::from("MOC at index '42' not found")));
}

#[test]
fn store_copies() {
    let mut store = U64MocStore::new();
    let a = store.add(smoc(29, vec![0..10]));
    assert_eq!(store.copy_moc(a), Ok(()));
    assert_eq!(store.drop(a), Ok(()));
    // One copy is left
    assert!(store.get(a).is_ok());
    assert_eq!(store.drop(a), Ok(()));
    assert!(store.get(a).is_err());
    assert_eq!(store.copy_moc(7), Err(String::from("MOC at index '7' not found")));
    let b = store.add(smoc(29, vec![0..10]));
    for _ in 0..254 {
        assert_eq!(store.copy_moc(b), Ok(()));
    }
    assert_eq!(store.copy_moc(b), Err(String::from("Unable to copy MOC: 255 copies already reached")));
}

#[test]
fn store_logical_operations() {
    let mut store = U64MocStore::new();
    let a = store.add(smoc(29, vec![0..10, 20..30]));
    let b = store.add(smoc(29, vec![5..25]));
    let u = store.union(a, b).unwrap();
    assert_eq!(space_ranges(&store, u), vec![0..30]);
    let o = store.or(a, b).unwrap();
    assert_eq!(space_ranges(&store, o), vec![0..30]);
    let i = store.intersection(a, b).unwrap();
    assert_eq!(space_ranges(&store, i), vec![5..10, 20..25]);
    let i2 = store.and(a, b).unwrap();
    assert_eq!(space_ranges(&store, i2), vec![5..10, 20..25]);
    let x = store.xor(a, b).unwrap();
    assert_eq!(space_ranges(&store, x), vec![0..5, 10..20, 25..30]);
    let d = store.difference(a, b).unwrap();
    assert_eq!(space_ranges(&store, d), vec![0..5, 10..20, 25..30]);
    let m = store.minus(a, b).unwrap();
    assert_eq!(space_ranges(&store, m), vec![0..5, 25..30]);
    let n = store.not(a).unwrap();
    let nmax = Hpx::<u64>::n_cells_max();
    assert_eq!(space_ranges(&store, n), vec![10..20, 30..nmax]);
    let c = store.complement(a).unwrap();
    assert_eq!(space_ranges(&store, c), vec![10..20, 30..nmax]);
}

#[test]
fn store_errors() {
    let mut store = U64MocStore::new();
    let s = store.add(smoc(29, vec![0..10]));
    let t = store.add(tmoc(61, vec![0..10]));
    let st = store.add(stmoc(vec![(0..10, 16..21)]));
    assert_eq!(
        store.union(s, t),
        Err(String::from("Both type of both MOCs must be the same, except in fold operations"))
    );
    assert_eq!(store.union(s, 100), Err(String::from("MOC at index '100' not found")));
    assert_eq!(store.union(100, s), Err(String::from("MOC at index '100' not found")));
    assert_eq!(store.ext_border(t), Err(String::from("External border not implemented (yet) for T-MOCs.")));
    assert_eq!(store.int_border(t), Err(String::from("Internal border not implemented (yet) for T-MOCs.")));
    assert_eq!(store.not(st), Err(String::from("Complement not implemented (yet) for ST-MOCs.")));
    assert_eq!(store.degrade(st, 3), Err(String::from("Degrade not implemented (yet) for ST-MOCs.")));
    assert_eq!(store.xor(st, st), Err(String::from("Symmetric difference not implemented yet for ST-MOCs.")));
    assert_eq!(store.time_fold(s, st), Err(String::from("Operation SpaceFold expected on S-MOC vs ST-MOC.")));
    assert_eq!(store.space_fold(t, st), Err(String::from("Operation TimeFold expected on T-MOC vs ST-MOC.")));
    assert_eq!(store.time_fold(s, s), Err(String::from("TimeFold operation not available on 2 S-MOCs.")));
    assert_eq!(store.split(t), Err(String::from("Split not implemented for T-MOCs.")));
    assert_eq!(store.split_count(st), Err(String::from("Split not implemented for ST-MOCs.")));
    assert_eq!(store.extend(1000), Err(String::from("MOC at index '1000' not found")));
}

#[test]
fn store_one_moc_operations() {
    let mut store = U64MocStore::new();
    let t = store.add(tmoc(60, vec![10..20, 30..32]));
    let e = store.extend(t).unwrap();
    assert_eq!(time_ranges(&store, e), vec![8..22, 28..34]);
    let c = store.contract(t).unwrap();
    assert_eq!(time_ranges(&store, c), vec![12..18]);
    let s = store.add(smoc(29, vec![5..6, 9..13]));
    let d = store.degrade(s, 28).unwrap();
    assert_eq!(space_ranges(&store, d), vec![4..16]);
    let shift = Hpx::<u64>::shift_from_depth_max(3) as u32;
    let cell = store.add(smoc(3, vec![(100u64 << shift)..(101u64 << shift)]));
    let b = store.ext_border(cell).unwrap();
    let mut edge = cdshealpix::nested::external_edge(3, 100, 0).to_vec();
    edge.sort();
    let expected: Vec<Range<u64>> = Ranges::new_from(edge.iter().map(|h| (h << shift)..((h + 1) << shift)).collect()).0;
    assert_eq!(space_ranges(&store, b), expected);
    let ib = store.int_border(cell).unwrap();
    assert_eq!(space_ranges(&store, ib), vec![(100u64 << shift)..(101u64 << shift)]);
}

#[test]
fn store_split() {
    let mut store = U64MocStore::new();
    let shift = Hpx::<u64>::shift_from_depth_max(1) as u32;
    let cells = [0u64, 1, 40];
    let ranges: Vec<Range<u64>> = cells.iter().map(|c| (c << shift)..((c + 1) << shift)).collect();
    let s = store.add(smoc(1, ranges));
    assert_eq!(store.split_count(s), Ok(2));
    assert_eq!(store.split_indirect_count(s), Ok(2));
    let parts = store.split(s).unwrap();
    assert_eq!(parts.len(), 2);
    assert_eq!(space_ranges(&store, parts[0]), vec![0..(2u64 << shift)]);
    assert_eq!(space_ranges(&store, parts[1]), vec![(40u64 << shift)..(41u64 << shift)]);
    let parts = store.split_indirect(s).unwrap();
    assert_eq!(parts.len(), 2);
}

#[test]
fn store_folds() {
    let mut store = U64MocStore::new();
    let st = store.add(stmoc(vec![(0..10, 16..21), (20..30, 40..50)]));
    let t = store.add(tmoc(61, vec![5..6]));
    let s = store.time_fold(t, st).unwrap();
    assert_eq!(space_ranges(&store, s), vec![16..21]);
    let y = store.add(smoc(29, vec![17..60]));
    let tt = store.space_fold(y, st).unwrap();
    assert_eq!(time_ranges(&store, tt), vec![0..10, 20..30]);
    let y2 = store.add(smoc(29, vec![45..46]));
    let tt2 = store.space_fold(y2, st).unwrap();
    assert_eq!(time_ranges(&store, tt2), vec![20..30]);
    let st2 = store.add(stmoc(vec![(5..20, 18..30)]));
    let i = store.intersection(st, st2).unwrap();
    assert_eq!(store.get(i).unwrap().get_qty_type(), MocQType::SpaceTime);
}
