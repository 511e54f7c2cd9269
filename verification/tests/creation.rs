use moc::creation::check_depth;
use moc::moc::RangeMOC;
use moc::qty::{Frequency, Hpx, Time};
use moc::store::{InternalMoc, U64MocStore};

#[test]
fn check_depth_error_message() {
    assert!(check_depth::<Hpx<u64>>(29).is_ok());
    assert_eq!(check_depth::<Hpx<u64>>(30), Err(String::from("Wrong depth. Actual: 30. Expected: max 29")));
    assert!(check_depth::<Time<u64>>(61).is_ok());
    assert_eq!(check_depth::<Frequency<u64>>(60), Err(String::from("Wrong depth. Actual: 60. Expected: max 59")));
}

#[test]
fn time_moc_from_microsec() {
    let m = RangeMOC::<u64, Time<u64>>::from_microsec_since_jd0(60, vec![5, 4, 11, 100], None);
    assert_eq!(m.moc_ranges().0, vec![4..6, 10..12, 100..102]);
    let r = RangeMOC::<u64, Time<u64>>::from_microsec_ranges_since_jd0(60, vec![3..5, 9..10], None);
    assert_eq!(r.moc_ranges().0, vec![2..6, 8..10]);
}

#[test]
fn store_creation_and_filters() {
    let mut store = U64MocStore::new();
    assert_eq!(store.from_microsec_values(62, vec![1]), Err(String::from("Wrong depth. Actual: 62. Expected: max 61")));
    let t = store.from_microsec_values(61, vec![7, 9]).unwrap();
    assert_eq!(store.filter_times(t, &vec![6, 7, 8, 9]), Ok(vec![0, 1, 0, 1]));
    let s = store.from_hpx_cells(0, vec![3]).unwrap();
    assert_eq!(store.filter_cells(s, &vec![Some(3), Some(2), None, Some(12)]), Ok(vec![1, 0, 0, 0]));
    assert_eq!(
        store.filter_times(s, &vec![1]),
        Err(String::from("Can't filter time on a MOC different from a T-MOC"))
    );
    assert_eq!(
        store.filter_cells(t, &vec![Some(1)]),
        Err(String::from("Can't filter coos on a MOC different from a S-MOC"))
    );
    assert_eq!(store.filter_cells(99, &vec![]), Err(String::from("MOC at index '99' not found")));
    let f = store.from_freq_values(58, vec![0, 3]).unwrap();
    match store.get(f).unwrap() {
        InternalMoc::Frequency(m) => assert_eq!(m.moc_ranges().0, vec![0..4]),
        _ => panic!("not a F-MOC"),
    }
    let fr = store.from_freq_ranges(59, vec![5..7]).unwrap();
    match store.get(fr).unwrap() {
        InternalMoc::Frequency(m) => assert_eq!(m.moc_ranges().0, vec![5..7]),
        _ => panic!("not a F-MOC"),
    }
    let tr = store.from_microsec_ranges(61, vec![1..3]).unwrap();
    assert_eq!(store.filter_times(tr, &vec![0, 1, 2, 3]), Ok(vec![0, 1, 1, 0]));
}

#[test]
fn bmoc_ranges_are_cells_of_their_depth() {
    let moc = RangeMOC::<u64, Hpx<u64>>::from_bmoc_ranges(1, vec![1..3, 5..6]);
    assert_eq!(moc.depth_max(), 1);
    assert_eq!(moc.moc_ranges().0, vec![(1u64 << 56)..(3u64 << 56), (5u64 << 56)..(6u64 << 56)]);
    // Adjacent ranges are merged, empty ones ignored.
    let moc = RangeMOC::<u64, Hpx<u64>>::from_bmoc_ranges(1, vec![1..3, 3..4, 6..6]);
    assert_eq!(moc.moc_ranges().0, vec![(1u64 << 56)..(4u64 << 56)]);
}

#[test]
fn bmoc_of_a_cone_holds_its_center() {
    let (lon, lat) = (0.3_f64, 0.5_f64);
    let depth = 8;
    let bmoc = cdshealpix::nested::cone_coverage_approx_custom(depth, 2, lon, lat, 0.01);
    let moc = RangeMOC::<u64, Hpx<u64>>::from_bmoc_ranges(bmoc.get_depth_max(), bmoc.to_ranges().to_vec());
    let center = cdshealpix::nested::hash(depth, lon, lat) << (2 * (29 - depth as u64));
    assert!(moc.contains_val(&center));
}
