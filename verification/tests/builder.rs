use std::ops::Range;

use moc::builder::RangeMocBuilder;
use moc::builder2d::FixedDepth2DMocBuilder;
use moc::moc::RangeMOC;
use moc::moc2d::RangeMOC2;
use moc::qty::{Frequency, Hpx, Time};
use moc::ranges_cells::RangesAndFixedDepthCellsSTMocBuilder;

type SMoc = RangeMOC<u64, Hpx<u64>>;

#[test]
fn test_build2dmoc_fixeddepth() {
    let mut builder = FixedDepth2DMocBuilder::<u64, Frequency<u64>, u64, Hpx<u64>>::new(10, 11, None);
    builder.push(1, 1);
    builder.push(2, 3);
    builder.push(4, 6);
    let moc2d = builder.into_moc();
    assert_eq!(moc2d.compute_n_ranges(), 6);
}

#[test]
fn build2d_groups_first_cells_with_equal_second_cells() {
    // Time depth 60 (cells of 2 values), space depth 29 (cells of 1 value).
    let mut builder = FixedDepth2DMocBuilder::<u64, Time<u64>, u64, Hpx<u64>>::new(60, 29, Some(2));
    // Pushed out of order, with a duplicate: drained every 2 pairs.
    builder.push(3, 7);
    builder.push(1, 7);
    builder.push(1, 7);
    builder.push(2, 7);
    builder.push(5, 8);
    let moc2d = builder.into_moc();
    // Time cells 1, 2, 3 share the space cell 7; time cell 5 has the space cell 8.
    assert_eq!(moc2d.len(), 2);
    let e0 = &moc2d.elems()[0];
    assert_eq!(e0.moc_l().moc_ranges().0, vec![2..8]);
    assert_eq!(e0.moc_r().moc_ranges().0, vec![7..8]);
    let e1 = &moc2d.elems()[1];
    assert_eq!(e1.moc_l().moc_ranges().0, vec![10..12]);
    assert_eq!(e1.moc_r().moc_ranges().0, vec![8..9]);
    assert!(moc2d.contains_val(&2, &7));
    assert!(moc2d.contains_val(&11, &8));
    assert!(!moc2d.contains_val(&11, &7));
    assert!(!moc2d.contains_val(&8, &7));
}

#[test]
fn build2d_from_fixed_depth_cells_alternating() {
    // Time cells 0 and 2 share a space set, time cell 1 has another one: no grouping across.
    let m = RangeMOC2::<u64, Time<u64>, u64, Hpx<u64>>::from_fixed_depth_cells(
        61,
        29,
        vec![(0, 1), (1, 2), (2, 1)],
        None,
    );
    assert_eq!(m.len(), 3);
    assert_eq!(m.compute_n_ranges(), 6);
}

#[test]
fn builder_merges_unsorted_ranges_degraded_to_its_depth() {
    let mut b = RangeMocBuilder::<u64, Hpx<u64>>::new(28, Some(3));
    b.push(17..20);
    b.push(5..6);
    b.push(3..4);
    b.push(6..7);
    b.push(30..30);
    b.push(100..101);
    let m = b.into_moc();
    assert_eq!(m.depth_max(), 28);
    assert_eq!(m.moc_ranges().0, vec![0..8, 16..20, 100..104]);
}

#[test]
fn from_maxdepth_ranges_degrades() {
    let ranges: Vec<Range<u64>> = vec![5..6, 17..20, 0..0, 6..9];
    let m = SMoc::from_maxdepth_ranges(28, ranges, None);
    assert_eq!(m.moc_ranges().0, vec![4..12, 16..20]);
}

#[test]
fn from_cells_of_several_depths() {
    // (29, 5) is 5..6, degraded to 4..8; (27, 1) is 16..32.
    let m = SMoc::from_cells(28, vec![(29, 5), (27, 1)], None);
    assert_eq!(m.depth_max(), 28);
    assert_eq!(m.moc_ranges().0, vec![4..8, 16..32]);
}

#[test]
fn from_fixed_depth_cells_and_append() {
    let m = SMoc::from_fixed_depth_cells(1, vec![3, 1, 2, 7], None);
    assert_eq!(m.moc_ranges().0, vec![(1u64 << 56)..(4u64 << 56), (7u64 << 56)..(8u64 << 56)]);
    let m = m.append_fixed_depth_cells(1, vec![0, 47], Some(1));
    assert_eq!(m.moc_ranges().0, vec![0..(4u64 << 56), (7u64 << 56)..(8u64 << 56), (47u64 << 56)..(48u64 << 56)]);
    let full = SMoc::from_fixed_depth_cells(0, (0..12).collect(), None);
    assert_eq!(full, SMoc::new_full_domain(0));
}

#[test]
fn eq_without_depth_ignores_depth() {
    let a = SMoc::from_fixed_depth_cells(1, vec![3], None);
    let b = SMoc::from_maxdepth_ranges(5, vec![(3u64 << 56)..(4u64 << 56)], None);
    assert!(a.eq_without_depth(&b));
    assert!(a != b);
    assert!(!a.eq_without_depth(&SMoc::new_empty(1)));
}

#[test]
fn ranges_and_cells_cut_where_the_set_of_cells_changes() {
    let s = |c: u64| c << 58; // first value of the HEALPix cell `c` of depth 0
    let items: Vec<(Range<u64>, u64)> = vec![(0..10, 1), (5..20, 2), (15..30, 1)];
    let moc2 = RangeMOC2::<u64, Time<u64>, u64, Hpx<u64>>::from_ranges_and_fixed_depth_cells(61, 0, items, None);
    let elems = moc2.elems();
    assert_eq!(elems.len(), 5);
    let lefts: Vec<Vec<Range<u64>>> = elems.iter().map(|e| e.moc_l().moc_ranges().0.clone()).collect();
    assert_eq!(lefts, vec![vec![0..5], vec![5..10], vec![10..15], vec![15..20], vec![20..30]]);
    let rights: Vec<Vec<Range<u64>>> = elems.iter().map(|e| e.moc_r().moc_ranges().0.clone()).collect();
    assert_eq!(
        rights,
        vec![
            vec![s(1)..s(2)],
            vec![s(1)..s(3)],
            vec![s(2)..s(3)],
            vec![s(1)..s(3)],
            vec![s(1)..s(2)],
        ]
    );
    assert!(moc2.contains_val(&7, &s(2)));
    assert!(!moc2.contains_val(&12, &s(1)));
    assert!(!moc2.contains_val(&30, &s(1)));
}

#[test]
fn ranges_and_cells_builder_merges_buffers_and_degrades() {
    // Time depth 60: cells of 2 values; buffer of 1 item, so every push is merged at once.
    let mut builder = RangesAndFixedDepthCellsSTMocBuilder::<u64, Time<u64>, u64, Hpx<u64>>::new(60, 0, Some(1));
    builder.push(1..3, 4);
    builder.push(6..7, 4);
    let moc2 = builder.into_moc();
    assert!(moc2.contains_val(&0, &(4u64 << 58)));
    assert!(moc2.contains_val(&3, &(4u64 << 58)));
    assert!(!moc2.contains_val(&4, &(4u64 << 58)));
    assert!(moc2.contains_val(&7, &(4u64 << 58)));
    assert!(!moc2.contains_val(&7, &(5u64 << 58)));
}

#[test]
fn global_range_left_spans_the_first_quantity() {
    let items: Vec<(Range<u64>, u64)> = vec![(5..10, 1), (20..30, 2)];
    let moc2 = RangeMOC2::<u64, Time<u64>, u64, Hpx<u64>>::from_ranges_and_fixed_depth_cells(61, 0, items, None);
    assert_eq!(moc2.global_range_left(), Some(5..30));
    let empty = RangeMOC2::<u64, Time<u64>, u64, Hpx<u64>>::from_ranges_and_fixed_depth_cells(61, 0, vec![], None);
    assert_eq!(empty.global_range_left(), None);
}
