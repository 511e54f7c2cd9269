use std::ops::Range;

use moc::moc2d::RangeMOC2;
use moc::qty::{Hpx, Time};
use moc::st_data::{
    decode_st_ranges, decode_st_ranges_pre_v2, encode_st_ranges, fits_block_padding, MSB_MASK,
};

type Groups = Vec<(Vec<Range<u64>>, Vec<Range<u64>>)>;

#[test]
fn st_ranges_written_with_flagged_time_ranges() {
    let s = |c: u64| c << 58;
    let items: Vec<(Range<u64>, u64)> = vec![(0..10, 1), (20..30, 2)];
    let moc2 = RangeMOC2::<u64, Time<u64>, u64, Hpx<u64>>::from_ranges_and_fixed_depth_cells(61, 0, items, None);
    let pairs = encode_st_ranges(&moc2);
    assert_eq!(
        pairs,
        vec![
            (MSB_MASK, 10 | MSB_MASK),
            (s(1), s(2)),
            (20 | MSB_MASK, 30 | MSB_MASK),
            (s(2), s(3)),
        ]
    );
    let back = decode_st_ranges(&pairs);
    let expected: Groups = vec![(vec![0..10], vec![s(1)..s(2)]), (vec![20..30], vec![s(2)..s(3)])];
    assert_eq!(back, expected);
}

#[test]
fn st_ranges_group_consecutive_ranges_of_each_quantity() {
    let pairs = vec![
        (1 | MSB_MASK, 2 | MSB_MASK),
        (3 | MSB_MASK, 4 | MSB_MASK),
        (10, 20),
        (30, 40),
        (5 | MSB_MASK, 6 | MSB_MASK),
    ];
    let expected: Groups = vec![(vec![1..2, 3..4], vec![10..20, 30..40]), (vec![5..6], vec![])];
    assert_eq!(decode_st_ranges(&pairs), expected);
    // Space ranges first: an element without time ranges.
    let pairs = vec![(10, 20), (1 | MSB_MASK, 2 | MSB_MASK)];
    let expected: Groups = vec![(vec![], vec![10..20]), (vec![1..2], vec![])];
    assert_eq!(decode_st_ranges(&pairs), expected);
    // A single flagged bound does not make a time range.
    let pairs = vec![(1 | MSB_MASK, 2)];
    let expected: Groups = vec![(vec![], vec![(1 | MSB_MASK)..2])];
    assert_eq!(decode_st_ranges(&pairs), expected);
    assert_eq!(decode_st_ranges(&vec![]), Groups::new());
}

#[test]
fn st_ranges_pre_v2_negated_time_ranges() {
    let pairs: Vec<(i64, i64)> = vec![(-1, -3), (10, 20), (-5, -6), (30, 40), (50, 60)];
    let expected: Groups = vec![(vec![1..3], vec![10..20]), (vec![5..6], vec![30..40, 50..60])];
    assert_eq!(decode_st_ranges_pre_v2(&pairs), expected);
}

#[test]
fn fits_blocks_are_completed_with_zeros() {
    assert_eq!(fits_block_padding(0), 0);
    assert_eq!(fits_block_padding(16), 2864);
    assert_eq!(fits_block_padding(2880), 0);
    assert_eq!(fits_block_padding(2881), 2879);
}
