use std::mem::{align_of, size_of};
use std::ops::Range;

use moc::qty::{Hpx, MocQty};
use moc::ranges::Ranges;

#[test]
fn test_alignment() {
    // Ensure alignement for unsafe code in contains
    assert_eq!(align_of::<u32>(), align_of::<Range<u32>>());
    assert_eq!(align_of::<u64>(), align_of::<Range<u64>>());
    assert_eq!(align_of::<i32>(), align_of::<Range<i32>>());
    assert_eq!(align_of::<i64>(), align_of::<Range<i64>>());

    assert_eq!(size_of::<u32>() << 1, size_of::<Range<u32>>());
    assert_eq!(size_of::<u64>() << 1, size_of::<Range<u64>>());
    assert_eq!(size_of::<i32>() << 1, size_of::<Range<i32>>());
    assert_eq!(size_of::<i64>() << 1, size_of::<Range<i64>>());
}

fn assert_merge(a: Vec<Range<u64>>, expected: Vec<Range<u64>>) {
    let ranges = Ranges::<u64>::new_from(a);
    let expected_ranges = Ranges::<u64>::new_unchecked(expected);
    assert_eq!(ranges, expected_ranges);
}

#[test]
fn merge_range() {
    assert_merge(vec![12..17, 3..5, 5..7, 6..8], vec![3..8, 12..17]);
    assert_merge(vec![0..1, 2..5], vec![0..1, 2..5]);
    assert_merge(vec![], vec![]);
    assert_merge(vec![0..6, 7..9, 8..13], vec![0..6, 7..13]);
}

fn assert_union(a: Vec<Range<u64>>, b: Vec<Range<u64>>, expected: Vec<Range<u64>>) {
    let a = Ranges::<u64>::new_from(a);
    let b = Ranges::<u64>::new_from(b);
    let expected_ranges = Ranges::<u64>::new_unchecked(expected);
    let ranges = a.union(&b);
    assert_eq!(ranges, expected_ranges);
}

#[test]
fn test_union() {
    assert_union(vec![12..17, 3..5, 5..7, 6..8], vec![0..1, 2..5], vec![0..1, 2..8, 12..17]);
    assert_union(
        vec![12..17, 3..5, 5..7, 6..8],
        vec![12..17, 3..5, 5..7, 6..8],
        vec![3..8, 12..17],
    );
    assert_union(vec![], vec![], vec![]);
    assert_union(vec![12..17], vec![], vec![12..17]);
    assert_union(vec![], vec![12..17], vec![12..17]);
    assert_union(vec![0..1, 2..3, 4..5], vec![1..22], vec![0..22]);
    assert_union(vec![0..10], vec![15..22], vec![0..10, 15..22]);
}

fn assert_intersection(a: Vec<Range<u64>>, b: Vec<Range<u64>>, expected: Vec<Range<u64>>) {
    let a = Ranges::<u64>::new_from(a);
    let b = Ranges::<u64>::new_from(b);
    let expected_ranges = Ranges::<u64>::new_unchecked(expected);
    let ranges = a.intersection(&b);
    assert_eq!(ranges, expected_ranges);
}

#[test]
fn test_intersection() {
    assert_intersection(vec![12..17, 3..5, 5..7, 6..8], vec![0..1, 2..5], vec![3..5]);
    assert_intersection(vec![], vec![0..1, 2..5], vec![]);
    assert_intersection(vec![], vec![], vec![]);
    assert_intersection(vec![2..6], vec![0..3, 4..8], vec![2..3, 4..6]);
    assert_intersection(vec![2..6], vec![2..6, 7..8], vec![2..6]);
    assert_intersection(vec![10..11], vec![10..11], vec![10..11]);
}

fn assert_difference(a: Vec<Range<u64>>, b: Vec<Range<u64>>, expected: Vec<Range<u64>>) {
    let a = Ranges::<u64>::new_from(a);
    let b = Ranges::<u64>::new_from(b);
    let expected_ranges = Ranges::<u64>::new_unchecked(expected);
    let ranges = a.difference(&b);
    assert_eq!(ranges, expected_ranges);
}

#[test]
fn test_difference() {
    assert_difference(vec![0..20], vec![5..7], vec![0..5, 7..20]);
    assert_difference(vec![0..20], vec![0..20], vec![]);
    assert_difference(vec![0..20], vec![], vec![0..20]);
    assert_difference(vec![], vec![0..5], vec![]);
    assert_difference(vec![0..20], vec![19..22], vec![0..19]);
    assert_difference(vec![0..20], vec![25..27], vec![0..20]);
    assert_difference(vec![0..20], vec![1..2, 3..4, 5..6], vec![0..1, 2..3, 4..5, 6..20]);
}

/// A small deterministic generator standing for a random one.
struct Lcg(u64);

impl Lcg {
    fn next(&mut self) -> u64 {
        self.0 = self.0.wrapping_mul(6364136223846793005).wrapping_add(1442695040888963407);
        self.0 >> 11
    }

    fn gen_range(&mut self, start: u64, end: u64) -> u64 {
        start + self.next() % (end - start)
    }
}

#[test]
fn test_uniq_decompose() {
    let mut rng = Lcg(12345);
    for _ in 0..10000 {
        let depth = rng.gen_range(0, Hpx::<u64>::MAX_DEPTH as u64) as u8;
        let npix = 12 * 4_u64.pow(depth as u32);
        let pix = rng.gen_range(0, npix);
        let uniq = 4 * 4_u64.pow(depth as u32) + pix;
        assert_eq!(Hpx::<u64>::from_uniq_hpx(uniq), (depth, pix));
    }
    for _ in 0..10000 {
        // Hpx<u32> holds depths up to 13
        let depth = rng.gen_range(0, 13) as u8;
        let npix = 12 * 4_u32.pow(depth as u32);
        let pix = rng.gen_range(0, npix as u64) as u32;
        let uniq = 4 * 4_u32.pow(depth as u32) + pix;
        assert_eq!(Hpx::<u32>::from_uniq_hpx(uniq), (depth, pix));
    }
}

#[test]
fn ranges_queries() {
    let r = Ranges::<u64>::new_from(vec![10..20, 30..40]);
    assert!(r.contains_val(&10));
    assert!(r.contains_val(&19));
    assert!(!r.contains_val(&20));
    assert!(!r.contains_val(&5));
    assert!(r.contains_range(&(12..18)));
    assert!(!r.contains_range(&(18..32)));
    assert!(r.intersects_range(&(18..32)));
    assert!(!r.intersects_range(&(20..30)));
    assert_eq!(r.range_sum(), 20);
    assert!(!r.is_empty());
    let sub = Ranges::<u64>::new_from(vec![11..12, 35..40]);
    assert!(r.contains(&sub));
    assert!(!sub.contains(&r));
    assert!(r.intersects(&sub));
    let other = Ranges::<u64>::new_from(vec![20..30]);
    assert!(!r.intersects(&other));
    assert_eq!(r.symmetric_difference(&Ranges::<u64>::new_from(vec![15..35])), Ranges::<u64>::new_unchecked(vec![10..15, 20..30, 35..40]));
    assert_eq!(r.complement_with_upper_bound(50), Ranges::<u64>::new_unchecked(vec![0..10, 20..30, 40..50]));
    assert_eq!(Ranges::<u64>::new_from_sorted(vec![1..3, 2..5, 5..6, 8..9]), Ranges::<u64>::new_unchecked(vec![1..6, 8..9]));
}

#[test]
fn trailing_zeros_of_all_bounds() {
    assert_eq!(Ranges::<u64>::new_unchecked(vec![8..16, 32..48]).trailing_zeros(), 3);
    assert_eq!(Ranges::<u64>::new_unchecked(vec![0..(1u64 << 40)]).trailing_zeros(), 40);
    assert_eq!(Ranges::<u64>::new_unchecked(vec![4..5]).trailing_zeros(), 0);
    assert_eq!(Ranges::<u64>::new_unchecked(vec![]).trailing_zeros(), 64);
}
