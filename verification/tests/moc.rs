use moc::cells::Cell;
use moc::moc::{HasMaxDepth, RangeMOC};
use moc::qty::{Frequency, Hpx, MocQty, Time};
use moc::ranges::Ranges;

type SMoc = RangeMOC<u64, Hpx<u64>>;
type TMoc = RangeMOC<u64, Time<u64>>;

fn smoc(depth: u8, ranges: Vec<std::ops::Range<u64>>) -> SMoc {
    RangeMOC::new(depth, Ranges::new_from(ranges))
}

fn tmoc(depth: u8, ranges: Vec<std::ops::Range<u64>>) -> TMoc {
    RangeMOC::new(depth, Ranges::new_from(ranges))
}

/// The ranges covering the given cells of depth `depth`.
fn hpx_cells_moc(depth: u8, cells: &[u64]) -> SMoc {
    let shift = Hpx::<u64>::shift_from_depth_max(depth) as u32;
    let ranges: Vec<std::ops::Range<u64>> = cells.iter().map(|c| (c << shift)..((c + 1) << shift)).collect();
    smoc(depth, ranges)
}

#[test]
fn test_range2cells_1() {
    let ranges = Ranges::<u64>::new_unchecked(vec![0..5]);
    let rm = SMoc::new(29, ranges);
    let v1: Vec<Cell> = rm.cells();
    assert_eq!(v1, vec![Cell::new(28, 0), Cell::new(29, 4)]);

    let mut v2: Vec<(i8, u64)> = v1.iter().map(|c| (c.depth as i8, c.idx)).collect();
    v2.sort();
    assert_eq!(v2, vec![(28, 0), (29, 4)]);
}

#[test]
fn test_range2cells_2() {
    let ranges: Vec<std::ops::Range<u64>> = vec![2..8];
    let ranges = Ranges::<u64>::new_unchecked(ranges);
    let rm = SMoc::new(29, ranges);
    let v1: Vec<Cell> = rm.cells();
    assert_eq!(v1, vec![Cell::new(29, 2), Cell::new(29, 3), Cell::new(28, 1)]);

    let mut v2: Vec<(i8, u64)> = v1.iter().map(|c| (c.depth as i8, c.idx)).collect();
    v2.sort();
    assert_eq!(v2, vec![(28, 1), (29, 2), (29, 3)]);
}

#[test]
fn test_n_depth_max_cells() {
    let moc = SMoc::new_full_domain(0);
    assert_eq!(moc.n_depth_max_cells(), 12);
    let moc = SMoc::new_full_domain(2);
    assert_eq!(moc.n_depth_max_cells(), 192);
    let moc = SMoc::new_full_domain(24);
    assert_eq!(moc.n_depth_max_cells(), 3377699720527872);
}

#[test]
fn cells_of_full_domain() {
    let moc = SMoc::new_full_domain(3);
    let cells = moc.cells();
    assert_eq!(cells.len(), 12);
    for (i, c) in cells.iter().enumerate() {
        assert_eq!(*c, Cell::new(0, i as u64));
    }
    // A time MOC of one range
    let t = tmoc(61, vec![3..13]);
    assert_eq!(t.cells(), vec![Cell::new(61, 3), Cell::new(59, 1), Cell::new(59, 2), Cell::new(61, 12)]);
}

#[test]
fn moc_basic_accessors() {
    let m = smoc(29, vec![10..20, 30..40]);
    assert_eq!(m.depth_max(), 29);
    assert_eq!(HasMaxDepth::depth_max(&m), 29);
    assert_eq!(m.len(), 2);
    assert!(!m.is_empty());
    assert_eq!(m.first_index(), Some(10));
    assert_eq!(m.last_index(), Some(40));
    assert_eq!(m.range_sum(), 20);
    assert!(m.contains_val(&15));
    assert!(!m.contains_val(&25));
    assert!(m.contains_depth_max_val(&35));
    let e = SMoc::new_empty(5);
    assert!(e.is_empty());
    assert_eq!(e.first_index(), None);
    // contains_cell: the cell 1 of depth 28 is [4, 8[
    let m2 = smoc(29, vec![0..10]);
    assert!(m2.contains_cell(28, 1));
    assert!(!m2.contains_cell(28, 2));
}

#[test]
fn moc_logical_operations() {
    let a = smoc(29, vec![0..10, 20..30]);
    let b = smoc(29, vec![5..25]);
    assert_eq!(a.or(&b), smoc(29, vec![0..30]));
    assert_eq!(a.union(&b), smoc(29, vec![0..30]));
    assert_eq!(a.and(&b), smoc(29, vec![5..10, 20..25]));
    assert_eq!(a.intersection(&b), smoc(29, vec![5..10, 20..25]));
    assert_eq!(a.xor(&b), smoc(29, vec![0..5, 10..20, 25..30]));
    assert_eq!(a.minus(&b), smoc(29, vec![0..5, 25..30]));
    let n = Hpx::<u64>::n_cells_max();
    assert_eq!(a.not(), smoc(29, vec![10..20, 30..n]));
    assert_eq!(a.complement(), smoc(29, vec![10..20, 30..n]));
    assert_eq!(a.not().not(), a);
}

#[test]
fn moc_degrade() {
    // At depth 28, cells hold 4 values at depth 29
    let a = smoc(29, vec![5..6, 9..13]);
    let d = a.degraded(28);
    assert_eq!(d.depth_max(), 28);
    assert_eq!(d, smoc(28, vec![4..16]));
    // No effect when degrading to a deeper depth
    assert_eq!(a.degraded(29), a);
}

#[test]
fn time_moc_expand_contract() {
    // Depth 60: cells of 2 microseconds
    let t = tmoc(60, vec![10..20, 30..32]);
    assert_eq!(t.expanded(), tmoc(60, vec![8..22, 28..34]));
    assert_eq!(t.contracted(), tmoc(60, vec![12..18]));
    let f = RangeMOC::<u64, Frequency<u64>>::new(59, Ranges::new_from(vec![4..5]));
    assert_eq!(f.expanded(), RangeMOC::<u64, Frequency<u64>>::new(59, Ranges::new_from(vec![3..6])));
    assert!(f.contracted().is_empty());
}

/// The cells of depth `depth + delta` around the cell `idx` of depth `depth`, given by cdshealpix.
fn external_edge(depth: u8, idx: u64, delta: u8) -> Vec<u64> {
    cdshealpix::nested::external_edge(depth, idx, delta).to_vec()
}

#[test]
fn hpx_expand_single_cell() {
    let depth = 3;
    let idx = 100;
    let m = hpx_cells_moc(depth, &[idx]);
    let mut expected_cells = external_edge(depth, idx, 0);
    expected_cells.push(idx);
    let expected = hpx_cells_moc(depth, &expected_cells);
    let expanded = m.expanded();
    assert_eq!(expanded, expected);
    // External border: the surrounding cells only
    let ext = hpx_cells_moc(depth, &external_edge(depth, idx, 0));
    assert_eq!(m.external_border(), ext);
    // Internal border: the cell itself
    assert_eq!(m.internal_border(), m);
    // Contracting a single cell removes it
    assert!(m.contracted().is_empty());
}

#[test]
fn hpx_expand_large_cell() {
    // A cell of depth 1 in a MOC of depth 3: its surrounding cells are of depth 3
    let m = RangeMOC::<u64, Hpx<u64>>::new(3, hpx_cells_moc(1, &[5]).into_moc_ranges());
    let mut expected_cells = external_edge(1, 5, 2);
    for i in 0..16 {
        expected_cells.push((5 << 4) + i);
    }
    assert_eq!(m.expanded(), hpx_cells_moc(3, &expected_cells));
    // Contracting removes the cells of the cell touching the complement
    let mut inner: Vec<u64> = (0..16).map(|i| (5u64 << 4) + i).collect();
    let border = external_edge(1, 5, 2);
    let compl = m.not();
    let mut ext_of_compl: Vec<u64> = Vec::new();
    for c in compl.cells() {
        ext_of_compl.extend(external_edge(c.depth, c.idx, 3 - c.depth));
    }
    inner.retain(|c| !ext_of_compl.contains(c));
    assert_eq!(m.contracted(), hpx_cells_moc(3, &inner));
    assert!(!border.is_empty());
}

#[test]
fn hpx_split() {
    // Two distant cells of depth 1 and two cells sharing an edge
    let m = hpx_cells_moc(1, &[0, 1, 40]);
    let parts = m.split_into_joint_mocs(false);
    assert_eq!(parts.len(), 2);
    assert_eq!(parts[0].cells(), &vec![Cell::new(1, 0), Cell::new(1, 1)]);
    assert_eq!(parts[1].cells(), &vec![Cell::new(1, 40)]);
    assert_eq!(parts[0].to_range_moc(), hpx_cells_moc(1, &[0, 1]));
    let groups = m.split_cells(true);
    assert_eq!(groups.len(), 2);
    // Cells 0 and 3 of depth 1 only share a vertex
    let m = hpx_cells_moc(1, &[0, 3]);
    assert_eq!(m.split_cells(false).len(), 2);
    assert_eq!(m.split_cells(true).len(), 1);
}

#[test]
fn test_to_fixed_depth_cells() {
    let moc = RangeMOC::<u64, Hpx<u64>>::new_full_domain(0);
    assert_eq!(moc.flatten_to_fixed_depth_cells(), (0..12).into_iter().collect::<Vec<u64>>());
    let moc = RangeMOC::<u64, Hpx<u64>>::new_full_domain(2);
    assert_eq!(moc.flatten_to_fixed_depth_cells(), (0..192).into_iter().collect::<Vec<u64>>());
}

#[test]
fn flatten_lists_cells_in_order() {
    let m = tmoc(60, vec![2..8, 20..22]);
    assert_eq!(m.flatten_to_fixed_depth_cells(), vec![1, 2, 3, 10]);
}

#[test]
fn overlapped_by_keeps_whole_left_ranges_that_touch_right() {
    let left = smoc(29, vec![0..5, 10..20, 30..40, 50..60]);
    let right = smoc(29, vec![4..11, 40..50, 55..56]);
    let res = moc::overlap::overlapped_by(&left, &right);
    assert_eq!(res.moc_ranges().0, vec![0..5, 10..20, 50..60]);
    assert_eq!(res.depth_max(), 29);
    assert!(res.moc_ranges().0.len() <= left.moc_ranges().0.len());
}

#[test]
fn overlapped_by_empty_right_gives_empty() {
    let left = smoc(29, vec![0..5, 10..20]);
    let right = smoc(29, vec![]);
    let res = moc::overlap::overlapped_by(&left, &right);
    assert!(res.moc_ranges().0.is_empty());
}

#[test]
fn overlap_it() {
    let cone = |lon: f64, lat: f64, r: f64| {
        let bmoc = cdshealpix::nested::cone_coverage_approx_custom(8, 2, lon, lat, r);
        SMoc::from_bmoc_ranges(bmoc.get_depth_max(), bmoc.to_ranges().to_vec())
    };
    let moc_l = cone(1.0, 0.5, 0.1).or(&cone(2.0, -0.3, 0.05)).or(&cone(4.0, 0.1, 0.2));
    let moc_r = cone(1.05, 0.52, 0.03).or(&cone(4.1, 0.0, 0.05));
    let overlap = moc::overlap::overlapped_by(&moc_l, &moc_r);
    assert_eq!(overlap.moc_ranges().0.len() <= moc_l.moc_ranges().0.len(), true);
    // Each kept range is a range of the left MOC meeting the right MOC.
    for r in overlap.moc_ranges().0.iter() {
        assert!(moc_l.moc_ranges().0.contains(r));
        assert!(moc_r.moc_ranges().intersects_range(r));
    }
}

#[test]
fn test_range2cells_3() {
    let ranges = Ranges::<u64>::new_unchecked(vec![0..5, 6..59, 78..6953, 12458..55587, 55787..65587]);
    let rm = SMoc::new(29, ranges);
    let mut v1: Vec<Cell> = rm.cells();
    v1.sort_by(|a, b| (a.depth, a.idx).cmp(&(b.depth, b.idx)));
    // The same cells, decomposed through their uniq notation, in uniq order.
    let mut uniqs: Vec<u64> = rm.cells().iter().map(|c| Hpx::<u64>::uniq_hpx(c.depth, c.idx)).collect();
    uniqs.sort();
    let v2: Vec<(i8, u64)> = uniqs.iter().map(|&u| {
        let (d, i) = Hpx::<u64>::from_uniq_hpx(u);
        (d as i8, i)
    }).collect();
    assert_eq!(v1.len(), v2.len());
    for (Cell { depth, idx }, (depth2, idx2)) in v1.into_iter().zip(v2.into_iter()) {
        assert_eq!(depth, depth2 as u8);
        assert_eq!(idx, idx2);
    }
    // The cells cover exactly the ranges.
    let total: u64 = rm.cells().iter().map(|c| 1u64 << (2 * (29 - c.depth as u64))).sum();
    assert_eq!(total, 5 + 53 + (6953 - 78) + (55587 - 12458) + (65587 - 55787));
}

#[test]
fn test_range2cellrange() {
    let ranges: Vec<std::ops::Range<u64>> = vec![2..8];
    let ranges = Ranges::<u64>::new_unchecked(ranges);
    let rm = SMoc::new(29, ranges);
    // The cell range (29, 2..4) then the cell (28, 1).
    assert_eq!(rm.cells(), vec![Cell::new(29, 2), Cell::new(29, 3), Cell::new(28, 1)]);
}

#[test]
fn test_uniq_iter() {
    let uniq_set = |m: &SMoc| -> Vec<u64> {
        let mut u: Vec<u64> = m.cells().iter().map(|c| Hpx::<u64>::uniq_hpx(c.depth, c.idx)).collect();
        u.sort();
        u
    };
    let back = |u: &[u64]| -> SMoc {
        smoc(29, u.iter().map(|&x| Hpx::<u64>::uniq_hpx_to_range(x)).collect())
    };
    let simple_nested = smoc(29, vec![0..1]);
    let complex_nested = smoc(29, vec![7..76]);
    let empty_nested = smoc(29, vec![]);
    let p = |d: u32| 4 * 4_u64.pow(d);
    let simple_uniq: Vec<u64> = (p(29)..(p(29) + 1)).collect();
    let complex_uniq: Vec<u64> = ((1 + p(27))..(4 + p(27)))
        .chain((2 + p(28))..(4 + p(28)))
        .chain((16 + p(28))..(19 + p(28)))
        .chain((7 + p(29))..(8 + p(29)))
        .collect();
    assert_eq!(uniq_set(&simple_nested), simple_uniq);
    assert_eq!(uniq_set(&complex_nested), complex_uniq);
    assert_eq!(uniq_set(&empty_nested), Vec::<u64>::new());
    assert_eq!(back(&simple_uniq), simple_nested);
    assert_eq!(back(&complex_uniq), complex_nested);
    assert_eq!(back(&[]), empty_nested);
}
