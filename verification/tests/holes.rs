use moc::moc::RangeMOC;
use moc::qty::Hpx;

type SMoc = RangeMOC<u64, Hpx<u64>>;

#[test]
fn fill_holes_fills_a_hole_but_keeps_the_largest_part() {
    let cell = SMoc::from_fixed_depth_cells(3, vec![100], None);
    let block = cell.expanded();
    let ring = block.minus(&cell);
    assert_eq!(ring.fill_holes(None), block);
    assert_eq!(ring.fill_holes(Some(0)), block);
    // Keeping the two largest parts of the complement: nothing is filled.
    assert_eq!(ring.fill_holes(Some(1)), ring);
    // No hole.
    assert_eq!(block.fill_holes(None), block);
}

#[test]
fn fill_holes_of_two_holes_keeps_the_larger() {
    // Two rings at depth 3, far apart: holes of one cell each; a ring with a 2-cell hole.
    let c1 = SMoc::from_fixed_depth_cells(3, vec![100], None);
    let r1 = c1.expanded().minus(&c1);
    let c2 = SMoc::from_fixed_depth_cells(3, vec![600, 601], None);
    let r2 = c2.expanded().minus(&c2);
    let m = r1.or(&r2);
    // The sky outside is the largest part, then the 2-cell hole, then the 1-cell hole.
    assert_eq!(m.fill_holes(None), m.or(&c1).or(&c2));
    assert_eq!(m.fill_holes(Some(1)), m.or(&c1));
    assert_eq!(m.fill_holes(Some(2)), m);
}

#[test]
fn fill_holes_smaller_than_an_area() {
    // Cells of depth 3 hold 4^26 values: an area key of 4^26 / 2^12 = 2^40.
    let one_cell_key: u64 = 1 << 40;
    let c1 = SMoc::from_fixed_depth_cells(3, vec![100], None);
    let r1 = c1.expanded().minus(&c1);
    let c2 = SMoc::from_fixed_depth_cells(3, vec![600, 601], None);
    let r2 = c2.expanded().minus(&c2);
    let m = r1.or(&r2);
    assert_eq!(m.fill_holes_smaller_than(one_cell_key - 1), m);
    assert_eq!(m.fill_holes_smaller_than(one_cell_key), m.or(&c1));
    assert_eq!(m.fill_holes_smaller_than(2 * one_cell_key), m.or(&c1).or(&c2));
    // The outside of the rings is much larger than both holes.
    assert_eq!(m.fill_holes_smaller_than(3 * one_cell_key), m.or(&c1).or(&c2));
}
