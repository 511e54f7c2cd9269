use moc::edges::{CellAndEdges, OrdinalSet};
use moc::moc::RangeMOC;
use moc::qty::Hpx;

type SMoc = RangeMOC<u64, Hpx<u64>>;

#[test]
fn test_border_elementary_edges() {
    let hash = cdshealpix::nested::hash(8, 0.0_f64, 0.0_f64);
    let moc = SMoc::from_fixed_depth_cells(8, vec![hash], None);
    let elementary_edges: Vec<CellAndEdges<u64>> = moc.border_elementary_edges();
    assert_eq!(elementary_edges.len(), 1);
    assert_eq!(elementary_edges[0].edges, OrdinalSet::all());

    let moc = moc.expanded();
    let elementary_edges: Vec<CellAndEdges<u64>> = moc.border_elementary_edges();
    assert_eq!(elementary_edges.len(), 8);
}

#[test]
fn all_edges_of_a_single_cell() {
    let moc = SMoc::from_fixed_depth_cells(3, vec![100], None);
    let edges = moc.all_edges_only_once();
    assert_eq!(edges.len(), 1);
    assert_eq!(edges[0].uniq, Hpx::<u64>::uniq_hpx(3, 100));
    assert_eq!(edges[0].edges, OrdinalSet::all());
}

#[test]
fn all_edges_draws_shared_edges_once() {
    // Cell 100 of depth 3 and its neighbours at depth 3.
    let nb = cdshealpix::nested::neighbours(3, 100, false);
    let ne = *nb.get(cdshealpix::compass_point::MainWind::NE).unwrap();
    let moc = SMoc::from_fixed_depth_cells(3, vec![100, ne], None);
    let edges = moc.all_edges_only_once();
    assert_eq!(edges.len(), 2);
    assert!(edges[0].uniq < edges[1].uniq);
    // The shared edge is drawn from the cell of larger index only.
    let (lo, hi) = if 100 < ne { (100, ne) } else { (ne, 100) };
    let e_lo = edges.iter().find(|e| e.uniq == Hpx::<u64>::uniq_hpx(3, lo)).unwrap();
    let e_hi = edges.iter().find(|e| e.uniq == Hpx::<u64>::uniq_hpx(3, hi)).unwrap();
    let n_lo = [e_lo.edges.ne, e_lo.edges.se, e_lo.edges.nw, e_lo.edges.sw].iter().filter(|b| **b).count();
    let n_hi = [e_hi.edges.ne, e_hi.edges.se, e_hi.edges.nw, e_hi.edges.sw].iter().filter(|b| **b).count();
    assert_eq!(n_lo + n_hi, 7);
    assert_eq!(n_lo, 3);
    assert_eq!(n_hi, 4);
}

#[test]
fn all_edges_skip_neighbours_inside_a_coarser_cell() {
    // Base cell 0 at depth 0 and a cell of depth 1 next to it: the edge of the depth 1 cell
    // towards the base cell is not drawn, since the base cell comes first.
    let base = SMoc::from_fixed_depth_cells(0, vec![0], None);
    let nb = cdshealpix::nested::neighbours(1, 4, false);
    let mut expected_not_drawn = 0;
    for w in [
        cdshealpix::compass_point::MainWind::NE,
        cdshealpix::compass_point::MainWind::SE,
        cdshealpix::compass_point::MainWind::NW,
        cdshealpix::compass_point::MainWind::SW,
    ] {
        if let Some(n) = nb.get(w) {
            if *n < 4 {
                expected_not_drawn += 1;
            }
        }
    }
    let moc = base.or(&SMoc::from_fixed_depth_cells(1, vec![4], None));
    let edges = moc.all_edges_only_once();
    assert_eq!(edges.len(), 2);
    assert_eq!(edges[0].uniq, Hpx::<u64>::uniq_hpx(0, 0));
    assert_eq!(edges[0].edges, OrdinalSet::all());
    let e = edges[1].edges;
    let drawn = [e.ne, e.se, e.nw, e.sw].iter().filter(|b| **b).count();
    assert_eq!(drawn + expected_not_drawn, 4);
}
