use std::ops::Range;

use moc::moc::RangeMOC;
use moc::moc2d::{HasTwoMaxDepth, RangeMOC2, RangeMOC2Elem};
use moc::qty::{Hpx, MocQty, Time};
use moc::ranges::Ranges;

type StMoc = RangeMOC2<u64, Time<u64>, u64, Hpx<u64>>;

fn create_moc2_at_max_depth(elems: Vec<(Range<u64>, Range<u64>)>) -> StMoc {
    let elems = elems
        .into_iter()
        .map(|(trange, srange)| {
            RangeMOC2Elem::new(
                RangeMOC::new(Time::<u64>::MAX_DEPTH, Ranges::new_unchecked(vec![trange])),
                RangeMOC::new(Hpx::<u64>::MAX_DEPTH, Ranges::new_unchecked(vec![srange])),
            )
        })
        .collect::<Vec<RangeMOC2Elem<u64, Time<u64>, u64, Hpx<u64>>>>();
    RangeMOC2::new(Time::<u64>::MAX_DEPTH, Hpx::<u64>::MAX_DEPTH, elems)
}

fn create_moc2_at_max_depth_v2(elems: Vec<(Vec<Range<u64>>, Vec<Range<u64>>)>) -> StMoc {
    let elems = elems
        .into_iter()
        .map(|(tranges, sranges)| {
            RangeMOC2Elem::new(
                RangeMOC::new(Time::<u64>::MAX_DEPTH, Ranges::new_unchecked(tranges)),
                RangeMOC::new(Hpx::<u64>::MAX_DEPTH, Ranges::new_unchecked(sranges)),
            )
        })
        .collect::<Vec<RangeMOC2Elem<u64, Time<u64>, u64, Hpx<u64>>>>();
    RangeMOC2::new(Time::<u64>::MAX_DEPTH, Hpx::<u64>::MAX_DEPTH, elems)
}

#[test]
fn union_ranges_1_3() {
    let a = create_moc2_at_max_depth(vec![(0..10, 16..21)]);
    let b = create_moc2_at_max_depth(vec![(10..20, 16..21)]);

    let c = a.or(&b);

    let res = create_moc2_at_max_depth(vec![(0..20, 16..21)]);
    assert_eq!(res, c);
}

#[test]
fn union_ranges_1_3_bis() {
    let a = create_moc2_at_max_depth(vec![(0..10, 16..21)]);
    let b = create_moc2_at_max_depth(vec![(10..20, 16..22)]);

    let c = a.or(&b);

    let res = create_moc2_at_max_depth(vec![(0..10, 16..21), (10..20, 16..22)]);
    assert_eq!(res, c);
}

#[test]
fn union_ranges_covering() {
    let a = create_moc2_at_max_depth(vec![(0..10, 16..21)]);
    let b = create_moc2_at_max_depth(vec![(9..20, 0..17)]);

    let c = a.or(&b);

    let res = create_moc2_at_max_depth(vec![(0..9, 16..21), (9..10, 0..21), (10..20, 0..17)]);
    assert_eq!(res, c);
}

#[test]
fn empty_range_union() {
    let a = create_moc2_at_max_depth(vec![(0..1, 42..43)]);
    let b = create_moc2_at_max_depth(vec![(9..20, 0..17)]);

    let c = a.or(&b);

    let res = create_moc2_at_max_depth(vec![(0..1, 42..43), (9..20, 0..17)]);
    assert_eq!(res, c);
}

#[test]
fn empty_range_union_bis() {
    let b = create_moc2_at_max_depth(vec![(0..9, 0..20)]);
    let a = create_moc2_at_max_depth(vec![(9..20, 0..17)]);

    let c = a.or(&b);

    let res = create_moc2_at_max_depth(vec![(0..9, 0..20), (9..20, 0..17)]);
    assert_eq!(res, c);
}

#[test]
fn complex_union() {
    let a = create_moc2_at_max_depth_v2(vec![
        (vec![0..2, 3..5], vec![2..3]),
        (vec![8..9], vec![5..6]),
        (vec![13..14], vec![7..8]),
    ]);
    let b = create_moc2_at_max_depth_v2(vec![
        (vec![1..4], vec![0..3]),
        (vec![6..7, 9..10], vec![5..6]),
        (vec![11..12], vec![10..13]),
    ]);

    let result = a.or(&b);
    let expected = create_moc2_at_max_depth_v2(vec![
        (vec![0..1], vec![2..3]),
        (vec![1..4], vec![0..3]),
        (vec![4..5], vec![2..3]),
        (vec![6..7, 8..10], vec![5..6]),
        (vec![11..12], vec![10..13]),
        (vec![13..14], vec![7..8]),
    ]);
    assert_eq!(expected, result);
}

#[test]
fn moc2_and_minus() {
    let a = create_moc2_at_max_depth(vec![(0..10, 16..21)]);
    let b = create_moc2_at_max_depth(vec![(5..20, 18..30)]);
    assert_eq!(a.and(&b), create_moc2_at_max_depth(vec![(5..10, 18..21)]));
    assert_eq!(a.minus(&b), create_moc2_at_max_depth(vec![(0..5, 16..21), (5..10, 16..18)]));
    assert!(a.contains_val(&3, &17));
    assert!(!a.contains_val(&3, &21));
    assert!(!a.contains_val(&10, &17));
    assert_eq!(a.min_index_left(), Some(0));
    assert_eq!(a.max_index_left(), Some(10));
    assert_eq!(a.depth_max_1(), 61);
    assert_eq!(a.depth_max_2(), 29);
    assert_eq!(a.len(), 1);
    assert!(!a.is_empty());
    assert!(StMoc::new_empty(10, 5).is_empty());
}

#[test]
fn moc2_projections() {
    let st = create_moc2_at_max_depth(vec![(0..10, 16..21), (20..30, 40..50)]);
    // Time MOC overlapping the first element only
    let t = RangeMOC::<u64, Time<u64>>::new(61, Ranges::new_unchecked(vec![5..6]));
    let s = StMoc::project_on_second_dim(&t, &st);
    assert_eq!(s, RangeMOC::new(29, Ranges::new_unchecked(vec![16..21])));
    // Space MOC including the S-MOC of the second element only
    let y = RangeMOC::<u64, Hpx<u64>>::new(29, Ranges::new_unchecked(vec![17..60]));
    let tt = StMoc::project_on_first_dim(&y, &st);
    assert_eq!(tt, RangeMOC::new(61, Ranges::new_unchecked(vec![20..30])));
}

#[test]
fn into_or_is_or() {
    let a = create_moc2_at_max_depth(vec![(0..10, 0..5), (20..30, 3..8)]);
    let b = create_moc2_at_max_depth(vec![(5..25, 4..6)]);
    let expected = create_moc2_at_max_depth(vec![(0..10, 0..5), (20..30, 3..8)]).or(&create_moc2_at_max_depth(vec![(5..25, 4..6)]));
    assert_eq!(a.into_or(b), expected);
}

/// Reads an ST-MOC written in the ASCII notation: `t` followed by time cells (`depth/idx` or
/// `depth/idx1-idx2`, the depth being kept for the next cells), then `s` followed by space cells;
/// a `t` after space cells starts a new element. The depths of the MOC are the largest depths
/// written.
fn stmoc_from_ascii(text: &str) -> StMoc {
    let mut raw: Vec<(Vec<Range<u64>>, Vec<Range<u64>>)> = Vec::new();
    let mut cur_t: Vec<Range<u64>> = Vec::new();
    let mut cur_s: Vec<Range<u64>> = Vec::new();
    let (mut dt_max, mut ds_max) = (0_u8, 0_u8);
    let mut in_time = true;
    let mut depth = 0_u8;
    for token in text.split_whitespace() {
        let mut tok = token;
        if let Some(rest) = tok.strip_prefix('t') {
            if !cur_s.is_empty() {
                raw.push((std::mem::take(&mut cur_t), std::mem::take(&mut cur_s)));
            }
            in_time = true;
            tok = rest;
        } else if let Some(rest) = tok.strip_prefix('s') {
            in_time = false;
            tok = rest;
        }
        let cells = match tok.split_once('/') {
            Some((d, rest)) => {
                depth = d.parse().unwrap();
                if in_time {
                    dt_max = dt_max.max(depth);
                } else {
                    ds_max = ds_max.max(depth);
                }
                rest
            }
            None => tok,
        };
        if cells.is_empty() {
            continue;
        }
        let (a, b): (u64, u64) = match cells.split_once('-') {
            Some((a, b)) => (a.parse().unwrap(), b.parse().unwrap()),
            None => (cells.parse().unwrap(), cells.parse().unwrap()),
        };
        if in_time {
            let shift = 61 - depth as u64;
            cur_t.push((a << shift)..((b + 1) << shift));
        } else {
            let shift = 2 * (29 - depth as u64);
            cur_s.push((a << shift)..((b + 1) << shift));
        }
    }
    if !cur_t.is_empty() || !cur_s.is_empty() {
        raw.push((cur_t, cur_s));
    }
    let elems = raw
        .into_iter()
        .map(|(t, s)| {
            RangeMOC2Elem::new(RangeMOC::new(dt_max, Ranges::new_from(t)), RangeMOC::new(ds_max, Ranges::new_from(s)))
        })
        .collect::<Vec<RangeMOC2Elem<u64, Time<u64>, u64, Hpx<u64>>>>();
    RangeMOC2::new(dt_max, ds_max, elems)
}

fn test_union_from_ascii(_label: &str, left: &str, right: &str, result: &str) {
    let actual = stmoc_from_ascii(left).or(&stmoc_from_ascii(right));
    assert_eq!(actual, stmoc_from_ascii(result));
}

#[test]
fn test_union_from_java_code() {
    test_union_from_ascii("Ajout à vide", "", "t61/5-10 s29/2", "t60/3-4 61/5 10 s29/2");
    test_union_from_ascii("Ajout singleton derrière singleton", "t61/4 s29/1", "t61/5 s29/2", "t61/4 s29/1 t61/5 s29/2");
    test_union_from_ascii("Ajout singleton avant singleton", "t61/5 s29/2", "t61/4 s29/1", "t61/4 s29/1 t61/5 s29/2");
    test_union_from_ascii(
        "Ajout intervalle entrelacés après",
        "t61/4-6 s29/1",
        "t61/5-8 s29/2",
        "t61/4 s29/1 t61/5-6 s29/1-2 t61/7-8 s29/2",
    );
    test_union_from_ascii(
        "Ajout intervalle entrelacés avant",
        "t61/5-8 s29/2",
        "t61/4-6 s29/1",
        "t61/4 s29/1 t61/5-6 s29/1-2 t61/7-8 s29/2",
    );
    test_union_from_ascii(
        "Ajout intervalle englobant (s différents)",
        "t61/2-6 s29/2",
        "t61/1-8 s29/1",
        "t61/1 s29/1 t60/1-2 61/6 s29/1-2 t61/7-8 s29/1",
    );
    test_union_from_ascii("Ajout intervalle englobant (s identiques)", "t61/2-6 s29/2", "t61/1-8 s29/2", "t59/1 60/1 61/1 8 s29/2");
    test_union_from_ascii(
        "Ajout intervalle interne (s différents)",
        "t61/1-8 s29/1",
        "t61/2-6 s29/2",
        "t61/1 s29/1 t60/1-2 61/6 s29/1-2 t61/7-8 s29/1",
    );
    test_union_from_ascii("Ajout intervalle interne (s identiques)", "t61/1-8 s29/2", "t61/2-6 s29/2", "t59/1 60/1 61/1 8 s29/2");
    test_union_from_ascii("Intercallage", "t61/6-7 11 s29/1", "t61/9 s29/2", "t60/3 61/ s29/1 t61/9 s29/2 t61/11 s29/1");
    test_union_from_ascii(
        "Fusion différents s",
        "t61/2-6 8-9 s29/2",
        "t61/7 s29/1",
        "t60/1-2 61/6 s29/2 t61/7 s29/1 t60/4 61/ s29/2",
    );
    test_union_from_ascii("Fusion indentiques s", "t61/2-6 8-9 s29/2", "t61/7 s29/2", "t59/1 60/1 4 61/ s29/2");
    test_union_from_ascii(
        "Remplacement sur début",
        "t61/2-6 s29/2 t61/7 s29/1",
        "t61/2-7 s29/2",
        "t60/1-2 61/6 s29/2 t61/7 s29/1-2",
    );
    test_union_from_ascii(
        "Remplacement sur fin",
        "t61/3-7 s29/2 t61/8 s29/1",
        "t61/2-7 s29/2",
        "t59/1 60/1 61/ s29/2 t61/8 s29/1",
    );
    test_union_from_ascii("Remplacement sur fin2", "t61/2-4 s29/2 t61/6 s29/1", "t61/6 s29/2", "t60/1 61/4 s29/2 t61/6 s29/1-2");
    test_union_from_ascii("Tordu", "t61/3 s29/1 t61/4-5 s29/2", "t61/3-5 s29/3", "t61/3 s29/1 3 t60/2 61/ s29/2-3");
    test_union_from_ascii(
        "Inter simple",
        "t61/3-5 s29/1-3",
        "t61/4-8 s29/2-4",
        "t61/3 s29/1-3 t60/2 61/ s29/1-4 t60/3 61/8 s29/2-4",
    );
    test_union_from_ascii(
        "Inter spécial",
        "t61/1 s29/1-6 t61/3-9 s29/2",
        "t61/3 s29/5-7 t61/8 s29/1-2",
        "t61/1 s29/1-6 t61/3 s29/2 5-7 t59/1 61/ s29/2 t61/8 s29/1-2 t61/9 s29/2",
    );
    test_union_from_ascii("Ajout en suite", "t61/1-4 s29/1", "t61/5-6 s29/1", "t60/1-2 61/1 6 s29/1");
}

#[test]
fn union2_commutes_and_keeps_canonical_operand() {
    let a = create_moc2_at_max_depth(vec![(0..10, 16..21)]);
    let b = create_moc2_at_max_depth(vec![(9..20, 0..17)]);
    assert_eq!(a.or(&b), b.or(&a));
    let expected = create_moc2_at_max_depth(vec![(0..9, 16..21), (9..10, 0..21), (10..20, 0..17)]);
    assert_eq!(b.or(&a), expected);
    let e = StMoc::new_empty(Time::<u64>::MAX_DEPTH, Hpx::<u64>::MAX_DEPTH);
    assert_eq!(e.or(&expected), expected);
    assert_eq!(expected.or(&e), expected);
}
