use moc::fits::{
    data_word_bytes, decode_range_moc, widen_range_words, decode_s_moc_nuniq, fits_moc_header_cards, parse_fits_moc_header,
    FitsHeaderError, FitsMocHeader, FitsMocKind, MocKw, TForm1,
};
use moc::fits::{read_fits_moc_file, write_fits_moc_file, FitsFileError};
use moc::moc::RangeMOC;
use moc::qty::{Hpx, Time};
use moc::ranges::Ranges;
use moc::store::U64MocStore;

/// One 80-byte card: the keyword padded to 8 bytes, `= ` and the value.
fn card(kw: &str, val: &str) -> Vec<u8> {
    let mut c = format!("{:<8}= {}", kw, val).into_bytes();
    c.resize(80, b' ');
    c
}

fn end_card() -> Vec<u8> {
    let mut c = b"END".to_vec();
    c.resize(80, b' ');
    c
}

fn header(naxis1: &str, naxis2: &str, moc_cards: &[(&str, &str)], with_end: bool) -> Vec<u8> {
    let mut h = Vec::new();
    h.extend(card("XTENSION", "'BINTABLE'"));
    h.extend(card("BITPIX", "8"));
    h.extend(card("NAXIS", "2"));
    h.extend(card("NAXIS1", naxis1));
    h.extend(card("NAXIS2", naxis2));
    h.extend(card("PCOUNT", "0"));
    h.extend(card("GCOUNT", "1"));
    h.extend(card("TFIELDS", "1"));
    for (k, v) in moc_cards {
        h.extend(card(k, v));
    }
    if with_end {
        h.extend(end_card());
    }
    h
}

#[test]
fn fits_header_v2_smoc_nuniq() {
    let h = header(
        "4",
        "875",
        &[
            ("TTYPE1", "'UNIQ    '"),
            ("TFORM1", "'1J      '"),
            ("MOCVERS", "'2.0     '"),
            ("MOCDIM", "'SPACE   '"),
            ("ORDERING", "'NUNIQ   '"),
            ("COORDSYS", "'C       '"),
            ("MOCORD_S", "                   8 / MOC resolution"),
        ],
        true,
    );
    let r = parse_fits_moc_header(&h, false).unwrap();
    assert_eq!(r.kind, FitsMocKind::SpaceNuniq);
    assert_eq!(r.depth_1, 8);
    assert_eq!(r.naxis1, 4);
    assert_eq!(r.naxis2, 875);
    assert_eq!(r.tform, Some(TForm1::OneJ));
}

#[test]
fn fits_header_v2_tmoc_and_stmoc() {
    let t = header(
        "8",
        "2",
        &[("MOCVERS", "'2.0'"), ("MOCDIM", "'TIME'"), ("ORDERING", "'RANGE'"), ("MOCORD_T", "35")],
        true,
    );
    let r = parse_fits_moc_header(&t, false).unwrap();
    assert_eq!(r.kind, FitsMocKind::TimeRange);
    assert_eq!(r.depth_1, 35);
    assert_eq!(r.tform, None);
    let st = header(
        "8",
        "10",
        &[
            ("MOCVERS", "'2.0'"),
            ("MOCDIM", "'TIME.SPACE'"),
            ("ORDERING", "'RANGE'"),
            ("MOCORD_T", "61"),
            ("MOCORD_S", "29"),
        ],
        true,
    );
    let r = parse_fits_moc_header(&st, false).unwrap();
    assert_eq!(r.kind, FitsMocKind::TimeSpaceRange);
    assert_eq!((r.depth_1, r.depth_2), (61, 29));
}

#[test]
fn fits_header_v1_and_first_occurrence() {
    let h = header("8", "10", &[("MOCORDER", "29"), ("ORDERING", "'NUNIQ'"), ("MOCORDER", "10")], true);
    let r = parse_fits_moc_header(&h, false).unwrap();
    assert_eq!(r.kind, FitsMocKind::SpaceNuniq);
    assert_eq!(r.depth_1, 29);
    let h = header("8", "10", &[("MOCORDER", "29"), ("ORDERING", "'RANGE29'"), ("MOCORD_T", "30")], true);
    let r = parse_fits_moc_header(&h, false).unwrap();
    assert_eq!(r.kind, FitsMocKind::TimeSpaceRange29);
    assert_eq!((r.depth_1, r.depth_2), (60, 29));
}

#[test]
fn fits_header_errors() {
    assert_eq!(parse_fits_moc_header(&vec![b' '; 100], false), Err(FitsHeaderError::NotCards));
    let mut h = header("8", "1", &[], true);
    h[80 * 0 + 11] = b'X';
    assert_eq!(parse_fits_moc_header(&h, false), Err(FitsHeaderError::UnexpectedValue(0)));
    let mut h = header("8", "1", &[], true);
    h[80 * 2] = b'M';
    assert_eq!(parse_fits_moc_header(&h, false), Err(FitsHeaderError::WrongKeyword(2)));
    let h = header("256", "1", &[], true);
    assert_eq!(parse_fits_moc_header(&h, false), Err(FitsHeaderError::UnexpectedValue(3)));
    let h = header("8", "1", &[("MOCVERS", "'2.0'"), ("MOCDIM", "'SPACE'"), ("MOCORD_S", "8")], false);
    assert_eq!(parse_fits_moc_header(&h, false), Err(FitsHeaderError::MissingEnd));
    let h = header("8", "1", &[("MOCVERS", "'2.0'"), ("MOCDIM", "'SPACE'"), ("MOCORD_S", "8")], true);
    assert_eq!(parse_fits_moc_header(&h, false), Err(FitsHeaderError::MissingKeyword(MocKw::OrderingKw)));
    let h = header("8", "1", &[("MOCVERS", "'2.0'"), ("MOCDIM", "'TIME'"), ("ORDERING", "'NUNIQ'"), ("MOCORD_T", "8")], true);
    assert_eq!(
        parse_fits_moc_header(&h, false),
        Err(FitsHeaderError::UncompatibleKeywordContent(MocKw::MocDim, MocKw::OrderingKw))
    );
    let h = header("8", "1", &[("MOCVERS", "'2.0'"), ("MOCDIM", "'SPACE'"), ("ORDERING", "'RANGE29'"), ("MOCORD_S", "8")], true);
    assert_eq!(
        parse_fits_moc_header(&h, false),
        Err(FitsHeaderError::UncompatibleKeywordContent(MocKw::OrderingKw, MocKw::MocVers))
    );
    let h = header("8", "1", &[("MOCDIM", "'SPACETIME'")], true);
    assert_eq!(parse_fits_moc_header(&h, false), Err(FitsHeaderError::WrongKeywordValue(MocKw::MocDim)));
    let h = header("8", "1", &[("MOCVERS", "'2.0'"), ("ORDERING", "'RANGE'"), ("MOCORD_S", "8")], true);
    assert_eq!(parse_fits_moc_header(&h, false), Err(FitsHeaderError::MissingKeyword(MocKw::MocDim)));
}

#[test]
fn fits_header_coordsys_permissive() {
    let h = header(
        "8",
        "1",
        &[("MOCVERS", "'2.0'"), ("MOCDIM", "'SPACE'"), ("ORDERING", "'RANGE'"), ("COORDSYS", "'G'"), ("MOCORD_S", "8")],
        true,
    );
    assert_eq!(parse_fits_moc_header(&h, false), Err(FitsHeaderError::WrongKeywordValue(MocKw::CoordSys)));
    let r = parse_fits_moc_header(&h, true).unwrap();
    assert_eq!(r.kind, FitsMocKind::SpaceRange);
    assert_eq!(r.depth_1, 8);
}

#[test]
fn fits_decode_range_moc() {
    let m = decode_range_moc::<Time<u64>>(&vec![1073741824, 2684354560], 35).unwrap();
    assert_eq!(m.depth_max(), 35);
    assert_eq!(m.len(), 1);
    assert!(m.contains_val(&1073741824));
    assert!(!m.contains_val(&2684354560));
    // Unsorted ranges are sorted and merged; bounds are degraded to the depth.
    let m = decode_range_moc::<Time<u64>>(&vec![10, 20, 0, 5, 4, 8], 61).unwrap();
    assert_eq!(m.moc_ranges().0, vec![0..8, 10..20]);
    let m = decode_range_moc::<Time<u64>>(&vec![1, 2], 35).unwrap();
    assert_eq!(m.moc_ranges().0, vec![0..(1u64 << 26)]);
    // Odd number of words, range beyond the largest value, depth too large.
    assert!(decode_range_moc::<Time<u64>>(&vec![10, 20, 30], 61).is_none());
    assert!(decode_range_moc::<Time<u64>>(&vec![0, (2u64 << 61) + 1], 61).is_none());
    assert!(decode_range_moc::<Time<u64>>(&vec![0, 1], 62).is_none());
}

#[test]
fn fits_decode_s_moc_nuniq() {
    let words = vec![259, 266, 0, 1040, 1041, 1042, 1046, 4115, 4116, 68719476958, 288230376275168533];
    let m = decode_s_moc_nuniq(&words, 29).unwrap();
    assert_eq!(m.depth_max(), 29);
    // 259 = 4^4 + 3: depth 3, cell 3 covers [3 * 4^26, 4 * 4^26).
    assert!(m.contains_val(&(3u64 << 52)));
    assert!(m.contains_val(&((4u64 << 52) - 1)));
    assert!(!m.contains_val(&(5u64 << 52)));
    assert!(!m.contains_val(&0));
    assert!(decode_s_moc_nuniq(&vec![259, 1], 29).is_none());
    let low = decode_s_moc_nuniq(&vec![1040], 40).unwrap();
    assert_eq!(low.depth_max(), 29);
}

#[test]
fn fits_header_write_read_back() {
    let kinds = [
        FitsMocKind::SpaceNuniq,
        FitsMocKind::SpaceRange,
        FitsMocKind::TimeRange,
        FitsMocKind::FrequencyRange,
        FitsMocKind::TimeSpaceRange,
    ];
    for kind in kinds {
        for tform in [TForm1::OneI, TForm1::OneJ, TForm1::OneK] {
            let cards = fits_moc_header_cards(kind, 12, 7, 123456789, tform).unwrap();
            assert_eq!(cards.len() % 2880, 0);
            let h = parse_fits_moc_header(&cards, false).unwrap();
            let naxis1 = match tform {
                TForm1::OneI => 2,
                TForm1::OneJ => 4,
                TForm1::OneK => 8,
            };
            let depth_2 = if kind == FitsMocKind::TimeSpaceRange { 7 } else { 0 };
            assert_eq!(
                h,
                FitsMocHeader { kind, depth_1: 12, depth_2, naxis1, naxis2: 123456789, tform: Some(tform) }
            );
            assert_eq!(data_word_bytes(&h), Ok(naxis1));
        }
    }
    assert!(fits_moc_header_cards(FitsMocKind::TimeSpaceRange29, 12, 7, 1, TForm1::OneK).is_none());
    let cards = fits_moc_header_cards(FitsMocKind::SpaceRange, 29, 0, 2, TForm1::OneK).unwrap();
    assert_eq!(&cards[0..20], b"XTENSION= 'BINTABLE'");
}

#[test]
fn fits_data_word_bytes_errors() {
    let h = FitsMocHeader { kind: FitsMocKind::TimeRange, depth_1: 35, depth_2: 0, naxis1: 4, naxis2: 2, tform: None };
    assert_eq!(data_word_bytes(&h), Err(FitsHeaderError::MissingKeyword(MocKw::TForm1)));
    let h = FitsMocHeader { tform: Some(TForm1::OneK), ..h };
    assert_eq!(data_word_bytes(&h), Err(FitsHeaderError::NaxisForTForm(4, TForm1::OneK)));
}

#[test]
fn fits_widen_range_words() {
    assert_eq!(widen_range_words(&vec![1, 2], 2), Some(vec![1u64 << 48, 2u64 << 48]));
    assert_eq!(widen_range_words(&vec![3], 4), Some(vec![3u64 << 32]));
    assert_eq!(widen_range_words(&vec![u64::MAX], 8), Some(vec![u64::MAX]));
    assert_eq!(widen_range_words(&vec![0x1_0000], 2), None);
    assert_eq!(widen_range_words(&vec![1], 3), None);
}

#[test]
fn fits_file_write_read_back() {
    let words = vec![1073741824u64, 2684354560, 3u64 << 40, 5u64 << 40];
    let bytes = write_fits_moc_file(FitsMocKind::TimeRange, 35, 0, &words).unwrap();
    assert_eq!(bytes.len() % 2880, 0);
    assert_eq!(bytes.len(), 3 * 2880);
    let (h, w) = read_fits_moc_file(&bytes, false).unwrap();
    assert_eq!(
        h,
        FitsMocHeader { kind: FitsMocKind::TimeRange, depth_1: 35, depth_2: 0, naxis1: 8, naxis2: 4, tform: Some(TForm1::OneK) }
    );
    assert_eq!(w, words);
    let m = decode_range_moc::<Time<u64>>(&w, h.depth_1).unwrap();
    assert_eq!(m.moc_ranges().0, vec![1073741824..2684354560, (3u64 << 40)..(5u64 << 40)]);
    // Truncated data, truncated header.
    assert_eq!(read_fits_moc_file(&bytes[..2 * 2880 + 8].to_vec(), false), Err(FitsFileError::MissingData));
    assert_eq!(read_fits_moc_file(&bytes[..2880].to_vec(), false), Err(FitsFileError::MissingEnd));
    assert!(write_fits_moc_file(FitsMocKind::TimeSpaceRange29, 1, 1, &words).is_none());
}

#[test]
fn store_split_parts_match_count() {
    let mut store = U64MocStore::new();
    let shift = 2 * 29 - 2 * 2;
    let m: RangeMOC<u64, Hpx<u64>> =
        RangeMOC::new(2, Ranges::new_from(vec![0..(2u64 << shift), (40u64 << shift)..(41u64 << shift)]));
    let s = store.add(moc::store::InternalMoc::Space(m));
    let n = store.split_count(s).unwrap();
    let parts = store.split(s).unwrap();
    assert_eq!(parts.len() as u32, n);
    assert!(store.split_indirect_count(s).unwrap() <= n);
}

#[test]
fn fits_st_file_write_read_back() {
    use_st_file();
}

fn use_st_file() {
    let elem = |t: Vec<std::ops::Range<u64>>, s: Vec<std::ops::Range<u64>>| {
        moc::moc2d::RangeMOC2Elem::new(
            RangeMOC::<u64, Time<u64>>::new(61, Ranges::new_unchecked(t)),
            RangeMOC::<u64, Hpx<u64>>::new(29, Ranges::new_unchecked(s)),
        )
    };
    let m = moc::moc2d::RangeMOC2::<u64, Time<u64>, u64, Hpx<u64>>::new(
        61,
        29,
        vec![elem(vec![0..2, 3..5], vec![2..3]), elem(vec![8..9], vec![5..6, 10..13])],
    );
    let bytes = moc::fits::write_st_moc_file(&m);
    assert_eq!(bytes.len() % 2880, 0);
    let (dt, ds, groups) = moc::fits::read_st_moc_file(&bytes).unwrap();
    assert_eq!((dt, ds), (61, 29));
    assert_eq!(
        groups,
        vec![(vec![0..2, 3..5], vec![2..3]), (vec![8..9], vec![5..6, 10..13])]
    );
    // A T-MOC file is not an ST-MOC file.
    let t = write_fits_moc_file(FitsMocKind::TimeRange, 35, 0, &vec![0, 1 << 26]).unwrap();
    assert_eq!(moc::fits::read_st_moc_file(&t), Err(FitsFileError::NotStMoc));
}

#[test]
fn fits_nuniq_words_by_depth() {
    use_nuniq();
}

fn use_nuniq() {
    let cells = vec![
        moc::cells::Cell::new(3, 10),
        moc::cells::Cell::new(1, 2),
        moc::cells::Cell::new(3, 4),
        moc::cells::Cell::new(0, 5),
    ];
    let w = moc::fits::nuniq_words(&cells, 3).unwrap();
    assert_eq!(w, vec![4 + 5, 16 + 2, 256 + 10, 256 + 4]);
    assert_eq!(moc::fits::nuniq_words(&cells, 2), Err((3, 2)));
    let bytes = write_fits_moc_file(FitsMocKind::SpaceNuniq, 3, 0, &w).unwrap();
    let (h, back) = read_fits_moc_file(&bytes, false).unwrap();
    assert_eq!(h.kind, FitsMocKind::SpaceNuniq);
    assert_eq!(back, w);
    let m = decode_s_moc_nuniq(&back, h.depth_1).unwrap();
    assert_eq!(m.depth_max(), 3);
}
