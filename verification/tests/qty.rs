use moc::qty::{Frequency, Hpx, MocQty, MocableQty, Time, FREQ_MAX_BITS, FREQ_MIN_BITS};

#[test]
fn test_hpx_uniq_ext() {
    println!("{:?}", Hpx::<u32>::from_uniq_hpx(96));
}

#[test]
fn test_hpx_uniq() {
    for depth in 0..8 {
        for idx in 0..Hpx::<u32>::n_cells(depth) {
            assert_eq!((depth, idx), Hpx::<u32>::from_uniq_hpx(Hpx::<u32>::uniq_hpx(depth, idx)));
        }
    }

    for depth in 0..8 {
        for idx in 0..Hpx::<u64>::n_cells(depth) {
            assert_eq!((depth, idx), Hpx::<u64>::from_uniq_hpx(Hpx::<u64>::uniq_hpx(depth, idx)));
        }
    }

    // Independent of T
    assert_eq!(Hpx::<u64>::DIM, 2);
    assert_eq!(Hpx::<u64>::N_D0_CELLS, 12);
    assert_eq!(Hpx::<u64>::N_D0_BITS, 4);
    assert_eq!(Hpx::<u64>::LEVEL_MASK, 3);
    assert_eq!(Hpx::<u64>::shift(1), 2);
    assert_eq!(Hpx::<u64>::shift(10), 20);
    // Depends on T
    assert_eq!(Hpx::<u64>::MAX_DEPTH, 29);
    assert_eq!(Hpx::<u64>::MAX_SHIFT, 58);
    assert_eq!(Hpx::<u64>::n_cells_max(), 12 * 4_u64.pow(29));
}

#[test]
fn test_hpx() {
    // Independent of T
    assert_eq!(Hpx::<u64>::DIM, 2);
    assert_eq!(Hpx::<u64>::N_D0_CELLS, 12);
    assert_eq!(Hpx::<u64>::N_D0_BITS, 4);
    assert_eq!(Hpx::<u64>::LEVEL_MASK, 3);
    assert_eq!(Hpx::<u64>::shift(1), 2);
    assert_eq!(Hpx::<u64>::shift(10), 20);
    // Depends on T
    assert_eq!(Hpx::<u64>::MAX_DEPTH, 29);
    assert_eq!(Hpx::<u64>::MAX_SHIFT, 58);
    assert_eq!(Hpx::<u64>::n_cells_max(), 12 * 4_u64.pow(29));
}

#[test]
fn test_time() {
    // Independent of T
    assert_eq!(Time::<u64>::DIM, 1);
    assert_eq!(Time::<u64>::N_D0_CELLS, 2);
    assert_eq!(Time::<u64>::N_D0_BITS, 1);
    assert_eq!(Time::<u64>::LEVEL_MASK, 1);
    assert_eq!(Time::<u64>::shift(1), 1);
    assert_eq!(Time::<u64>::shift(10), 10);
    // Depends on T
    assert_eq!(Time::<u64>::MAX_DEPTH, 61);
    assert_eq!(Time::<u64>::MAX_SHIFT, 61);
    assert_eq!(Time::<u64>::n_cells_max(), 2_u64.pow(62));
}

#[test]
fn test_freq() {
    // Independent of T
    assert_eq!(Frequency::<u64>::DIM, 1);
    assert_eq!(Frequency::<u64>::N_D0_CELLS, 2);
    assert_eq!(Frequency::<u64>::N_D0_BITS, 1);
    assert_eq!(Frequency::<u64>::LEVEL_MASK, 1);
    assert_eq!(Frequency::<u64>::shift(1), 1);
    assert_eq!(Frequency::<u64>::shift(10), 10);
    // Depends on T
    assert_eq!(Frequency::<u64>::MAX_DEPTH, 59);
    assert_eq!(Frequency::<u64>::MAX_SHIFT, 59);
    assert_eq!(Frequency::<u64>::n_cells_max(), 2_u64.pow(60));
    // Test trasnformations (through the bits of the f64 values)
    let round_trip = |f: f64| f64::from_bits(Frequency::<u64>::hash2freq_bits(Frequency::<u64>::freq_bits2hash(f.to_bits())));
    let freq_hz = 0.1;
    assert_eq!(round_trip(freq_hz), freq_hz);
    let freq_hz = 1.125697115656943e-18;
    assert_eq!(round_trip(freq_hz), freq_hz);
    let freq_hz = 1.12569711565245e+44;
    assert_eq!(round_trip(freq_hz), freq_hz);
    let freq_hz = 5.048709793414476e-29;
    assert_eq!(round_trip(freq_hz), freq_hz);
    let freq_hz = 5.846006549323610e+48;
    assert_eq!(round_trip(freq_hz), freq_hz);
}

#[test]
fn uniq_hpx_formula() {
    // uniq = 4 * 4^depth + idx
    assert_eq!(Hpx::<u64>::uniq_hpx(0, 0), 4);
    assert_eq!(Hpx::<u64>::uniq_hpx(0, 11), 15);
    assert_eq!(Hpx::<u64>::uniq_hpx(1, 0), 16);
    assert_eq!(Hpx::<u64>::uniq_hpx(29, 5), 4 * 4_u64.pow(29) + 5);
    assert_eq!(Hpx::<u64>::from_uniq_hpx(96), (2, 32));
    assert_eq!(Hpx::<u32>::from_uniq_hpx(96), (2, 32));
    assert_eq!(Hpx::<u64>::four_shl_twice_depth(3), 256);
    assert_eq!(Hpx::<u32>::four_shl_twice_depth(3), 256);
    assert_eq!(Hpx::<u32>::n_cells(2), 192);
}

#[test]
fn qty_depth_helpers() {
    assert_eq!(Hpx::<u64>::delta_with_depth_max(10), 19);
    assert_eq!(Hpx::<u64>::shift_from_depth_max(10), 38);
    assert_eq!(Time::<u64>::shift_from_depth_max(10), 51);
    assert_eq!(Hpx::<u64>::n_cells(2), 192);
    assert_eq!(Time::<u64>::n_cells(3), 16);
    assert_eq!(Hpx::<u64>::mult_by_dim(3), 6);
    assert_eq!(Hpx::<u64>::div_by_dim(6), 3);
    assert_eq!(Time::<u64>::div_by_dim(6), 6);
}

#[test]
fn test_hpx_zuniq() {
    for depth in 0..8 {
        for idx in 0..Hpx::<u64>::n_cells(depth) {
            assert_eq!((depth, idx), Hpx::<u64>::from_zuniq(Hpx::<u64>::to_zuniq(depth, idx)));
        }
    }
}

#[test]
fn zuniq_orders_cells_along_the_curve() {
    // Cell 0 of depth 0 holds cells 0..4 of depth 1: its zuniq lies between theirs.
    let z0 = Hpx::<u64>::to_zuniq(0, 0);
    assert!(Hpx::<u64>::to_zuniq(1, 1) < z0 && z0 < Hpx::<u64>::to_zuniq(1, 2));
    assert_eq!(z0, 1u64 << 58);
    assert_eq!(Time::<u64>::to_zuniq(61, 5), 11);
    assert_eq!(Time::<u64>::from_zuniq(11), (61, 5));
    assert_eq!(Frequency::<u64>::from_zuniq(Frequency::<u64>::to_zuniq(3, 7)), (3, 7));
}

#[test]
fn freq_hash_shifts_the_exponent_and_keeps_the_mantissa() {
    let one_hz = 1.0_f64.to_bits();
    assert_eq!(one_hz, 0x3FF0_0000_0000_0000);
    let h = Frequency::<u64>::freq_bits2hash(one_hz);
    assert_eq!(h, 0x05E0_0000_0000_0000);
    assert_eq!(Frequency::<u64>::hash2freq_bits(h), one_hz);
    assert_eq!(f64::from_bits(Frequency::<u64>::hash2freq_bits(h)), 1.0);
    assert_eq!(Frequency::<u64>::freq_bits2hash(FREQ_MIN_BITS), 0);
    assert_eq!(f64::from_bits(FREQ_MIN_BITS), 5.048709793414476e-29);
    assert_eq!(f64::from_bits(FREQ_MAX_BITS), 5.846006549323611e+48);
    let just_below_max = FREQ_MAX_BITS - 1;
    let h = Frequency::<u64>::freq_bits2hash(just_below_max);
    assert_eq!(Frequency::<u64>::hash2freq_bits(h), just_below_max);
    // Higher frequencies give higher hash values.
    assert!(Frequency::<u64>::freq_bits2hash(2.0_f64.to_bits()) > Frequency::<u64>::freq_bits2hash(1.5_f64.to_bits()));
}

#[test]
fn uniq_hpx_to_range_of_a_cell() {
    // uniq 96 is the cell 32 of depth 2: 4^27 values each at depth 29.
    assert_eq!(Hpx::<u64>::uniq_hpx_to_range(96), (32u64 << 54)..(33u64 << 54));
    assert_eq!(Hpx::<u64>::uniq_hpx_to_range(4), 0..(1u64 << 58));
    let last_uniq_29 = 16 * 4_u64.pow(29) - 1;
    assert_eq!(Hpx::<u64>::uniq_hpx_to_range(last_uniq_29), (12 * 4_u64.pow(29) - 1)..(12 * 4_u64.pow(29)));
}
