//! Quantities that can be put in a MOC: HEALPix cells (space), time and frequency.

use std::marker::PhantomData;
use std::ops::Range;
use vstd::arithmetic::power2::*;
use vstd::bits::*;
use vstd::prelude::*;
use vstd::std_specs::bits::*;

verus! {

/// `x` has exactly `k` trailing zeros: `x` is `2^k` times an odd number.
pub open spec fn has_trailing_zeros(x: int, k: nat) -> bool {
    x % (pow2(k) as int) == 0 && (x / (pow2(k) as int)) % 2 == 1
}

/// `r` is the (depth, index) read from `zuniq`: with `k` its number of trailing zeros, the
/// depth is `MAX_DEPTH - k / DIM` and the index `zuniq / 2^(k + 1)`.
pub open spec fn zuniq_decoded<Q: MocQty<u64>>(zuniq: u64, r: (u8, u64)) -> bool {
    exists|k: nat|
        #[trigger] has_trailing_zeros(zuniq as int, k) && r.0 == Q::MAX_DEPTH - k / (Q::DIM as nat) && r.1 == zuniq as int
            / (pow2(k + 1) as int)
}

/// The number of trailing zeros of a positive value.
pub fn count_trailing_zeros(x: u64) -> (r: u32)
    requires
        x > 0,
    ensures
        r < 64,
        has_trailing_zeros(x as int, r as nat),
{
    let mut y = x;
    let mut r: u32 = 0;
    proof {
        lemma2_to64();
        lemma2_to64_rest();
    }
    while y % 2 == 0
        invariant
            y > 0,
            r < 64,
            x == y * pow2(r as nat),
            pow2(64) == 0x1_0000_0000_0000_0000,
        decreases y,
    {
        proof {
            lemma_pow2_adds(r as nat, 1);
            lemma2_to64();
            assert(y == (y / 2) * 2);
            vstd::arithmetic::mul::lemma_mul_is_associative(y as int / 2, 2, pow2(r as nat) as int);
            vstd::arithmetic::mul::lemma_mul_is_commutative(2, pow2(r as nat) as int);
            assert(x == (y / 2) * pow2((r + 1) as nat));
            assert(x >= pow2((r + 1) as nat)) by {
                vstd::arithmetic::mul::lemma_mul_inequality(1, y as int / 2, pow2((r + 1) as nat) as int);
            }
            if r + 1 >= 64 {
                if r + 1 > 64 {
                    lemma_pow2_strictly_increases(64, (r + 1) as nat);
                }
            }
        }
        y = y / 2;
        r = r + 1;
    }
    proof {
        lemma_pow2_pos(r as nat);
        vstd::arithmetic::div_mod::lemma_mod_multiples_basic(y as int, pow2(r as nat) as int);
        vstd::arithmetic::div_mod::lemma_div_multiples_vanish(y as int, pow2(r as nat) as int);
        vstd::arithmetic::mul::lemma_mul_is_commutative(y as int, pow2(r as nat) as int);
    }
    r
}

/// A value has a single number of trailing zeros.
pub proof fn lemma_trailing_zeros_unique(x: int, k1: nat, k2: nat)
    requires
        has_trailing_zeros(x, k1),
        has_trailing_zeros(x, k2),
    ensures
        k1 == k2,
{
    if k1 < k2 {
        lemma_trailing_zeros_lt(x, k1, k2);
    } else if k2 < k1 {
        lemma_trailing_zeros_lt(x, k2, k1);
    }
}

/// A multiple of `2^b` divided by `2^a`, for `a < b`, is even.
proof fn lemma_trailing_zeros_lt(x: int, a: nat, b: nat)
    requires
        a < b,
        x % (pow2(b) as int) == 0,
    ensures
        (x / (pow2(a) as int)) % 2 == 0,
{
    let pa = pow2(a) as int;
    let pb = pow2(b) as int;
    let pd = pow2((b - a) as nat) as int;
    let pe = pow2((b - a - 1) as nat) as int;
    lemma_pow2_pos(a);
    lemma_pow2_pos(b);
    lemma_pow2_adds((b - a) as nat, a);
    lemma_pow2_adds(1, (b - a - 1) as nat);
    lemma2_to64();
    assert(pb == pd * pa);
    assert(pd == 2 * pe);
    let q = x / pb;
    vstd::arithmetic::div_mod::lemma_fundamental_div_mod(x, pb);
    assert(x == pb * q);
    let m = q * pd;
    assert(x == pa * m) by {
        vstd::arithmetic::mul::lemma_mul_is_commutative(pd, pa);
        vstd::arithmetic::mul::lemma_mul_is_associative(pa, pd, q);
        vstd::arithmetic::mul::lemma_mul_is_commutative(pd, q);
    }
    vstd::arithmetic::div_mod::lemma_div_multiples_vanish(m, pa);
    assert(m == (q * pe) * 2) by {
        vstd::arithmetic::mul::lemma_mul_is_associative(q, 2, pe);
        vstd::arithmetic::mul::lemma_mul_is_commutative(2, pe);
        vstd::arithmetic::mul::lemma_mul_is_associative(q, pe, 2);
    }
    vstd::arithmetic::div_mod::lemma_mod_multiples_basic(q * pe, 2);
}

/// `(2 idx + 1) * 2^e2` fits in a `u64` for `idx < n0 * 2^e1` and `n0 * 2^(e1 + e2) < 2^63`.
proof fn lemma_zuniq_fits(n0: int, idx: int, e1: nat, e2: nat)
    requires
        0 <= idx < n0 * pow2(e1),
        n0 * pow2(e1 + e2) < pow2(63),
    ensures
        (2 * idx + 1) * pow2(e2) <= u64::MAX,
{
    let m = n0 * pow2(e1);
    lemma_pow2_adds(e1, e2);
    lemma_pow2_pos(e2);
    vstd::arithmetic::mul::lemma_mul_inequality(2 * idx + 1, 2 * m, pow2(e2) as int);
    vstd::arithmetic::mul::lemma_mul_is_associative(n0, pow2(e1) as int, pow2(e2) as int);
    vstd::arithmetic::mul::lemma_mul_is_distributive_add(pow2(e2) as int, m, m);
    vstd::arithmetic::mul::lemma_mul_is_commutative(pow2(e2) as int, m);
    vstd::arithmetic::mul::lemma_mul_is_commutative(pow2(e2) as int, 2 * m);
    lemma2_to64();
    lemma2_to64_rest();
}

/// The `zuniq` notation of the cell `idx` of depth `depth`: like the `uniq` notation it
/// codes both the depth and the index, but the natural order of the `zuniq` values is the
/// order of the cells along the space filling curve, whatever their depths:
/// `zuniq = (2 idx + 1) << shift`, with `shift` the number of bits from the depth to the
/// maximum depth.
pub fn zuniq_encode<Q: MocQty<u64>>(depth: u8, idx: u64) -> (r: u64)
    requires
        depth <= Q::MAX_DEPTH,
        idx < Q::N_D0_CELLS * pow2((depth * Q::DIM) as nat),
    ensures
        r == (2 * idx + 1) * pow2(((Q::MAX_DEPTH - depth) * Q::DIM) as nat),
{
    let shift = Q::shift_from_depth_max(depth);
    proof {
        Q::lemma_qty();
        assert((depth * Q::DIM) + ((Q::MAX_DEPTH - depth) * Q::DIM) == Q::MAX_SHIFT) by (nonlinear_arith)
            requires
                Q::MAX_SHIFT == Q::DIM * Q::MAX_DEPTH,
                depth <= Q::MAX_DEPTH,
        ;
        lemma_zuniq_fits(
            Q::N_D0_CELLS as int,
            idx as int,
            (depth * Q::DIM) as nat,
            ((Q::MAX_DEPTH - depth) * Q::DIM) as nat,
        );
        lemma_pow2_pos(((Q::MAX_DEPTH - depth) * Q::DIM) as nat);
        vstd::arithmetic::mul::lemma_mul_inequality(1, pow2(((Q::MAX_DEPTH - depth) * Q::DIM) as nat) as int, 2 * idx + 1);
        vstd::arithmetic::mul::lemma_mul_is_commutative(pow2(((Q::MAX_DEPTH - depth) * Q::DIM) as nat) as int, 2 * idx + 1);
    }
    let z = 2 * idx + 1;
    proof {
        lemma_u64_shl_is_mul(z, shift as u64);
    }
    z << (shift as u64)
}

/// The (depth, index) of a `zuniq` value: the depth follows from the number `tz` of
/// trailing zeros (`MAX_DEPTH - tz / DIM`) and the index is `zuniq >> (tz + 1)`.
pub fn zuniq_decode<Q: MocQty<u64>>(zuniq: u64) -> (r: (u8, u64))
    requires
        zuniq > 0,
        forall|k: nat| #[trigger] has_trailing_zeros(zuniq as int, k) ==> k / (Q::DIM as nat) <= Q::MAX_DEPTH,
    ensures
        zuniq_decoded::<Q>(zuniq, r),
{
    let tz = count_trailing_zeros(zuniq);
    proof {
        Q::lemma_qty();
        assert(tz as nat / (Q::DIM as nat) <= Q::MAX_DEPTH);
    }
    let dd = Q::div_by_dim(tz as u8);
    let depth = Q::MAX_DEPTH - dd;
    proof {
        assert(tz + 1 < 64) by {
            if tz >= 62 {
                assert(tz as nat / (Q::DIM as nat) >= 31);
            }
        }
        lemma_u64_shr_is_div(zuniq, (tz + 1) as u64);
    }
    let idx = zuniq >> ((tz + 1) as u64);
    (depth, idx)
}

/// Bit length of `i` (index of the most significant bit, plus one), from `leading_zeros`.
pub proof fn lemma_leading_zeros_bounds(i: u64)
    requires
        i > 0,
    ensures
        0 <= u64_leading_zeros(i) <= 63,
        pow2((63 - u64_leading_zeros(i)) as nat) <= i,
        i < pow2((64 - u64_leading_zeros(i)) as nat),
    decreases i,
{
    reveal(u64_leading_zeros);
    if i == 1 {
        assert(u64_leading_zeros(0) == 64);
        assert(u64_leading_zeros(1) == 63);
        lemma2_to64();
    } else {
        lemma_leading_zeros_bounds(i / 2);
        assert(u64_leading_zeros(i) == u64_leading_zeros(i / 2) - 1);
        let e = (63 - u64_leading_zeros(i / 2)) as nat;
        lemma_pow2_unfold(e + 1);
        lemma_pow2_unfold(e + 2);
    }
}

/// Decomposition of a HEALPix `uniq` value into a depth and a cell index is unique.
pub proof fn lemma_uniq_decomposition_unique(d1: nat, i1: nat, d2: nat, i2: nat)
    requires
        i1 < 3 * pow2(2 * d1 + 2),
        i2 < 3 * pow2(2 * d2 + 2),
        i1 + pow2(2 * d1 + 2) == i2 + pow2(2 * d2 + 2),
    ensures
        d1 == d2,
        i1 == i2,
{
    lemma2_to64();
    if d1 < d2 {
        lemma_pow2_adds(2 * d1 + 2, 2);
        if 2 * d1 + 4 < 2 * d2 + 2 {
            lemma_pow2_strictly_increases(2 * d1 + 4, 2 * d2 + 2);
        }
    } else if d2 < d1 {
        lemma_pow2_adds(2 * d2 + 2, 2);
        if 2 * d2 + 4 < 2 * d1 + 2 {
            lemma_pow2_strictly_increases(2 * d2 + 4, 2 * d1 + 2);
        }
    }
}

/// `2^(2 * depth + 2)` (that is `4 * 4^depth`), computed by shifts.
fn four_shl_twice_depth_u64(depth: u32) -> (r: u64)
    requires
        depth <= 30,
    ensures
        r == pow2(2 * depth as nat + 2),
{
    let s = depth << 1;
    proof {
        assert(s == 2 * depth) by (bit_vector)
            requires
                s == depth << 1,
                depth <= 30,
        ;
        lemma2_to64();
        lemma_u64_shl_is_mul(1, 2);
        lemma_pow2_adds(2, s as nat);
        lemma_u64_pow2_no_overflow(2 + s as nat);
        lemma_u64_shl_is_mul(4, s as u64);
    }
    let one: u64 = 1;
    (one << 2u32) << s
}

/// Generic constants defining a quantity that can be put in a MOC, independently of the
/// precise integer type used to represent it.
pub trait MocableQty {
    /// Number of bits reserved to code the quantity type
    const N_RESERVED_BITS: u8;
    /// A simple str to identify the quantity (e.g. in ASCII serialisation)
    const NAME: &'static str;
    /// A simple char prefix to identify the quantity (e.g. in ASCII serialisation)
    const PREFIX: char;
    /// Dimension of the qty, i.e. number of bits needed to code a sub-cell relative index
    const DIM: u8;
    /// Number of base cells, i.e. number of cell at depth 0
    const N_D0_CELLS: u8;
    /// Number of bits needed to code the base cell index
    const N_D0_BITS: u8;
    /// Mask to select the bit(s) of a level > 0
    const LEVEL_MASK: u8;
    /// For FITS serialization
    const HAS_COOSYS: bool;
    /// For FITS serialization
    const HAS_TIMESYS: bool;
    /// For FITS serialization
    const HAS_FREQSYS: bool;

    /// `v * Self::DIM`
    fn mult_by_dim(v: u8) -> (r: u8)
        requires
            v * Self::DIM <= u8::MAX,
        ensures
            r == v * Self::DIM,
    ;

    /// `v / Self::DIM`
    fn div_by_dim(v: u8) -> (r: u8)
        ensures
            r == v / Self::DIM,
    ;

    /// Number of index bits covered by `delta_depth` levels.
    fn shift(delta_depth: u8) -> (r: u8)
        requires
            delta_depth * Self::DIM <= u8::MAX,
        ensures
            r == delta_depth * Self::DIM,
    ;
}

/// A quantity with its exact integer representation.
pub trait MocQty<T>: MocableQty {
    const MAX_DEPTH: u8;
    const MAX_SHIFT: u32;

    /// Exclusive upper bound of the values of the quantity, as an integer.
    spec fn spec_n_cells_max() -> int;

    /// The constants of the quantity are consistent.
    proof fn lemma_qty()
        ensures
            1 <= Self::DIM <= 2,
            Self::MAX_SHIFT == Self::DIM * Self::MAX_DEPTH,
            Self::MAX_SHIFT < 62,
            Self::N_D0_CELLS == 2 || Self::N_D0_CELLS == 12,
            Self::spec_n_cells_max() == Self::N_D0_CELLS * pow2(Self::MAX_SHIFT as nat),
            0 < Self::spec_n_cells_max() < pow2(63),
    ;

    /// The largest possible value (exclusive).
    fn n_cells_max() -> (r: u64)
        ensures
            r == Self::spec_n_cells_max(),
    ;

    /// Number of cells at the given depth.
    fn n_cells(depth: u8) -> (r: u64)
        requires
            depth <= Self::MAX_DEPTH,
        ensures
            r == Self::N_D0_CELLS * pow2((depth * Self::DIM) as nat),
    ;

    /// `MAX_DEPTH - depth`
    fn delta_with_depth_max(depth: u8) -> (r: u8)
        requires
            depth <= Self::MAX_DEPTH,
        ensures
            r == Self::MAX_DEPTH - depth,
    ;

    /// Number of bits a value at `depth` must be shifted by to reach `MAX_DEPTH`.
    fn shift_from_depth_max(depth: u8) -> (r: u8)
        requires
            depth <= Self::MAX_DEPTH,
        ensures
            r == (Self::MAX_DEPTH - depth) * Self::DIM,
    ;
}

/// The largest possible value (exclusive) for a value of the quantity.
pub trait Bounded<T> {
    /// Exclusive upper bound of the values, as an integer.
    spec fn spec_upper_bound_exclusive() -> int;

    fn upper_bound_exclusive() -> (r: u64)
        ensures
            r == Self::spec_upper_bound_exclusive(),
    ;
}

/// HEALPix index (either Ring or Nested)
#[derive(Debug, PartialEq, Eq)]
pub struct Hpx<T>(pub PhantomData<T>);

/// Time index (microsec since JD=0)
#[derive(Debug, PartialEq, Eq)]
pub struct Time<T>(pub PhantomData<T>);

/// Frequency index (from 5.048709793414476e-29 to 5.846006549323611e+48 Hz)
#[derive(Debug, PartialEq, Eq)]
pub struct Frequency<T>(pub PhantomData<T>);

/// `n_d0 << shift`
fn n_d0_shl(n_d0: u8, shift: u32) -> (r: u64)
    requires
        (n_d0 == 2 && shift <= 61) || (n_d0 == 12 && shift <= 58),
    ensures
        r == n_d0 * pow2(shift as nat),
{
    proof {
        if n_d0 == 2 && shift < 61 {
            lemma_pow2_strictly_increases(shift as nat, 61);
        }
        if n_d0 == 12 && shift < 58 {
            lemma_pow2_strictly_increases(shift as nat, 58);
        }
        lemma2_to64();
        lemma2_to64_rest();
        lemma_u64_shl_is_mul(n_d0 as u64, shift as u64);
    }
    (n_d0 as u64) << shift
}

impl MocableQty for Hpx<u64> {
    const N_RESERVED_BITS: u8 = 2;
    const NAME: &'static str = "HPX";
    const PREFIX: char = 's';
    const DIM: u8 = 2;
    const N_D0_CELLS: u8 = 12;
    const N_D0_BITS: u8 = 4;
    const LEVEL_MASK: u8 = 3;
    const HAS_COOSYS: bool = true;
    const HAS_TIMESYS: bool = false;
    const HAS_FREQSYS: bool = false;

    fn mult_by_dim(v: u8) -> (r: u8) {
        v * 2
    }

    fn div_by_dim(v: u8) -> (r: u8) {
        v / 2
    }

    fn shift(delta_depth: u8) -> (r: u8) {
        Self::mult_by_dim(delta_depth)
    }
}

impl MocQty<u64> for Hpx<u64> {
    const MAX_DEPTH: u8 = 29;
    const MAX_SHIFT: u32 = 58;

    open spec fn spec_n_cells_max() -> int {
        (12 * pow2(58)) as int
    }

    proof fn lemma_qty() {
        lemma2_to64();
        lemma2_to64_rest();
    }

    fn n_cells_max() -> (r: u64) {
        n_d0_shl(12, 58)
    }

    fn n_cells(depth: u8) -> (r: u64) {
        n_d0_shl(12, Self::shift(depth) as u32)
    }

    fn delta_with_depth_max(depth: u8) -> (r: u8) {
        29 - depth
    }

    fn shift_from_depth_max(depth: u8) -> (r: u8) {
        Self::shift(Self::delta_with_depth_max(depth))
    }
}

impl Bounded<u64> for Hpx<u64> {
    open spec fn spec_upper_bound_exclusive() -> int {
        <Hpx<u64> as MocQty<u64>>::spec_n_cells_max()
    }

    fn upper_bound_exclusive() -> (r: u64) {
        Self::n_cells_max()
    }
}

impl MocableQty for Time<u64> {
    const N_RESERVED_BITS: u8 = 2;
    const NAME: &'static str = "TIME";
    const PREFIX: char = 't';
    const DIM: u8 = 1;
    const N_D0_CELLS: u8 = 2;
    const N_D0_BITS: u8 = 1;
    const LEVEL_MASK: u8 = 1;
    const HAS_COOSYS: bool = false;
    const HAS_TIMESYS: bool = true;
    const HAS_FREQSYS: bool = false;

    fn mult_by_dim(v: u8) -> (r: u8) {
        v
    }

    fn div_by_dim(v: u8) -> (r: u8) {
        v
    }

    fn shift(delta_depth: u8) -> (r: u8) {
        Self::mult_by_dim(delta_depth)
    }
}

impl MocQty<u64> for Time<u64> {
    const MAX_DEPTH: u8 = 61;
    const MAX_SHIFT: u32 = 61;

    open spec fn spec_n_cells_max() -> int {
        (2 * pow2(61)) as int
    }

    proof fn lemma_qty() {
        lemma2_to64();
        lemma2_to64_rest();
    }

    fn n_cells_max() -> (r: u64) {
        n_d0_shl(2, 61)
    }

    fn n_cells(depth: u8) -> (r: u64) {
        n_d0_shl(2, Self::shift(depth) as u32)
    }

    fn delta_with_depth_max(depth: u8) -> (r: u8) {
        61 - depth
    }

    fn shift_from_depth_max(depth: u8) -> (r: u8) {
        Self::shift(Self::delta_with_depth_max(depth))
    }
}

impl Bounded<u64> for Time<u64> {
    open spec fn spec_upper_bound_exclusive() -> int {
        <Time<u64> as MocQty<u64>>::spec_n_cells_max()
    }

    fn upper_bound_exclusive() -> (r: u64) {
        Self::n_cells_max()
    }
}

impl MocableQty for Frequency<u64> {
    const N_RESERVED_BITS: u8 = 4;
    const NAME: &'static str = "FREQUENCY";
    const PREFIX: char = 'f';
    const DIM: u8 = 1;
    const N_D0_CELLS: u8 = 2;
    const N_D0_BITS: u8 = 1;
    const LEVEL_MASK: u8 = 1;
    const HAS_COOSYS: bool = false;
    const HAS_TIMESYS: bool = false;
    const HAS_FREQSYS: bool = true;

    fn mult_by_dim(v: u8) -> (r: u8) {
        v
    }

    fn div_by_dim(v: u8) -> (r: u8) {
        v
    }

    fn shift(delta_depth: u8) -> (r: u8) {
        Self::mult_by_dim(delta_depth)
    }
}

impl MocQty<u64> for Frequency<u64> {
    const MAX_DEPTH: u8 = 59;
    const MAX_SHIFT: u32 = 59;

    open spec fn spec_n_cells_max() -> int {
        (2 * pow2(59)) as int
    }

    proof fn lemma_qty() {
        lemma2_to64();
        lemma2_to64_rest();
    }

    fn n_cells_max() -> (r: u64) {
        n_d0_shl(2, 59)
    }

    fn n_cells(depth: u8) -> (r: u64) {
        n_d0_shl(2, Self::shift(depth) as u32)
    }

    fn delta_with_depth_max(depth: u8) -> (r: u8) {
        59 - depth
    }

    fn shift_from_depth_max(depth: u8) -> (r: u8) {
        Self::shift(Self::delta_with_depth_max(depth))
    }
}

impl Bounded<u64> for Frequency<u64> {
    open spec fn spec_upper_bound_exclusive() -> int {
        <Frequency<u64> as MocQty<u64>>::spec_n_cells_max()
    }

    fn upper_bound_exclusive() -> (r: u64) {
        Self::n_cells_max()
    }
}

/// The constants of the HEALPix quantity.
pub proof fn lemma_hpx_consts()
    ensures
        <Hpx<u64> as MocQty<u64>>::MAX_DEPTH == 29,
        <Hpx<u64> as MocableQty>::DIM == 2,
        <Hpx<u64> as MocableQty>::N_D0_CELLS == 12,
{
}

/// The constants of the time quantity.
pub proof fn lemma_time_consts()
    ensures
        <Time<u64> as MocQty<u64>>::MAX_DEPTH == 61,
        <Time<u64> as MocQty<u64>>::MAX_SHIFT == 61,
        <Time<u64> as MocableQty>::DIM == 1,
        <Time<u64> as MocQty<u64>>::spec_n_cells_max() == 2 * pow2(61),
{
}

/// The constants of the frequency quantity.
pub proof fn lemma_freq_consts()
    ensures
        <Frequency<u64> as MocQty<u64>>::MAX_DEPTH == 59,
        <Frequency<u64> as MocQty<u64>>::MAX_SHIFT == 59,
        <Frequency<u64> as MocableQty>::DIM == 1,
        <Frequency<u64> as MocQty<u64>>::spec_n_cells_max() == 2 * pow2(59),
{
}

impl Hpx<u64> {
    /// See [`zuniq_encode`].
    pub fn to_zuniq(depth: u8, idx: u64) -> (r: u64)
        requires
            depth <= <Self as MocQty<u64>>::MAX_DEPTH,
            idx < <Self as MocableQty>::N_D0_CELLS * pow2((depth * <Self as MocableQty>::DIM) as nat),
        ensures
            r == (2 * idx + 1) * pow2(((<Self as MocQty<u64>>::MAX_DEPTH - depth) * <Self as MocableQty>::DIM) as nat),
    {
        zuniq_encode::<Self>(depth, idx)
    }

    /// See [`zuniq_decode`].
    pub fn from_zuniq(zuniq: u64) -> (r: (u8, u64))
        requires
            zuniq > 0,
            forall|k: nat|
                #[trigger] has_trailing_zeros(zuniq as int, k) ==> k / (<Self as MocableQty>::DIM as nat)
                    <= <Self as MocQty<u64>>::MAX_DEPTH,
        ensures
            zuniq_decoded::<Self>(zuniq, r),
    {
        zuniq_decode::<Self>(zuniq)
    }

    /// From HEALPix specific uniq notation: `uniq = 4 * 4^depth + idx`.
    pub fn from_uniq_hpx(uniq: u64) -> (r: (u8, u64))
        requires
            uniq >= 4,
        ensures
            r.0 <= 30,
            r.1 + pow2(2 * r.0 as nat + 2) == uniq,
            r.1 < 3 * pow2(2 * r.0 as nat + 2),
    {
        let lz = uniq.leading_zeros();
        proof {
            lemma_leading_zeros_bounds(uniq);
        }
        let msb: u32 = 63 - lz;
        proof {
            if msb < 2 {
                lemma2_to64();
                lemma_pow2_strictly_increases((msb + 1) as nat, 2);
            }
        }
        let m2: u32 = msb - 2;
        let depth = m2 >> 1;
        proof {
            assert(depth == m2 / 2) by (bit_vector)
                requires
                    depth == m2 >> 1,
            ;
            // 2 * depth + 2 <= msb <= 2 * depth + 3
            if msb > 2 * depth + 2 {
                lemma_pow2_strictly_increases((2 * depth + 2) as nat, msb as nat);
            }
            lemma_pow2_adds((2 * depth + 2) as nat, 2);
            lemma2_to64();
            if (msb + 1) < 2 * depth + 4 {
                lemma_pow2_strictly_increases((msb + 1) as nat, (2 * depth + 4) as nat);
            }
        }
        let f = four_shl_twice_depth_u64(depth);
        let idx = uniq - f;
        (depth as u8, idx)
    }

    /// To HEALPix specific uniq notation.
    pub fn uniq_hpx(depth: u8, idx: u64) -> (r: u64)
        requires
            depth <= 30,
            idx + pow2(2 * depth as nat + 2) <= u64::MAX,
        ensures
            r == idx + pow2(2 * depth as nat + 2),
    {
        idx + four_shl_twice_depth_u64(depth as u32)
    }

    /// `4 * 4^depth`
    pub fn four_shl_twice_depth(depth: u32) -> (r: u64)
        requires
            depth <= 30,
        ensures
            r == pow2(2 * depth as nat + 2),
    {
        four_shl_twice_depth_u64(depth)
    }
}

impl Hpx<u32> {
    /// From HEALPix specific uniq notation: `uniq = 4 * 4^depth + idx`.
    pub fn from_uniq_hpx(uniq: u32) -> (r: (u8, u32))
        requires
            uniq >= 4,
        ensures
            r.0 <= 14,
            r.1 + pow2(2 * r.0 as nat + 2) == uniq,
            r.1 < 3 * pow2(2 * r.0 as nat + 2),
    {
        let (depth, idx) = Hpx::<u64>::from_uniq_hpx(uniq as u64);
        proof {
            lemma2_to64();
            if depth > 14 {
                lemma_pow2_strictly_increases(32, 2 * depth as nat + 2);
            }
        }
        (depth, idx as u32)
    }

    /// Number of cells at the given depth.
    pub fn n_cells(depth: u8) -> (r: u32)
        requires
            depth <= 13,
        ensures
            r == 12 * pow2((2 * depth) as nat),
    {
        proof {
            lemma2_to64();
            lemma2_to64_rest();
            if 2 * depth < 26 {
                lemma_pow2_strictly_increases((2 * depth) as nat, 26);
            }
            vstd::bits::lemma_u32_shl_is_mul(12, (2 * depth) as u32);
        }
        12u32 << (2 * depth as u32)
    }

    pub fn uniq_hpx(depth: u8, idx: u32) -> (r: u32)
        requires
            depth <= 14,
            idx + pow2(2 * depth as nat + 2) <= u32::MAX,
        ensures
            r == idx + pow2(2 * depth as nat + 2),
    {
        idx + Self::four_shl_twice_depth(depth as u32)
    }

    /// `4 * 4^depth`
    pub fn four_shl_twice_depth(depth: u32) -> (r: u32)
        requires
            depth <= 14,
        ensures
            r == pow2(2 * depth as nat + 2),
    {
        let v = four_shl_twice_depth_u64(depth);
        proof {
            lemma2_to64();
            if depth < 14 {
                lemma_pow2_strictly_increases(2 * depth as nat + 2, 30);
            }
        }
        v as u32
    }
}

impl Time<u64> {
    /// See [`zuniq_encode`].
    pub fn to_zuniq(depth: u8, idx: u64) -> (r: u64)
        requires
            depth <= <Self as MocQty<u64>>::MAX_DEPTH,
            idx < <Self as MocableQty>::N_D0_CELLS * pow2((depth * <Self as MocableQty>::DIM) as nat),
        ensures
            r == (2 * idx + 1) * pow2(((<Self as MocQty<u64>>::MAX_DEPTH - depth) * <Self as MocableQty>::DIM) as nat),
    {
        zuniq_encode::<Self>(depth, idx)
    }

    /// See [`zuniq_decode`].
    pub fn from_zuniq(zuniq: u64) -> (r: (u8, u64))
        requires
            zuniq > 0,
            forall|k: nat|
                #[trigger] has_trailing_zeros(zuniq as int, k) ==> k / (<Self as MocableQty>::DIM as nat)
                    <= <Self as MocQty<u64>>::MAX_DEPTH,
        ensures
            zuniq_decoded::<Self>(zuniq, r),
    {
        zuniq_decode::<Self>(zuniq)
    }
}

impl Frequency<u64> {
    /// See [`zuniq_encode`].
    pub fn to_zuniq(depth: u8, idx: u64) -> (r: u64)
        requires
            depth <= <Self as MocQty<u64>>::MAX_DEPTH,
            idx < <Self as MocableQty>::N_D0_CELLS * pow2((depth * <Self as MocableQty>::DIM) as nat),
        ensures
            r == (2 * idx + 1) * pow2(((<Self as MocQty<u64>>::MAX_DEPTH - depth) * <Self as MocableQty>::DIM) as nat),
    {
        zuniq_encode::<Self>(depth, idx)
    }

    /// See [`zuniq_decode`].
    pub fn from_zuniq(zuniq: u64) -> (r: (u8, u64))
        requires
            zuniq > 0,
            forall|k: nat|
                #[trigger] has_trailing_zeros(zuniq as int, k) ==> k / (<Self as MocableQty>::DIM as nat)
                    <= <Self as MocQty<u64>>::MAX_DEPTH,
        ensures
            zuniq_decoded::<Self>(zuniq, r),
    {
        zuniq_decode::<Self>(zuniq)
    }
}

/// Mask to keep only the f64 sign
pub const F64_SIGN_BIT_MASK: u64 = 0x8000000000000000;

/// Equals !F64_SIGN_BIT_MASK (the inverse of the f64 sign mask)
pub const F64_BUT_SIGN_BIT_MASK: u64 = 0x7FFFFFFFFFFFFFFF;

/// Mask to keep only the f64 exponent part
pub const F64_EXPONENT_BIT_MASK: u64 = 0x7FF0000000000000;

/// Inverse of the f64 exponent mask
pub const F64_BUT_EXPONENT_BIT_MASK: u64 = 0x800FFFFFFFFFFFFF;

/// Mask to keep only the f64 mantissa part
pub const F64_MANTISSA_BIT_MASK: u64 = 0x000FFFFFFFFFFFFF;

/// Inverse of the f64 mantissa mask
pub const F64_BUT_MANTISSA_BIT_MASK: u64 = 0xFFF0000000000000;

/// Bits of the smallest frequency (in Hz) of a frequency MOC: exponent 929, mantissa 0.
pub const FREQ_MIN_BITS: u64 = 929 << 52;

/// Bits of the upper bound (excluded) of the frequencies of a frequency MOC: exponent 1184 and
/// the largest mantissa.
pub const FREQ_MAX_BITS: u64 = (1184 << 52) | 0x000FFFFFFFFFFFFF;

impl Frequency<u64> {
    /// The hash value, at the deepest depth, of the frequency (in Hz) of bits `freq_bits` (the
    /// bits of a positive `f64`, whose order is that of the values): the exponent is shifted
    /// down by 929, the mantissa kept.
    pub fn freq_bits2hash(freq_bits: u64) -> (r: u64)
        requires
            FREQ_MIN_BITS <= freq_bits < FREQ_MAX_BITS,
        ensures
            r == freq_bits - FREQ_MIN_BITS,
            r < <Self as MocQty<u64>>::spec_n_cells_max(),
    {
        let exponent = (freq_bits & F64_EXPONENT_BIT_MASK) >> 52;
        assert(freq_bits & 0x8000000000000000u64 == 0) by (bit_vector)
            requires
                freq_bits < (1184u64 << 52) | 0x000FFFFFFFFFFFFFu64,
        ;
        assert(929 <= (freq_bits & 0x7FF0000000000000u64) >> 52 <= 1184) by (bit_vector)
            requires
                929u64 << 52 <= freq_bits < (1184u64 << 52) | 0x000FFFFFFFFFFFFFu64,
        ;
        let d = exponent - 929;
        let shifted = d << 52;
        let r = (freq_bits & F64_BUT_EXPONENT_BIT_MASK) | shifted;
        assert(r == freq_bits - (929u64 << 52)) by (bit_vector)
            requires
                929u64 << 52 <= freq_bits < (1184u64 << 52) | 0x000FFFFFFFFFFFFFu64,
                exponent == (freq_bits & 0x7FF0000000000000u64) >> 52,
                d + 929u64 == exponent,
                shifted == d << 52,
                r == (freq_bits & 0x800FFFFFFFFFFFFFu64) | shifted,
        ;
        proof {
            <Self as MocQty<u64>>::lemma_qty();
            vstd::arithmetic::power2::lemma2_to64_rest();
            assert((1184u64 << 52) | 0x000FFFFFFFFFFFFFu64 == 0x4A0FFFFFFFFFFFFFu64) by (bit_vector);
            assert(929u64 << 52 == 0x3A10000000000000u64) by (bit_vector);
        }
        r
    }

    /// The bits of the frequency (in Hz, an `f64`) of the hash value `hash` (at the deepest
    /// depth): the exponent is shifted up by 929, the mantissa kept.
    pub fn hash2freq_bits(hash: u64) -> (r: u64)
        requires
            hash < 257u64 << 52,
        ensures
            r == hash + FREQ_MIN_BITS,
    {
        let exponent = (hash & F64_EXPONENT_BIT_MASK) >> 52;
        assert((hash & 0x7FF0000000000000u64) >> 52 <= 256) by (bit_vector)
            requires
                hash < 257u64 << 52,
        ;
        let d = exponent + 929;
        let shifted = d << 52;
        let r = (hash & F64_BUT_EXPONENT_BIT_MASK) | shifted;
        assert(r == hash + (929u64 << 52)) by (bit_vector)
            requires
                hash < 257u64 << 52,
                exponent == (hash & 0x7FF0000000000000u64) >> 52,
                d == exponent + 929u64,
                shifted == d << 52,
                r == (hash & 0x800FFFFFFFFFFFFFu64) | shifted,
        ;
        r
    }
}

} // verus!
