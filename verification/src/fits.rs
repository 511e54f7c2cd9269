//! The header of the binary-table extension of a MOC FITS file (IVOA MOC standard, v1.0 and
//! v2.0): the mandatory cards, the MOC keywords, and the kind of MOC they describe.
//!
//! A header is a sequence of 80-byte cards. A card holds a keyword in its first 8 bytes, the
//! value indicator `"= "` in bytes 8 and 9, and a value in bytes 10 to 79, possibly followed by
//! a comment that starts with `/`. Spaces around the value are not significant; a character
//! string value is enclosed in single quotes, and its trailing spaces are not significant.
//! Keywords and values are compared through [`packr`], the bytes read as a big-endian number.

use std::ops::Range;
use vstd::arithmetic::power::pow;
use vstd::arithmetic::power2::{lemma2_to64, lemma2_to64_rest, lemma_pow2_adds, lemma_pow2_strictly_increases, pow2};
use vstd::prelude::*;

use crate::builder::{cell_range, range_degraded_has, RangeMocBuilder};
use crate::cells::cell_len_u64;
use crate::cells::Cell;
use crate::hpx::uniq_hpx_cell;
use crate::moc::{aligned, cell_len, ends_le, RangeMOC};
use crate::qty::{Hpx, MocQty, Time};
use crate::moc2d::{HasTwoMaxDepth, RangeMOC2};
use crate::ranges::sno;
use crate::st_data::{decode_st_ranges, elems_view, encode_st_ranges, groups_view, st_encoded, st_grouped, tag_pair};

verus! {

/// Length of a header card.
pub const CARD_LEN: usize = 80;

/// Number of mandatory cards at the start of the header.
pub const N_MANDATORY: usize = 8;

// Keyword fields (8 bytes, padded with spaces), read as big-endian numbers.
/// `XTENSION`
pub const KW_XTENSION: u64 = 0x5854_454E_5349_4F4E;
/// `BITPIX  `
pub const KW_BITPIX: u64 = 0x4249_5450_4958_2020;
/// `NAXIS   `
pub const KW_NAXIS: u64 = 0x4E41_5849_5320_2020;
/// `NAXIS1  `
pub const KW_NAXIS1: u64 = 0x4E41_5849_5331_2020;
/// `NAXIS2  `
pub const KW_NAXIS2: u64 = 0x4E41_5849_5332_2020;
/// `PCOUNT  `
pub const KW_PCOUNT: u64 = 0x5043_4F55_4E54_2020;
/// `GCOUNT  `
pub const KW_GCOUNT: u64 = 0x4743_4F55_4E54_2020;
/// `TFIELDS `
pub const KW_TFIELDS: u64 = 0x5446_4945_4C44_5320;
/// `MOCVERS `
pub const KW_MOCVERS: u64 = 0x4D4F_4356_4552_5320;
/// `MOCDIM  `
pub const KW_MOCDIM: u64 = 0x4D4F_4344_494D_2020;
/// `ORDERING`
pub const KW_ORDERING: u64 = 0x4F52_4445_5249_4E47;
/// `MOCORD_S`
pub const KW_MOCORD_S: u64 = 0x4D4F_434F_5244_5F53;
/// `MOCORD_T`
pub const KW_MOCORD_T: u64 = 0x4D4F_434F_5244_5F54;
/// `MOCORD_F`
pub const KW_MOCORD_F: u64 = 0x4D4F_434F_5244_5F46;
/// `MOCORDER`
pub const KW_MOCORDER: u64 = 0x4D4F_434F_5244_4552;
/// `COORDSYS`
pub const KW_COORDSYS: u64 = 0x434F_4F52_4453_5953;
/// `TFORM1  `
pub const KW_TFORM1: u64 = 0x5446_4F52_4D31_2020;
/// `END ` (the first 4 bytes of the last card).
pub const KW_END4: u64 = 0x454E_4420;

// Values, read as big-endian numbers.
/// `'BINTABLE'`, quotes included.
pub const V_BINTABLE: u128 = 0x2742_494E_5441_424C_4527;
/// `8`
pub const V_8: u128 = 0x38;
/// `2`
pub const V_2: u128 = 0x32;
/// `0`
pub const V_0: u128 = 0x30;
/// `1`
pub const V_1: u128 = 0x31;
/// `2.0`
pub const S_V2: u128 = 0x32_2E30;
/// `1.0`
pub const S_V1: u128 = 0x31_2E30;
/// `SPACE`
pub const S_SPACE: u128 = 0x53_5041_4345;
/// `TIME`
pub const S_TIME: u128 = 0x5449_4D45;
/// `TIME.SPACE`
pub const S_TIME_SPACE: u128 = 0x5449_4D45_2E53_5041_4345;
/// `FREQUENCY`
pub const S_FREQUENCY: u128 = 0x46_5245_5155_454E_4359;
/// `NUNIQ`
pub const S_NUNIQ: u128 = 0x4E_554E_4951;
/// `RANGE`
pub const S_RANGE: u128 = 0x52_414E_4745;
/// `RANGE29`
pub const S_RANGE29: u128 = 0x52_414E_4745_3239;
/// `C`
pub const S_C: u128 = 0x43;
/// `1I`
pub const S_1I: u128 = 0x3149;
/// `1J`
pub const S_1J: u128 = 0x314A;
/// `1K`
pub const S_1K: u128 = 0x314B;

/// Version of the MOC standard.
#[derive(Clone, Copy, Debug, PartialEq, Eq, Structural)]
pub enum MocVers {
    V1,
    V2,
}

/// Quantity (or quantities) of the MOC.
#[derive(Clone, Copy, Debug, PartialEq, Eq, Structural)]
pub enum MocDim {
    Space,
    Time,
    TimeSpace,
    Frequency,
}

/// Way the data is stored.
#[derive(Clone, Copy, Debug, PartialEq, Eq, Structural)]
pub enum MocOrdering {
    Nuniq,
    Range,
    Range29,
}

/// Type of the single column: 16, 32 or 64-bit integers.
#[derive(Clone, Copy, Debug, PartialEq, Eq, Structural)]
pub enum TForm1 {
    OneI,
    OneJ,
    OneK,
}

/// The MOC keywords.
#[derive(Clone, Copy, Debug, PartialEq, Eq, Structural)]
pub enum MocKw {
    MocVers,
    MocDim,
    OrderingKw,
    MocOrdS,
    MocOrdT,
    MocOrdF,
    MocOrder,
    CoordSys,
    TForm1,
}

/// The value of a MOC keyword.
#[derive(Clone, Copy, Debug)]
pub enum KwVal {
    Vers(MocVers),
    Dim(MocDim),
    Ord(MocOrdering),
    OrdS(u8),
    OrdT(u8),
    OrdF(u8),
    Order(u8),
    Form(TForm1),
}

/// What a card holds.
#[derive(Clone, Copy, Debug)]
pub enum CardKind {
    /// The `END` card.
    End,
    /// A card that is not a MOC keyword, or that is one whose value is ignored.
    Other,
    /// A MOC keyword with a valid value.
    Valid(KwVal),
    /// A MOC keyword with an invalid value (or without value indicator).
    Invalid(MocKw),
}

/// The MOC keywords of a header: the value of the first occurrence of each.
#[derive(Clone, Copy, Debug)]
pub struct MocKeys {
    pub vers: Option<MocVers>,
    pub dim: Option<MocDim>,
    pub ordering: Option<MocOrdering>,
    pub ord_s: Option<u8>,
    pub ord_t: Option<u8>,
    pub ord_f: Option<u8>,
    pub order: Option<u8>,
    pub tform: Option<TForm1>,
}

/// Kind of MOC, with the way its data is stored.
#[derive(Clone, Copy, Debug, PartialEq, Eq, Structural)]
pub enum FitsMocKind {
    /// S-MOC of NUNIQ cells.
    SpaceNuniq,
    /// S-MOC of ranges.
    SpaceRange,
    /// T-MOC of ranges.
    TimeRange,
    /// F-MOC of ranges.
    FrequencyRange,
    /// ST-MOC of ranges (v2.0).
    TimeSpaceRange,
    /// ST-MOC of ranges in the format before v2.0 (time depth doubled).
    TimeSpaceRange29,
}

/// What the header says of the MOC stored in the table.
#[derive(Clone, Copy, Debug, PartialEq, Eq)]
pub struct FitsMocHeader {
    pub kind: FitsMocKind,
    /// Depth of the (first) quantity.
    pub depth_1: u8,
    /// Depth of the second quantity of an ST-MOC (0 otherwise).
    pub depth_2: u8,
    /// Number of bytes of a row (`NAXIS1`).
    pub naxis1: u8,
    /// Number of rows (`NAXIS2`).
    pub naxis2: u64,
    /// Type of the column (`TFORM1`), if given.
    pub tform: Option<TForm1>,
}

/// Why a header is refused.
#[derive(Clone, Copy, Debug, PartialEq, Eq)]
pub enum FitsHeaderError {
    /// The bytes are not whole cards, or fewer than the mandatory cards.
    NotCards,
    /// The mandatory card of this index holds another keyword, or no value indicator.
    WrongKeyword(usize),
    /// The mandatory card of this index holds another value.
    UnexpectedValue(usize),
    /// No `END` card.
    MissingEnd,
    /// A MOC keyword with an invalid value.
    WrongKeywordValue(MocKw),
    /// A needed MOC keyword is missing.
    MissingKeyword(MocKw),
    /// The values of the two keywords do not go together.
    UncompatibleKeywordContent(MocKw, MocKw),
    /// `NAXIS1` is not the size of a value of the type given by `TFORM1`.
    NaxisForTForm(u8, TForm1),
}

// ------------------------------------------------------------------------------------------
// Bytes

/// The bytes `s[lo..hi]` read as a big-endian number.
pub open spec fn packr(s: Seq<u8>, lo: int, hi: int) -> int
    decreases hi - lo,
{
    if hi <= lo {
        0
    } else {
        packr(s, lo, hi - 1) * 256 + s[hi - 1]
    }
}

/// Index of the first `/` of `s[k..end]` (or `end`).
pub open spec fn first_slash(s: Seq<u8>, k: int, end: int) -> int
    decreases end - k,
{
    if k >= end {
        end
    } else if s[k] == 47 {
        k
    } else {
        first_slash(s, k + 1, end)
    }
}

/// Index of the first byte of `s[k..end]` that is not a space (or `end`).
pub open spec fn skip_sp(s: Seq<u8>, k: int, end: int) -> int
    decreases end - k,
{
    if k >= end {
        end
    } else if s[k] == 32 {
        skip_sp(s, k + 1, end)
    } else {
        k
    }
}

/// End of `s[lo..k]` once its trailing spaces are removed.
pub open spec fn back_sp(s: Seq<u8>, lo: int, k: int) -> int
    decreases k - lo,
{
    if k <= lo {
        lo
    } else if s[k - 1] == 32 {
        back_sp(s, lo, k - 1)
    } else {
        k
    }
}

/// Bounds of the value of the card starting at `b`: bytes 10 to 79, before any comment, without
/// the spaces around it.
pub open spec fn val_lo(s: Seq<u8>, b: int) -> int {
    skip_sp(s, b + 10, first_slash(s, b + 10, b + 80))
}

pub open spec fn val_hi(s: Seq<u8>, b: int) -> int {
    back_sp(s, val_lo(s, b), first_slash(s, b + 10, b + 80))
}

/// `s[lo..hi]` holds the `len` bytes of the big-endian number `code`.
pub open spec fn text_is(s: Seq<u8>, lo: int, hi: int, len: int, code: int) -> bool {
    hi - lo == len && packr(s, lo, hi) == code
}

/// `s[lo..hi]` is a quoted string.
pub open spec fn is_quoted(s: Seq<u8>, lo: int, hi: int) -> bool {
    hi - lo >= 2 && s[lo] == 39 && s[hi - 1] == 39
}

/// `s[lo..hi]` is a quoted string whose content, without trailing spaces, is the `len` bytes
/// of `code`.
pub open spec fn content_is(s: Seq<u8>, lo: int, hi: int, len: int, code: int) -> bool {
    is_quoted(s, lo, hi) && text_is(s, lo + 1, back_sp(s, lo + 1, hi - 1), len, code)
}

/// Decimal value of the digits `s[lo..hi]`.
pub open spec fn dec_val(s: Seq<u8>, lo: int, hi: int) -> int
    decreases hi - lo,
{
    if hi <= lo {
        0
    } else {
        dec_val(s, lo, hi - 1) * 10 + (s[hi - 1] - 48)
    }
}

/// `s[lo..hi]` is made of decimal digits only.
pub open spec fn all_digits(s: Seq<u8>, lo: int, hi: int) -> bool {
    forall|k: int| lo <= k < hi ==> 48 <= #[trigger] s[k] <= 57
}

/// The unsigned integer written in `s[lo..hi]`, if it is one digit or more and fits in a `u64`.
pub open spec fn uint_val(s: Seq<u8>, lo: int, hi: int) -> Option<int> {
    if lo < hi && all_digits(s, lo, hi) && dec_val(s, lo, hi) <= u64::MAX {
        Some(dec_val(s, lo, hi))
    } else {
        None
    }
}

// ------------------------------------------------------------------------------------------
// Cards

/// The card of index `i` has the keyword `kw` and the value indicator.
pub open spec fn kw_ok(s: Seq<u8>, i: int, kw: int) -> bool {
    packr(s, 80 * i, 80 * i + 8) == kw && s[80 * i + 8] == 61 && s[80 * i + 9] == 32
}

/// The value of the card of index `i` is the `len` bytes of `code`.
pub open spec fn val_is(s: Seq<u8>, i: int, len: int, code: int) -> bool {
    text_is(s, val_lo(s, 80 * i), val_hi(s, 80 * i), len, code)
}

/// The unsigned integer value of the card of index `i`.
pub open spec fn card_uint(s: Seq<u8>, i: int) -> Option<int> {
    uint_val(s, val_lo(s, 80 * i), val_hi(s, 80 * i))
}

/// The keyword of the card starting at `b` is a MOC keyword.
pub open spec fn is_moc_kw(kw: int) -> bool {
    ||| kw == KW_MOCVERS
    ||| kw == KW_MOCDIM
    ||| kw == KW_ORDERING
    ||| kw == KW_MOCORD_S
    ||| kw == KW_MOCORD_T
    ||| kw == KW_MOCORD_F
    ||| kw == KW_MOCORDER
    ||| kw == KW_COORDSYS
    ||| kw == KW_TFORM1
}

/// The MOC keyword of the keyword field `kw`.
pub open spec fn moc_kw_of(kw: int) -> MocKw {
    if kw == KW_MOCVERS {
        MocKw::MocVers
    } else if kw == KW_MOCDIM {
        MocKw::MocDim
    } else if kw == KW_ORDERING {
        MocKw::OrderingKw
    } else if kw == KW_MOCORD_S {
        MocKw::MocOrdS
    } else if kw == KW_MOCORD_T {
        MocKw::MocOrdT
    } else if kw == KW_MOCORD_F {
        MocKw::MocOrdF
    } else if kw == KW_MOCORDER {
        MocKw::MocOrder
    } else if kw == KW_COORDSYS {
        MocKw::CoordSys
    } else {
        MocKw::TForm1
    }
}

/// A depth value: an unsigned integer below 256.
pub open spec fn depth_val(s: Seq<u8>, lo: int, hi: int) -> Option<u8> {
    match uint_val(s, lo, hi) {
        Some(d) => if d <= 255 { Some(d as u8) } else { None },
        None => None,
    }
}

/// What the value `s[lo..hi]` of the MOC keyword `k` gives.
pub open spec fn moc_value(k: MocKw, s: Seq<u8>, lo: int, hi: int, permissive: bool) -> CardKind {
    match k {
        MocKw::MocVers => if content_is(s, lo, hi, 3, S_V2 as int) {
            CardKind::Valid(KwVal::Vers(MocVers::V2))
        } else if content_is(s, lo, hi, 3, S_V1 as int) {
            CardKind::Valid(KwVal::Vers(MocVers::V1))
        } else {
            CardKind::Invalid(k)
        },
        MocKw::MocDim => if content_is(s, lo, hi, 5, S_SPACE as int) {
            CardKind::Valid(KwVal::Dim(MocDim::Space))
        } else if content_is(s, lo, hi, 4, S_TIME as int) {
            CardKind::Valid(KwVal::Dim(MocDim::Time))
        } else if content_is(s, lo, hi, 10, S_TIME_SPACE as int) {
            CardKind::Valid(KwVal::Dim(MocDim::TimeSpace))
        } else if content_is(s, lo, hi, 9, S_FREQUENCY as int) {
            CardKind::Valid(KwVal::Dim(MocDim::Frequency))
        } else {
            CardKind::Invalid(k)
        },
        MocKw::OrderingKw => if content_is(s, lo, hi, 5, S_NUNIQ as int) {
            CardKind::Valid(KwVal::Ord(MocOrdering::Nuniq))
        } else if content_is(s, lo, hi, 5, S_RANGE as int) {
            CardKind::Valid(KwVal::Ord(MocOrdering::Range))
        } else if content_is(s, lo, hi, 7, S_RANGE29 as int) {
            CardKind::Valid(KwVal::Ord(MocOrdering::Range29))
        } else {
            CardKind::Invalid(k)
        },
        MocKw::MocOrdS => match depth_val(s, lo, hi) {
            Some(d) => CardKind::Valid(KwVal::OrdS(d)),
            None => CardKind::Invalid(k),
        },
        MocKw::MocOrdT => match depth_val(s, lo, hi) {
            Some(d) => CardKind::Valid(KwVal::OrdT(d)),
            None => CardKind::Invalid(k),
        },
        MocKw::MocOrdF => match depth_val(s, lo, hi) {
            Some(d) => CardKind::Valid(KwVal::OrdF(d)),
            None => CardKind::Invalid(k),
        },
        MocKw::MocOrder => match depth_val(s, lo, hi) {
            Some(d) => CardKind::Valid(KwVal::Order(d)),
            None => CardKind::Invalid(k),
        },
        MocKw::CoordSys => if content_is(s, lo, hi, 1, S_C as int) || permissive {
            CardKind::Other
        } else {
            CardKind::Invalid(k)
        },
        MocKw::TForm1 => if content_is(s, lo, hi, 2, S_1I as int) {
            CardKind::Valid(KwVal::Form(TForm1::OneI))
        } else if content_is(s, lo, hi, 2, S_1J as int) {
            CardKind::Valid(KwVal::Form(TForm1::OneJ))
        } else if content_is(s, lo, hi, 2, S_1K as int) {
            CardKind::Valid(KwVal::Form(TForm1::OneK))
        } else {
            CardKind::Invalid(k)
        },
    }
}

/// What the card of index `i` holds. An invalid `COORDSYS` is ignored when `permissive`.
pub open spec fn card_kind(s: Seq<u8>, i: int, permissive: bool) -> CardKind {
    let _n = s.len();
    let b = 80 * i;
    let kw = packr(s, b, b + 8);
    if packr(s, b, b + 4) == KW_END4 {
        CardKind::End
    } else if !is_moc_kw(kw) {
        CardKind::Other
    } else if !(s[b + 8] == 61 && s[b + 9] == 32) {
        if moc_kw_of(kw) == MocKw::CoordSys && permissive {
            CardKind::Other
        } else {
            CardKind::Invalid(moc_kw_of(kw))
        }
    } else {
        moc_value(moc_kw_of(kw), s, val_lo(s, b), val_hi(s, b), permissive)
    }
}

/// No MOC keyword.
pub open spec fn no_keys() -> MocKeys {
    MocKeys { vers: None, dim: None, ordering: None, ord_s: None, ord_t: None, ord_f: None, order: None, tform: None }
}

/// `ks` with the value `v` for its keyword.
pub open spec fn set_key(ks: MocKeys, v: KwVal) -> MocKeys {
    match v {
        KwVal::Vers(x) => MocKeys { vers: Some(x), ..ks },
        KwVal::Dim(x) => MocKeys { dim: Some(x), ..ks },
        KwVal::Ord(x) => MocKeys { ordering: Some(x), ..ks },
        KwVal::OrdS(x) => MocKeys { ord_s: Some(x), ..ks },
        KwVal::OrdT(x) => MocKeys { ord_t: Some(x), ..ks },
        KwVal::OrdF(x) => MocKeys { ord_f: Some(x), ..ks },
        KwVal::Order(x) => MocKeys { order: Some(x), ..ks },
        KwVal::Form(x) => MocKeys { tform: Some(x), ..ks },
    }
}

/// The MOC keywords of the cards `i..n` up to the `END` card: the first occurrence of a keyword
/// gives its value; the first MOC keyword with an invalid value, before `END`, is an error.
pub open spec fn keys_from(s: Seq<u8>, i: int, n: int, permissive: bool) -> Result<MocKeys, FitsHeaderError>
    decreases n - i,
{
    if i >= n {
        Err(FitsHeaderError::MissingEnd)
    } else {
        match card_kind(s, i, permissive) {
            CardKind::End => Ok(no_keys()),
            CardKind::Other => keys_from(s, i + 1, n, permissive),
            CardKind::Invalid(k) => Err(FitsHeaderError::WrongKeywordValue(k)),
            CardKind::Valid(v) => match keys_from(s, i + 1, n, permissive) {
                Ok(ks) => Ok(set_key(ks, v)),
                Err(e) => Err(e),
            },
        }
    }
}

/// The header of the given kind and depths.
pub open spec fn mk_header(k: MocKeys, kind: FitsMocKind, d1: u8, d2: u8, naxis1: u8, naxis2: u64) -> Result<
    FitsMocHeader,
    FitsHeaderError,
> {
    Ok(FitsMocHeader { kind, depth_1: d1, depth_2: d2, naxis1, naxis2, tform: k.tform })
}

/// The depth doubled, on 8 bits (the time depth of the format before v2.0).
pub open spec fn twice(d: u8) -> u8 {
    ((d as int * 2) % 256) as u8
}

/// The kind and depths of the MOC that the keywords describe.
pub open spec fn decide(k: MocKeys, naxis1: u8, naxis2: u64) -> Result<FitsMocHeader, FitsHeaderError> {
    if k.vers == Some(MocVers::V2) {
        match k.dim {
            Some(MocDim::Space) => {
                let d = if k.ord_s is Some { k.ord_s } else { k.order };
                match d {
                    None => Err(FitsHeaderError::MissingKeyword(MocKw::MocOrdS)),
                    Some(d) => match k.ordering {
                        Some(MocOrdering::Nuniq) => mk_header(k, FitsMocKind::SpaceNuniq, d, 0, naxis1, naxis2),
                        Some(MocOrdering::Range) => mk_header(k, FitsMocKind::SpaceRange, d, 0, naxis1, naxis2),
                        Some(MocOrdering::Range29) => Err(
                            FitsHeaderError::UncompatibleKeywordContent(MocKw::OrderingKw, MocKw::MocVers),
                        ),
                        None => Err(FitsHeaderError::MissingKeyword(MocKw::OrderingKw)),
                    },
                }
            },
            Some(MocDim::Time) => match k.ord_t {
                None => Err(FitsHeaderError::MissingKeyword(MocKw::MocOrder)),
                Some(d) => match k.ordering {
                    Some(MocOrdering::Nuniq) => Err(
                        FitsHeaderError::UncompatibleKeywordContent(MocKw::MocDim, MocKw::OrderingKw),
                    ),
                    Some(MocOrdering::Range) => mk_header(k, FitsMocKind::TimeRange, d, 0, naxis1, naxis2),
                    Some(MocOrdering::Range29) => Err(
                        FitsHeaderError::UncompatibleKeywordContent(MocKw::OrderingKw, MocKw::MocVers),
                    ),
                    None => Err(FitsHeaderError::MissingKeyword(MocKw::OrderingKw)),
                },
            },
            Some(MocDim::TimeSpace) => match k.ord_t {
                None => Err(FitsHeaderError::MissingKeyword(MocKw::MocOrdT)),
                Some(dt) => match k.ord_s {
                    None => Err(FitsHeaderError::MissingKeyword(MocKw::MocOrdS)),
                    Some(ds) => match k.ordering {
                        Some(MocOrdering::Nuniq) => Err(
                            FitsHeaderError::UncompatibleKeywordContent(MocKw::MocDim, MocKw::OrderingKw),
                        ),
                        Some(MocOrdering::Range) => mk_header(k, FitsMocKind::TimeSpaceRange, dt, ds, naxis1, naxis2),
                        Some(MocOrdering::Range29) => Err(
                            FitsHeaderError::UncompatibleKeywordContent(MocKw::OrderingKw, MocKw::MocVers),
                        ),
                        None => Err(FitsHeaderError::MissingKeyword(MocKw::OrderingKw)),
                    },
                },
            },
            Some(MocDim::Frequency) => match k.ord_f {
                None => Err(FitsHeaderError::MissingKeyword(MocKw::MocOrder)),
                Some(d) => match k.ordering {
                    Some(MocOrdering::Nuniq) => Err(
                        FitsHeaderError::UncompatibleKeywordContent(MocKw::MocDim, MocKw::OrderingKw),
                    ),
                    Some(MocOrdering::Range) => mk_header(k, FitsMocKind::FrequencyRange, d, 0, naxis1, naxis2),
                    Some(MocOrdering::Range29) => Err(
                        FitsHeaderError::UncompatibleKeywordContent(MocKw::OrderingKw, MocKw::MocVers),
                    ),
                    None => Err(FitsHeaderError::MissingKeyword(MocKw::OrderingKw)),
                },
            },
            None => Err(FitsHeaderError::MissingKeyword(MocKw::MocDim)),
        }
    } else {
        match k.order {
            None => Err(FitsHeaderError::MissingKeyword(MocKw::MocOrder)),
            Some(d) => match k.ordering {
                Some(MocOrdering::Nuniq) => mk_header(k, FitsMocKind::SpaceNuniq, d, 0, naxis1, naxis2),
                Some(MocOrdering::Range) => mk_header(k, FitsMocKind::SpaceRange, d, 0, naxis1, naxis2),
                Some(MocOrdering::Range29) => match (k.ord_t, k.ord_s) {
                    (None, Some(ds)) => mk_header(k, FitsMocKind::TimeSpaceRange29, twice(d), ds, naxis1, naxis2),
                    (Some(dt), None) => mk_header(k, FitsMocKind::TimeSpaceRange29, twice(dt), d, naxis1, naxis2),
                    (Some(dt), Some(ds)) => mk_header(k, FitsMocKind::TimeSpaceRange29, twice(dt), ds, naxis1, naxis2),
                    (None, None) => Err(FitsHeaderError::MissingKeyword(MocKw::MocOrdT)),
                },
                None => Err(FitsHeaderError::MissingKeyword(MocKw::OrderingKw)),
            },
        }
    }
}

/// The header `h` is what the MOC keywords `k` say of the MOC: the data is stored as NUNIQ
/// cells exactly when `ORDERING` is `NUNIQ`; a header of the MOC 2.0 standard
/// (`MOCVERS = '2.0'`) describes a MOC of the quantity that `MOCDIM` gives, with the depth of
/// that quantity, never in the layout before 2.0; any other header describes a spatial
/// (HEALPix) MOC of depth `MOCORDER`, but for `ORDERING = 'RANGE29'`, which gives the ST-MOC
/// layout before 2.0; `TFORM1` is kept as given.
pub open spec fn header_agrees(k: MocKeys, h: FitsMocHeader) -> bool {
    &&& (h.kind == FitsMocKind::SpaceNuniq) == (k.ordering == Some(MocOrdering::Nuniq))
    &&& h.tform == k.tform
    &&& k.vers == Some(MocVers::V2) ==> {
        &&& k.dim == Some(kind_dim(h.kind))
        &&& h.kind != FitsMocKind::TimeSpaceRange29
        &&& match kind_dim(h.kind) {
            MocDim::Space => Some(h.depth_1) == k.ord_s || (k.ord_s is None && Some(h.depth_1) == k.order),
            MocDim::Time => Some(h.depth_1) == k.ord_t,
            MocDim::Frequency => Some(h.depth_1) == k.ord_f,
            MocDim::TimeSpace => Some(h.depth_1) == k.ord_t && Some(h.depth_2) == k.ord_s,
        }
    }
    &&& k.vers != Some(MocVers::V2) ==> {
        &&& (kind_dim(h.kind) == MocDim::Space) == (k.ordering != Some(MocOrdering::Range29))
        &&& kind_dim(h.kind) == MocDim::Space ==> Some(h.depth_1) == k.order
    }
}

/// Every header that the keywords `k` make accepted agrees with them (see [`header_agrees`]),
/// with the given `NAXIS1` and `NAXIS2`. A header without `MOCVERS = '2.0'` (a MOC 1.0
/// header) that gives `ORDERING = 'RANGE'` and `MOCORDER = d` is accepted, as a spatial MOC
/// of depth `d` stored as ranges.
pub proof fn law_header_kind_of_keywords(k: MocKeys, naxis1: u8, naxis2: u64)
    ensures
        decide(k, naxis1, naxis2) matches Ok(h) ==> header_agrees(k, h) && h.naxis1 == naxis1 && h.naxis2 == naxis2,
        k.vers != Some(MocVers::V2) && k.ordering == Some(MocOrdering::Range) && k.order is Some ==> (decide(
            k,
            naxis1,
            naxis2,
        ) matches Ok(h) && h.kind == FitsMocKind::SpaceRange && Some(h.depth_1) == k.order),
{
}

/// Every header accepted from the cards `s` agrees with the MOC keywords read from its cards
/// (see [`header_agrees`]).
pub proof fn law_parsed_header_agrees(s: Seq<u8>, permissive: bool)
    ensures
        header_spec(s, permissive) matches Ok(h) ==> (keys_from(s, N_MANDATORY as int, (s.len() / 80) as int, permissive) matches Ok(
            k,
        ) && header_agrees(k, h)),
{
    if let Ok(k) = keys_from(s, N_MANDATORY as int, (s.len() / 80) as int, permissive) {
        law_header_kind_of_keywords(k, card_uint(s, 3)->Some_0 as u8, card_uint(s, 4)->Some_0 as u64);
    }
}

/// What the header of the extension says, or why it is refused: the 8 mandatory cards
/// (`XTENSION = 'BINTABLE'`, `BITPIX = 8`, `NAXIS = 2`, `NAXIS1` below 256, `NAXIS2`,
/// `PCOUNT = 0`, `GCOUNT = 1`, `TFIELDS = 1`, checked in this order), then the MOC keywords up
/// to the `END` card, then the kind of MOC they describe.
pub open spec fn header_spec(s: Seq<u8>, permissive: bool) -> Result<FitsMocHeader, FitsHeaderError> {
    if s.len() % 80 != 0 || s.len() < 80 * N_MANDATORY {
        Err(FitsHeaderError::NotCards)
    } else if !kw_ok(s, 0, KW_XTENSION as int) {
        Err(FitsHeaderError::WrongKeyword(0))
    } else if !val_is(s, 0, 10, V_BINTABLE as int) {
        Err(FitsHeaderError::UnexpectedValue(0))
    } else if !kw_ok(s, 1, KW_BITPIX as int) {
        Err(FitsHeaderError::WrongKeyword(1))
    } else if !val_is(s, 1, 1, V_8 as int) {
        Err(FitsHeaderError::UnexpectedValue(1))
    } else if !kw_ok(s, 2, KW_NAXIS as int) {
        Err(FitsHeaderError::WrongKeyword(2))
    } else if !val_is(s, 2, 1, V_2 as int) {
        Err(FitsHeaderError::UnexpectedValue(2))
    } else if !kw_ok(s, 3, KW_NAXIS1 as int) {
        Err(FitsHeaderError::WrongKeyword(3))
    } else if !(card_uint(s, 3) is Some && card_uint(s, 3)->Some_0 <= 255) {
        Err(FitsHeaderError::UnexpectedValue(3))
    } else if !kw_ok(s, 4, KW_NAXIS2 as int) {
        Err(FitsHeaderError::WrongKeyword(4))
    } else if !(card_uint(s, 4) is Some) {
        Err(FitsHeaderError::UnexpectedValue(4))
    } else if !kw_ok(s, 5, KW_PCOUNT as int) {
        Err(FitsHeaderError::WrongKeyword(5))
    } else if !val_is(s, 5, 1, V_0 as int) {
        Err(FitsHeaderError::UnexpectedValue(5))
    } else if !kw_ok(s, 6, KW_GCOUNT as int) {
        Err(FitsHeaderError::WrongKeyword(6))
    } else if !val_is(s, 6, 1, V_1 as int) {
        Err(FitsHeaderError::UnexpectedValue(6))
    } else if !kw_ok(s, 7, KW_TFIELDS as int) {
        Err(FitsHeaderError::WrongKeyword(7))
    } else if !val_is(s, 7, 1, V_1 as int) {
        Err(FitsHeaderError::UnexpectedValue(7))
    } else {
        match keys_from(s, N_MANDATORY as int, (s.len() / 80) as int, permissive) {
            Err(e) => Err(e),
            Ok(k) => decide(k, card_uint(s, 3)->Some_0 as u8, card_uint(s, 4)->Some_0 as u64),
        }
    }
}

// ------------------------------------------------------------------------------------------
// Proofs on bytes

/// A number read from `m` bytes is below `256^m`.
proof fn lemma_packr_bound(s: Seq<u8>, lo: int, hi: int)
    requires
        lo <= hi,
    ensures
        0 <= packr(s, lo, hi) < pow(256, (hi - lo) as nat),
    decreases hi - lo,
{
    reveal(pow);
    if hi > lo {
        lemma_packr_bound(s, lo, hi - 1);
        let p = packr(s, lo, hi - 1);
        let q = pow(256, (hi - 1 - lo) as nat);
        assert(pow(256, (hi - lo) as nat) == 256 * q);
        let x = s[hi - 1] as int;
        assert(p * 256 + x < 256 * q) by (nonlinear_arith)
            requires
                0 <= p < q,
                0 <= x < 256,
        ;
        assert(p * 256 + x >= 0) by (nonlinear_arith)
            requires
                0 <= p,
                0 <= x,
        ;
    }
}

proof fn lemma_pow_256()
    ensures
        pow(256, 8) == 0x1_0000_0000_0000_0000,
        pow(256, 16) == 0x1_0000_0000_0000_0000_0000_0000_0000_0000,
{
    reveal_with_fuel(pow, 17);
}

/// Decimal values grow with the number of digits read.
proof fn lemma_dec_mono(s: Seq<u8>, lo: int, k: int, hi: int)
    requires
        lo <= k <= hi,
        all_digits(s, lo, hi),
    ensures
        0 <= dec_val(s, lo, k) <= dec_val(s, lo, hi),
    decreases hi - k,
{
    if k < hi {
        lemma_dec_mono(s, lo, k, hi - 1);
        assert(48 <= s[hi - 1] <= 57);
        lemma_dec_nonneg(s, lo, hi - 1);
    } else {
        lemma_dec_nonneg(s, lo, hi);
    }
}

proof fn lemma_dec_nonneg(s: Seq<u8>, lo: int, hi: int)
    requires
        lo <= hi,
        all_digits(s, lo, hi),
    ensures
        0 <= dec_val(s, lo, hi),
    decreases hi - lo,
{
    if hi > lo {
        lemma_dec_nonneg(s, lo, hi - 1);
        assert(48 <= s[hi - 1] <= 57);
    }
}

// ------------------------------------------------------------------------------------------
// Executable parts

/// `s[lo..hi]` read as a big-endian number.
fn pack_bytes(s: &Vec<u8>, lo: usize, hi: usize) -> (r: u128)
    requires
        lo <= hi <= s@.len(),
        hi - lo <= 16,
    ensures
        r == packr(s@, lo as int, hi as int),
{
    let mut acc: u128 = 0;
    let mut k: usize = lo;
    proof {
        lemma_pow_256();
    }
    while k < hi
        invariant
            lo <= k <= hi <= s@.len(),
            hi - lo <= 16,
            acc == packr(s@, lo as int, k as int),
            pow(256, 16) == 0x1_0000_0000_0000_0000_0000_0000_0000_0000,
        decreases hi - k,
    {
        proof {
            lemma_packr_bound(s@, lo as int, k as int + 1);
            vstd::arithmetic::power::lemma_pow_increases(256, (k + 1 - lo) as nat, 16);
        }
        acc = acc * 256 + s[k] as u128;
        k = k + 1;
    }
    acc
}

/// Index of the first `/` of `s[k..end]` (or `end`).
fn find_slash(s: &Vec<u8>, k: usize, end: usize) -> (r: usize)
    requires
        k <= end <= s@.len(),
    ensures
        r == first_slash(s@, k as int, end as int),
        k <= r <= end,
{
    let mut j = k;
    while j < end && s[j] != 47
        invariant
            k <= j <= end <= s@.len(),
            first_slash(s@, j as int, end as int) == first_slash(s@, k as int, end as int),
        decreases end - j,
    {
        j = j + 1;
    }
    j
}

/// Index of the first byte of `s[k..end]` that is not a space (or `end`).
fn skip_spaces(s: &Vec<u8>, k: usize, end: usize) -> (r: usize)
    requires
        k <= end <= s@.len(),
    ensures
        r == skip_sp(s@, k as int, end as int),
        k <= r <= end,
{
    let mut j = k;
    while j < end && s[j] == 32
        invariant
            k <= j <= end <= s@.len(),
            skip_sp(s@, j as int, end as int) == skip_sp(s@, k as int, end as int),
        decreases end - j,
    {
        j = j + 1;
    }
    j
}

/// End of `s[lo..k]` without its trailing spaces.
fn back_spaces(s: &Vec<u8>, lo: usize, k: usize) -> (r: usize)
    requires
        lo <= k <= s@.len(),
    ensures
        r == back_sp(s@, lo as int, k as int),
        lo <= r <= k,
{
    let mut j = k;
    while j > lo && s[j - 1] == 32
        invariant
            lo <= j <= k <= s@.len(),
            back_sp(s@, lo as int, j as int) == back_sp(s@, lo as int, k as int),
        decreases j - lo,
    {
        j = j - 1;
    }
    j
}

/// Bounds of the value of the card starting at `b`.
fn value_bounds(s: &Vec<u8>, b: usize) -> (r: (usize, usize))
    requires
        b + 80 <= s@.len(),
    ensures
        r.0 == val_lo(s@, b as int),
        r.1 == val_hi(s@, b as int),
        b + 10 <= r.0 <= r.1 <= b + 80,
{
    let _n = s.len();
    let e = find_slash(s, b + 10, b + 80);
    let lo = skip_spaces(s, b + 10, e);
    let hi = back_spaces(s, lo, e);
    (lo, hi)
}

/// `s[lo..hi]` holds the `len` bytes of `code`.
fn text_eq(s: &Vec<u8>, lo: usize, hi: usize, len: usize, code: u128) -> (r: bool)
    requires
        lo <= hi <= s@.len(),
        len <= 16,
    ensures
        r == text_is(s@, lo as int, hi as int, len as int, code as int),
{
    if hi - lo != len {
        return false;
    }
    pack_bytes(s, lo, hi) == code
}

/// `s[lo..hi]` is a quoted string whose content is the `len` bytes of `code`.
fn content_eq(s: &Vec<u8>, lo: usize, hi: usize, len: usize, code: u128) -> (r: bool)
    requires
        lo <= hi <= s@.len(),
        len <= 16,
    ensures
        r == content_is(s@, lo as int, hi as int, len as int, code as int),
{
    if hi - lo < 2 || s[lo] != 39 || s[hi - 1] != 39 {
        return false;
    }
    let end = back_spaces(s, lo + 1, hi - 1);
    text_eq(s, lo + 1, end, len, code)
}

/// The unsigned integer written in `s[lo..hi]`.
fn parse_uint(s: &Vec<u8>, lo: usize, hi: usize) -> (r: Option<u64>)
    requires
        lo <= hi <= s@.len(),
    ensures
        r matches Some(v) ==> uint_val(s@, lo as int, hi as int) == Some(v as int),
        r is None ==> uint_val(s@, lo as int, hi as int) is None,
{
    if lo >= hi {
        return None;
    }
    let mut k = lo;
    while k < hi
        invariant
            lo <= k <= hi <= s@.len(),
            all_digits(s@, lo as int, k as int),
        decreases hi - k,
    {
        if s[k] < 48 || s[k] > 57 {
            return None;
        }
        k = k + 1;
    }
    let mut acc: u64 = 0;
    let mut j = lo;
    while j < hi
        invariant
            lo <= j <= hi <= s@.len(),
            all_digits(s@, lo as int, hi as int),
            acc == dec_val(s@, lo as int, j as int),
        decreases hi - j,
    {
        let d = (s[j] - 48) as u64;
        proof {
            assert(48 <= s@[j as int] <= 57);
        }
        if acc > (u64::MAX - d) / 10 {
            proof {
                assert(acc * 10 + d > u64::MAX) by (nonlinear_arith)
                    requires
                        acc > (u64::MAX - d) / 10,
                        d <= 9,
                ;
                assert(dec_val(s@, lo as int, j + 1) == acc * 10 + d);
                lemma_dec_mono(s@, lo as int, j + 1, hi as int);
            }
            return None;
        }
        proof {
            assert(acc * 10 + d <= u64::MAX) by (nonlinear_arith)
                requires
                    acc <= (u64::MAX - d) / 10,
                    d <= 9,
            ;
        }
        acc = acc * 10 + d;
        j = j + 1;
    }
    Some(acc)
}

/// A depth: an unsigned integer below 256.
fn parse_depth(s: &Vec<u8>, lo: usize, hi: usize) -> (r: Option<u8>)
    requires
        lo <= hi <= s@.len(),
    ensures
        r == depth_val(s@, lo as int, hi as int),
{
    match parse_uint(s, lo, hi) {
        Some(v) => if v <= 255 { Some(v as u8) } else { None },
        None => None,
    }
}

/// The big-endian number of the keyword field of the card starting at `b`.
fn keyword_code(s: &Vec<u8>, b: usize) -> (r: u64)
    requires
        b + 80 <= s@.len(),
    ensures
        r == packr(s@, b as int, b + 8),
{
    let _n = s.len();
    let v = pack_bytes(s, b, b + 8);
    proof {
        lemma_packr_bound(s@, b as int, b + 8);
        lemma_pow_256();
    }
    v as u64
}

/// What the value of the MOC keyword `k`, in `s[lo..hi]`, gives.
fn moc_value_exec(k: MocKw, s: &Vec<u8>, lo: usize, hi: usize, permissive: bool) -> (r: CardKind)
    requires
        lo <= hi <= s@.len(),
    ensures
        r == moc_value(k, s@, lo as int, hi as int, permissive),
{
    match k {
        MocKw::MocVers => if content_eq(s, lo, hi, 3, S_V2) {
            CardKind::Valid(KwVal::Vers(MocVers::V2))
        } else if content_eq(s, lo, hi, 3, S_V1) {
            CardKind::Valid(KwVal::Vers(MocVers::V1))
        } else {
            CardKind::Invalid(k)
        },
        MocKw::MocDim => if content_eq(s, lo, hi, 5, S_SPACE) {
            CardKind::Valid(KwVal::Dim(MocDim::Space))
        } else if content_eq(s, lo, hi, 4, S_TIME) {
            CardKind::Valid(KwVal::Dim(MocDim::Time))
        } else if content_eq(s, lo, hi, 10, S_TIME_SPACE) {
            CardKind::Valid(KwVal::Dim(MocDim::TimeSpace))
        } else if content_eq(s, lo, hi, 9, S_FREQUENCY) {
            CardKind::Valid(KwVal::Dim(MocDim::Frequency))
        } else {
            CardKind::Invalid(k)
        },
        MocKw::OrderingKw => if content_eq(s, lo, hi, 5, S_NUNIQ) {
            CardKind::Valid(KwVal::Ord(MocOrdering::Nuniq))
        } else if content_eq(s, lo, hi, 5, S_RANGE) {
            CardKind::Valid(KwVal::Ord(MocOrdering::Range))
        } else if content_eq(s, lo, hi, 7, S_RANGE29) {
            CardKind::Valid(KwVal::Ord(MocOrdering::Range29))
        } else {
            CardKind::Invalid(k)
        },
        MocKw::MocOrdS => match parse_depth(s, lo, hi) {
            Some(d) => CardKind::Valid(KwVal::OrdS(d)),
            None => CardKind::Invalid(k),
        },
        MocKw::MocOrdT => match parse_depth(s, lo, hi) {
            Some(d) => CardKind::Valid(KwVal::OrdT(d)),
            None => CardKind::Invalid(k),
        },
        MocKw::MocOrdF => match parse_depth(s, lo, hi) {
            Some(d) => CardKind::Valid(KwVal::OrdF(d)),
            None => CardKind::Invalid(k),
        },
        MocKw::MocOrder => match parse_depth(s, lo, hi) {
            Some(d) => CardKind::Valid(KwVal::Order(d)),
            None => CardKind::Invalid(k),
        },
        MocKw::CoordSys => if content_eq(s, lo, hi, 1, S_C) || permissive {
            CardKind::Other
        } else {
            CardKind::Invalid(k)
        },
        MocKw::TForm1 => if content_eq(s, lo, hi, 2, S_1I) {
            CardKind::Valid(KwVal::Form(TForm1::OneI))
        } else if content_eq(s, lo, hi, 2, S_1J) {
            CardKind::Valid(KwVal::Form(TForm1::OneJ))
        } else if content_eq(s, lo, hi, 2, S_1K) {
            CardKind::Valid(KwVal::Form(TForm1::OneK))
        } else {
            CardKind::Invalid(k)
        },
    }
}

/// The MOC keyword of a keyword field, if it is one.
fn moc_kw_exec(kw: u64) -> (r: Option<MocKw>)
    ensures
        r is Some <==> is_moc_kw(kw as int),
        r matches Some(k) ==> k == moc_kw_of(kw as int),
{
    if kw == KW_MOCVERS {
        Some(MocKw::MocVers)
    } else if kw == KW_MOCDIM {
        Some(MocKw::MocDim)
    } else if kw == KW_ORDERING {
        Some(MocKw::OrderingKw)
    } else if kw == KW_MOCORD_S {
        Some(MocKw::MocOrdS)
    } else if kw == KW_MOCORD_T {
        Some(MocKw::MocOrdT)
    } else if kw == KW_MOCORD_F {
        Some(MocKw::MocOrdF)
    } else if kw == KW_MOCORDER {
        Some(MocKw::MocOrder)
    } else if kw == KW_COORDSYS {
        Some(MocKw::CoordSys)
    } else if kw == KW_TFORM1 {
        Some(MocKw::TForm1)
    } else {
        None
    }
}

/// What the card of index `i` holds.
fn card_kind_exec(s: &Vec<u8>, i: usize, permissive: bool) -> (r: CardKind)
    requires
        80 * i + 80 <= s@.len(),
    ensures
        r == card_kind(s@, i as int, permissive),
{
    let _n = s.len();
    let b = 80 * i;
    let kw = keyword_code(s, b);
    let head = pack_bytes(s, b, b + 4);
    if head == KW_END4 as u128 {
        return CardKind::End;
    }
    match moc_kw_exec(kw) {
        None => CardKind::Other,
        Some(k) => {
            if !(s[b + 8] == 61 && s[b + 9] == 32) {
                match k {
                    MocKw::CoordSys => if permissive { CardKind::Other } else { CardKind::Invalid(k) },
                    _ => CardKind::Invalid(k),
                }
            } else {
                let (lo, hi) = value_bounds(s, b);
                moc_value_exec(k, s, lo, hi, permissive)
            }
        },
    }
}

/// `ks` with the value `v` for its keyword.
fn set_key_exec(ks: MocKeys, v: KwVal) -> (r: MocKeys)
    ensures
        r == set_key(ks, v),
{
    let mut r = ks;
    match v {
        KwVal::Vers(x) => r.vers = Some(x),
        KwVal::Dim(x) => r.dim = Some(x),
        KwVal::Ord(x) => r.ordering = Some(x),
        KwVal::OrdS(x) => r.ord_s = Some(x),
        KwVal::OrdT(x) => r.ord_t = Some(x),
        KwVal::OrdF(x) => r.ord_f = Some(x),
        KwVal::Order(x) => r.order = Some(x),
        KwVal::Form(x) => r.tform = Some(x),
    }
    r
}

/// The MOC keywords of the cards `i..n`, up to the `END` card.
fn keys_from_exec(s: &Vec<u8>, i: usize, n: usize, permissive: bool) -> (r: Result<MocKeys, FitsHeaderError>)
    requires
        80 * n <= s@.len(),
    ensures
        r == keys_from(s@, i as int, n as int, permissive),
    decreases n - i,
{
    if i >= n {
        return Err(FitsHeaderError::MissingEnd);
    }
    match card_kind_exec(s, i, permissive) {
        CardKind::End => Ok(MocKeys {
            vers: None,
            dim: None,
            ordering: None,
            ord_s: None,
            ord_t: None,
            ord_f: None,
            order: None,
            tform: None,
        }),
        CardKind::Other => keys_from_exec(s, i + 1, n, permissive),
        CardKind::Invalid(k) => Err(FitsHeaderError::WrongKeywordValue(k)),
        CardKind::Valid(v) => match keys_from_exec(s, i + 1, n, permissive) {
            Ok(ks) => Ok(set_key_exec(ks, v)),
            Err(e) => Err(e),
        },
    }
}

/// The header of the given kind and depths.
fn mk_header_exec(k: MocKeys, kind: FitsMocKind, d1: u8, d2: u8, naxis1: u8, naxis2: u64) -> (r: Result<
    FitsMocHeader,
    FitsHeaderError,
>)
    ensures
        r == mk_header(k, kind, d1, d2, naxis1, naxis2),
{
    Ok(FitsMocHeader { kind, depth_1: d1, depth_2: d2, naxis1, naxis2, tform: k.tform })
}

/// The depth doubled, on 8 bits.
fn twice_exec(d: u8) -> (r: u8)
    ensures
        r == twice(d),
{
    ((d as u16 * 2) % 256) as u8
}

/// The kind and depths of the MOC that the keywords describe.
pub fn decide_kind(k: MocKeys, naxis1: u8, naxis2: u64) -> (r: Result<FitsMocHeader, FitsHeaderError>)
    ensures
        r == decide(k, naxis1, naxis2),
        r matches Ok(h) ==> header_agrees(k, h),
{
    proof {
        law_header_kind_of_keywords(k, naxis1, naxis2);
    }
    let v2 = match k.vers {
        Some(MocVers::V2) => true,
        _ => false,
    };
    if v2 {
        match k.dim {
            Some(MocDim::Space) => {
                let d = match k.ord_s {
                    Some(x) => Some(x),
                    None => k.order,
                };
                match d {
                    None => Err(FitsHeaderError::MissingKeyword(MocKw::MocOrdS)),
                    Some(d) => match k.ordering {
                        Some(MocOrdering::Nuniq) => mk_header_exec(k, FitsMocKind::SpaceNuniq, d, 0, naxis1, naxis2),
                        Some(MocOrdering::Range) => mk_header_exec(k, FitsMocKind::SpaceRange, d, 0, naxis1, naxis2),
                        Some(MocOrdering::Range29) => Err(
                            FitsHeaderError::UncompatibleKeywordContent(MocKw::OrderingKw, MocKw::MocVers),
                        ),
                        None => Err(FitsHeaderError::MissingKeyword(MocKw::OrderingKw)),
                    },
                }
            },
            Some(MocDim::Time) => match k.ord_t {
                None => Err(FitsHeaderError::MissingKeyword(MocKw::MocOrder)),
                Some(d) => match k.ordering {
                    Some(MocOrdering::Nuniq) => Err(
                        FitsHeaderError::UncompatibleKeywordContent(MocKw::MocDim, MocKw::OrderingKw),
                    ),
                    Some(MocOrdering::Range) => mk_header_exec(k, FitsMocKind::TimeRange, d, 0, naxis1, naxis2),
                    Some(MocOrdering::Range29) => Err(
                        FitsHeaderError::UncompatibleKeywordContent(MocKw::OrderingKw, MocKw::MocVers),
                    ),
                    None => Err(FitsHeaderError::MissingKeyword(MocKw::OrderingKw)),
                },
            },
            Some(MocDim::TimeSpace) => match k.ord_t {
                None => Err(FitsHeaderError::MissingKeyword(MocKw::MocOrdT)),
                Some(dt) => match k.ord_s {
                    None => Err(FitsHeaderError::MissingKeyword(MocKw::MocOrdS)),
                    Some(ds) => match k.ordering {
                        Some(MocOrdering::Nuniq) => Err(
                            FitsHeaderError::UncompatibleKeywordContent(MocKw::MocDim, MocKw::OrderingKw),
                        ),
                        Some(MocOrdering::Range) => mk_header_exec(
                            k,
                            FitsMocKind::TimeSpaceRange,
                            dt,
                            ds,
                            naxis1,
                            naxis2,
                        ),
                        Some(MocOrdering::Range29) => Err(
                            FitsHeaderError::UncompatibleKeywordContent(MocKw::OrderingKw, MocKw::MocVers),
                        ),
                        None => Err(FitsHeaderError::MissingKeyword(MocKw::OrderingKw)),
                    },
                },
            },
            Some(MocDim::Frequency) => match k.ord_f {
                None => Err(FitsHeaderError::MissingKeyword(MocKw::MocOrder)),
                Some(d) => match k.ordering {
                    Some(MocOrdering::Nuniq) => Err(
                        FitsHeaderError::UncompatibleKeywordContent(MocKw::MocDim, MocKw::OrderingKw),
                    ),
                    Some(MocOrdering::Range) => mk_header_exec(k, FitsMocKind::FrequencyRange, d, 0, naxis1, naxis2),
                    Some(MocOrdering::Range29) => Err(
                        FitsHeaderError::UncompatibleKeywordContent(MocKw::OrderingKw, MocKw::MocVers),
                    ),
                    None => Err(FitsHeaderError::MissingKeyword(MocKw::OrderingKw)),
                },
            },
            None => Err(FitsHeaderError::MissingKeyword(MocKw::MocDim)),
        }
    } else {
        match k.order {
            None => Err(FitsHeaderError::MissingKeyword(MocKw::MocOrder)),
            Some(d) => match k.ordering {
                Some(MocOrdering::Nuniq) => mk_header_exec(k, FitsMocKind::SpaceNuniq, d, 0, naxis1, naxis2),
                Some(MocOrdering::Range) => mk_header_exec(k, FitsMocKind::SpaceRange, d, 0, naxis1, naxis2),
                Some(MocOrdering::Range29) => match (k.ord_t, k.ord_s) {
                    (None, Some(ds)) => mk_header_exec(
                        k,
                        FitsMocKind::TimeSpaceRange29,
                        twice_exec(d),
                        ds,
                        naxis1,
                        naxis2,
                    ),
                    (Some(dt), None) => mk_header_exec(
                        k,
                        FitsMocKind::TimeSpaceRange29,
                        twice_exec(dt),
                        d,
                        naxis1,
                        naxis2,
                    ),
                    (Some(dt), Some(ds)) => mk_header_exec(
                        k,
                        FitsMocKind::TimeSpaceRange29,
                        twice_exec(dt),
                        ds,
                        naxis1,
                        naxis2,
                    ),
                    (None, None) => Err(FitsHeaderError::MissingKeyword(MocKw::MocOrdT)),
                },
                None => Err(FitsHeaderError::MissingKeyword(MocKw::OrderingKw)),
            },
        }
    }
}

/// The mandatory card `i` has the keyword `kw`.
fn kw_ok_exec(s: &Vec<u8>, i: usize, kw: u64) -> (r: bool)
    requires
        80 * i + 80 <= s@.len(),
    ensures
        r == kw_ok(s@, i as int, kw as int),
{
    let _n = s.len();
    let b = 80 * i;
    keyword_code(s, b) == kw && s[b + 8] == 61 && s[b + 9] == 32
}

/// The value of the card `i` is the `len` bytes of `code`.
fn val_is_exec(s: &Vec<u8>, i: usize, len: usize, code: u128) -> (r: bool)
    requires
        80 * i + 80 <= s@.len(),
        len <= 16,
    ensures
        r == val_is(s@, i as int, len as int, code as int),
{
    let _n = s.len();
    let (lo, hi) = value_bounds(s, 80 * i);
    text_eq(s, lo, hi, len, code)
}

/// The unsigned integer value of the card `i`.
fn card_uint_exec(s: &Vec<u8>, i: usize) -> (r: Option<u64>)
    requires
        80 * i + 80 <= s@.len(),
    ensures
        r matches Some(v) ==> card_uint(s@, i as int) == Some(v as int),
        r is None ==> card_uint(s@, i as int) is None,
{
    let _n = s.len();
    let (lo, hi) = value_bounds(s, 80 * i);
    parse_uint(s, lo, hi)
}

/// Reads the header of the binary-table extension of a MOC FITS file, given as whole 80-byte
/// cards (the primary header excluded). With `coosys_permissive`, a `COORDSYS` other than `C`
/// is accepted.
pub fn parse_fits_moc_header(cards: &Vec<u8>, coosys_permissive: bool) -> (r: Result<FitsMocHeader, FitsHeaderError>)
    ensures
        r == header_spec(cards@, coosys_permissive),
{
    let len = cards.len();
    if len % 80 != 0 || len < 80 * N_MANDATORY {
        return Err(FitsHeaderError::NotCards);
    }
    if !kw_ok_exec(cards, 0, KW_XTENSION) {
        return Err(FitsHeaderError::WrongKeyword(0));
    }
    if !val_is_exec(cards, 0, 10, V_BINTABLE) {
        return Err(FitsHeaderError::UnexpectedValue(0));
    }
    if !kw_ok_exec(cards, 1, KW_BITPIX) {
        return Err(FitsHeaderError::WrongKeyword(1));
    }
    if !val_is_exec(cards, 1, 1, V_8) {
        return Err(FitsHeaderError::UnexpectedValue(1));
    }
    if !kw_ok_exec(cards, 2, KW_NAXIS) {
        return Err(FitsHeaderError::WrongKeyword(2));
    }
    if !val_is_exec(cards, 2, 1, V_2) {
        return Err(FitsHeaderError::UnexpectedValue(2));
    }
    if !kw_ok_exec(cards, 3, KW_NAXIS1) {
        return Err(FitsHeaderError::WrongKeyword(3));
    }
    let naxis1: u8 = match card_uint_exec(cards, 3) {
        Some(v) => if v <= 255 { v as u8 } else { return Err(FitsHeaderError::UnexpectedValue(3)) },
        None => return Err(FitsHeaderError::UnexpectedValue(3)),
    };
    if !kw_ok_exec(cards, 4, KW_NAXIS2) {
        return Err(FitsHeaderError::WrongKeyword(4));
    }
    let naxis2: u64 = match card_uint_exec(cards, 4) {
        Some(v) => v,
        None => return Err(FitsHeaderError::UnexpectedValue(4)),
    };
    if !kw_ok_exec(cards, 5, KW_PCOUNT) {
        return Err(FitsHeaderError::WrongKeyword(5));
    }
    if !val_is_exec(cards, 5, 1, V_0) {
        return Err(FitsHeaderError::UnexpectedValue(5));
    }
    if !kw_ok_exec(cards, 6, KW_GCOUNT) {
        return Err(FitsHeaderError::WrongKeyword(6));
    }
    if !val_is_exec(cards, 6, 1, V_1) {
        return Err(FitsHeaderError::UnexpectedValue(6));
    }
    if !kw_ok_exec(cards, 7, KW_TFIELDS) {
        return Err(FitsHeaderError::WrongKeyword(7));
    }
    if !val_is_exec(cards, 7, 1, V_1) {
        return Err(FitsHeaderError::UnexpectedValue(7));
    }
    match keys_from_exec(cards, N_MANDATORY, len / 80, coosys_permissive) {
        Err(e) => Err(e),
        Ok(k) => decide_kind(k, naxis1, naxis2),
    }
}

/// Number of bytes of a data word for the column type.
pub open spec fn tform_bytes(t: TForm1) -> u8 {
    match t {
        TForm1::OneI => 2,
        TForm1::OneJ => 4,
        TForm1::OneK => 8,
    }
}

/// The number of bytes of a data word: `TFORM1` is needed, and `NAXIS1` must be its size.
pub open spec fn word_bytes_spec(h: FitsMocHeader) -> Result<u8, FitsHeaderError> {
    match h.tform {
        None => Err(FitsHeaderError::MissingKeyword(MocKw::TForm1)),
        Some(t) => if h.naxis1 == tform_bytes(t) {
            Ok(h.naxis1)
        } else {
            Err(FitsHeaderError::NaxisForTForm(h.naxis1, t))
        },
    }
}

/// The number of bytes (2, 4 or 8) of each data word of the table the header describes.
pub fn data_word_bytes(h: &FitsMocHeader) -> (r: Result<u8, FitsHeaderError>)
    ensures
        r == word_bytes_spec(*h),
{
    match h.tform {
        None => Err(FitsHeaderError::MissingKeyword(MocKw::TForm1)),
        Some(t) => {
            let b: u8 = match t {
                TForm1::OneI => 2,
                TForm1::OneJ => 4,
                TForm1::OneK => 8,
            };
            if h.naxis1 == b {
                Ok(h.naxis1)
            } else {
                Err(FitsHeaderError::NaxisForTForm(h.naxis1, t))
            }
        },
    }
}

// ------------------------------------------------------------------------------------------
// Data

/// The ranges of the data words read two by two (start, end).
pub open spec fn word_ranges(w: Seq<u64>) -> Seq<Range<u64>> {
    Seq::new(w.len() / 2, |k: int| Range { start: w[2 * k], end: w[2 * k + 1] })
}

/// The words can be read as ranges of `Q` at depth `depth`: an even number of words, and no
/// range ending beyond the largest value of the quantity.
pub open spec fn valid_range_words<Q: MocQty<u64>>(w: Seq<u64>, depth: u8) -> bool {
    &&& depth <= Q::MAX_DEPTH
    &&& w.len() % 2 == 0
    &&& ends_le(word_ranges(w), Q::spec_n_cells_max())
}

/// The MOC of depth `depth_max` made of the ranges stored in the data words (range ordering),
/// sorted, merged and degraded to `depth_max` (empty ranges hold nothing), or `None` when the
/// words cannot be read as ranges of the quantity.
pub fn decode_range_moc<Q: MocQty<u64>>(words: &Vec<u64>, depth_max: u8) -> (r: Option<RangeMOC<u64, Q>>)
    ensures
        r is Some <==> valid_range_words::<Q>(words@, depth_max),
        r matches Some(m) ==> {
            &&& m.wf()
            &&& m.depth() == depth_max
            &&& forall|x: int| #[trigger] m.has(x) <==> exists|k: int|
                0 <= k < word_ranges(words@).len() && #[trigger] range_degraded_has(
                    word_ranges(words@)[k],
                    cell_len::<Q>(depth_max as int),
                    x,
                )
        },
{
    if depth_max > Q::MAX_DEPTH || words.len() % 2 != 0 {
        return None;
    }
    let max = Q::n_cells_max();
    let len = words.len();
    let n = len / 2;
    let ghost wr = word_ranges(words@);
    let ghost p = cell_len::<Q>(depth_max as int);
    let mut builder = RangeMocBuilder::<u64, Q>::new(depth_max, None);
    let mut k: usize = 0;
    while k < n
        invariant
            n == words@.len() / 2,
            len == words@.len(),
            words@.len() % 2 == 0,
            wr == word_ranges(words@),
            depth_max <= Q::MAX_DEPTH,
            p == cell_len::<Q>(depth_max as int),
            max == Q::spec_n_cells_max(),
            k <= n,
            forall|j: int| 0 <= j < k ==> (#[trigger] wr[j]).end <= max,
            builder.wf(),
            builder.spec_depth() == depth_max,
            forall|x: int| #[trigger] builder.has(x) <==> exists|j: int|
                0 <= j < k && #[trigger] range_degraded_has(wr[j], p, x),
        decreases n - k,
    {
        proof {
            assert(2 * k + 1 < words@.len()) by (nonlinear_arith)
                requires
                    k < n,
                    n == words@.len() / 2,
            ;
        }
        let a = words[2 * k];
        let b = words[2 * k + 1];
        proof {
            assert(wr[k as int] == Range { start: a, end: b });
        }
        if b > max {
            proof {
                assert(!ends_le(wr, max as int)) by {
                    assert(wr[k as int].end > max);
                }
            }
            return None;
        }
        let ghost b0 = builder;
        builder.push(Range { start: a, end: b });
        proof {
            assert forall|x: int| #[trigger] builder.has(x) <==> exists|j: int|
                0 <= j < k + 1 && #[trigger] range_degraded_has(wr[j], p, x) by {
                if range_degraded_has(Range { start: a, end: b }, p, x) {
                    assert(range_degraded_has(wr[k as int], p, x));
                }
                if exists|j: int| 0 <= j < k + 1 && #[trigger] range_degraded_has(wr[j], p, x) {
                    let j = choose|j: int| 0 <= j < k + 1 && #[trigger] range_degraded_has(wr[j], p, x);
                    if j < k {
                        assert(b0.has(x));
                    }
                }
            }
        }
        k = k + 1;
    }
    Some(builder.into_moc())
}

/// Factor bringing a range bound of a MOC stored on `n_bytes` bytes (16, 32 or 64 bits) to the
/// 64-bit index space: the bits are shifted left by 48, 32 or 0.
pub open spec fn widen_factor(n_bytes: u8) -> int {
    if n_bytes == 2 {
        0x1_0000_0000_0000
    } else if n_bytes == 4 {
        0x1_0000_0000
    } else {
        1
    }
}

/// Upper bound (exclusive) of a value stored on `n_bytes` bytes.
pub open spec fn word_bound(n_bytes: u8) -> int {
    if n_bytes == 2 {
        0x1_0000
    } else if n_bytes == 4 {
        0x1_0000_0000
    } else {
        0x1_0000_0000_0000_0000
    }
}

/// The range bounds of a MOC stored on 16, 32 or 64-bit values, brought to the 64-bit index
/// space, or `None` when the size is not one of these or a value does not fit in it.
pub fn widen_range_words(words: &Vec<u64>, n_bytes: u8) -> (r: Option<Vec<u64>>)
    ensures
        r is Some <==> ((n_bytes == 2 || n_bytes == 4 || n_bytes == 8) && forall|k: int|
            0 <= k < words@.len() ==> (#[trigger] words@[k]) < word_bound(n_bytes)),
        r matches Some(v) ==> v@.len() == words@.len() && forall|k: int|
            0 <= k < words@.len() ==> #[trigger] v@[k] == words@[k] * widen_factor(n_bytes),
{
    if !(n_bytes == 2 || n_bytes == 4 || n_bytes == 8) {
        return None;
    }
    let f: u64 = if n_bytes == 2 { 0x1_0000_0000_0000 } else if n_bytes == 4 { 0x1_0000_0000 } else { 1 };
    let bound: u64 = if n_bytes == 2 { 0x1_0000 } else if n_bytes == 4 { 0x1_0000_0000 } else { u64::MAX };
    let n = words.len();
    let mut v: Vec<u64> = Vec::new();
    let mut k: usize = 0;
    while k < n
        invariant
            n == words@.len(),
            k <= n,
            n_bytes == 2 || n_bytes == 4 || n_bytes == 8,
            f == widen_factor(n_bytes),
            n_bytes == 8 || bound == word_bound(n_bytes),
            n_bytes == 8 ==> bound == u64::MAX,
            v@.len() == k,
            forall|j: int| 0 <= j < k ==> (#[trigger] words@[j]) < word_bound(n_bytes),
            forall|j: int| 0 <= j < k ==> #[trigger] v@[j] == words@[j] * widen_factor(n_bytes),
        decreases n - k,
    {
        let w = words[k];
        if n_bytes != 8 && w >= bound {
            return None;
        }
        proof {
            assert(w * f <= u64::MAX) by (nonlinear_arith)
                requires
                    (f == 0x1_0000_0000_0000 && w < 0x1_0000) || (f == 0x1_0000_0000 && w < 0x1_0000_0000) || f == 1,
            ;
        }
        v.push(w * f);
        k = k + 1;
    }
    Some(v)
}

/// The range, at the deepest resolution, of the HEALPix cell of uniq notation `u`.
pub open spec fn nuniq_range(u: u64) -> Range<u64> {
    cell_range::<Hpx<u64>>(choose|c: (u8, u64)| #[trigger] uniq_hpx_cell(u, c))
}

/// A data word of a NUNIQ table: 0 (ignored) or a valid uniq notation.
pub open spec fn valid_nuniq_word(u: u64) -> bool {
    u == 0 || 4 <= u < 0x4000_0000_0000_0000u64
}

/// The depth of an S-MOC, at most 29.
pub open spec fn clamp_hpx_depth(d: u8) -> u8 {
    if d <= 29 { d } else { 29 }
}

/// The S-MOC of depth `depth_max` (at most 29) made of the cells whose uniq notations are the
/// data words (NUNIQ ordering; words set to 0 are ignored, deeper cells are degraded to
/// `depth_max`), or `None` when a word is not a uniq notation.
pub fn decode_s_moc_nuniq(words: &Vec<u64>, depth_max: u8) -> (r: Option<RangeMOC<u64, Hpx<u64>>>)
    ensures
        r is Some <==> forall|k: int| 0 <= k < words@.len() ==> valid_nuniq_word(#[trigger] words@[k]),
        r matches Some(m) ==> {
            &&& m.wf()
            &&& m.depth() == clamp_hpx_depth(depth_max)
            &&& forall|x: int| #[trigger] m.has(x) <==> exists|k: int|
                0 <= k < words@.len() && words@[k] != 0 && #[trigger] range_degraded_has(
                    nuniq_range(words@[k]),
                    cell_len::<Hpx<u64>>(clamp_hpx_depth(depth_max) as int),
                    x,
                )
        },
{
    let d = if depth_max <= 29 { depth_max } else { 29 };
    proof {
        crate::qty::lemma_hpx_consts();
    }
    let mut builder = RangeMocBuilder::<u64, Hpx<u64>>::new(d, None);
    let ghost p = cell_len::<Hpx<u64>>(d as int);
    let n = words.len();
    let mut k: usize = 0;
    while k < n
        invariant
            n == words@.len(),
            k <= n,
            d == clamp_hpx_depth(depth_max),
            p == cell_len::<Hpx<u64>>(d as int),
            builder.wf(),
            builder.spec_depth() == d,
            forall|j: int| 0 <= j < k ==> valid_nuniq_word(#[trigger] words@[j]),
            forall|x: int| #[trigger] builder.has(x) <==> exists|j: int|
                0 <= j < k && words@[j] != 0 && #[trigger] range_degraded_has(nuniq_range(words@[j]), p, x),
        decreases n - k,
    {
        let u = words[k];
        if u != 0 {
            if u < 4 || u >= 0x4000_0000_0000_0000u64 {
                proof {
                    assert(!valid_nuniq_word(words@[k as int]));
                }
                return None;
            }
            let r = Hpx::<u64>::uniq_hpx_to_range(u);
            proof {
                let c = choose|c: (u8, u64)| #[trigger] uniq_hpx_cell(u, c);
                assert(uniq_hpx_cell(u, c));
                assert(r == nuniq_range(u));
            }
            let ghost b0 = builder;
            builder.push(r);
            proof {
                assert forall|x: int| #[trigger] builder.has(x) <==> exists|j: int|
                    0 <= j < k + 1 && words@[j] != 0 && #[trigger] range_degraded_has(nuniq_range(words@[j]), p, x) by {
                    if range_degraded_has(r, p, x) {
                        assert(words@[k as int] != 0 && range_degraded_has(nuniq_range(words@[k as int]), p, x));
                    }
                    if exists|j: int| 0 <= j < k + 1 && words@[j] != 0 && #[trigger] range_degraded_has(nuniq_range(words@[j]), p, x) {
                        let j = choose|j: int| 0 <= j < k + 1 && words@[j] != 0 && #[trigger] range_degraded_has(nuniq_range(words@[j]), p, x);
                        if j < k {
                            assert(b0.has(x));
                        }
                    }
                }
            }
        } else {
            proof {
                assert forall|x: int| #[trigger] builder.has(x) <==> exists|j: int|
                    0 <= j < k + 1 && words@[j] != 0 && #[trigger] range_degraded_has(nuniq_range(words@[j]), p, x) by {
                    if exists|j: int| 0 <= j < k + 1 && words@[j] != 0 && #[trigger] range_degraded_has(nuniq_range(words@[j]), p, x) {
                        let j = choose|j: int| 0 <= j < k + 1 && words@[j] != 0 && #[trigger] range_degraded_has(nuniq_range(words@[j]), p, x);
                        assert(j < k);
                    }
                }
            }
        }
        k = k + 1;
    }
    Some(builder.into_moc())
}

// ------------------------------------------------------------------------------------------
// Writing

/// The `len` bytes of the big-endian writing of `c`.
pub open spec fn be_bytes(c: nat, len: nat) -> Seq<u8>
    decreases len,
{
    if len == 0 {
        Seq::empty()
    } else {
        be_bytes(c / 256, (len - 1) as nat).push((c % 256) as u8)
    }
}

/// The decimal writing of `n`.
pub open spec fn dec_digits(n: nat) -> Seq<u8>
    decreases n,
{
    if n < 10 {
        seq![(48 + n) as u8]
    } else {
        dec_digits(n / 10).push((48 + n % 10) as u8)
    }
}

/// A character string value.
pub open spec fn quoted(c: Seq<u8>) -> Seq<u8> {
    seq![39u8] + c + seq![39u8]
}

/// A value that reads back as itself: 1 to 70 bytes, no `/`, no space at either end.
pub open spec fn plain(v: Seq<u8>) -> bool {
    &&& 1 <= v.len() <= 70
    &&& v[0] != 32
    &&& v[v.len() - 1] != 32
    &&& forall|j: int| 0 <= j < v.len() ==> #[trigger] v[j] != 47
}

/// The card of keyword field `kw` (8 bytes) and value `val`.
pub open spec fn mk_card(kw: Seq<u8>, val: Seq<u8>) -> Seq<u8> {
    kw + seq![61u8, 32u8] + val + Seq::new((70 - val.len()) as nat, |_j: int| 32u8)
}

/// The card of the keyword `kw` and value `val`.
pub open spec fn kw_card(kw: u64, val: Seq<u8>) -> Seq<u8> {
    mk_card(be_bytes(kw as nat, 8), val)
}

/// The `END` card.
pub open spec fn end_card() -> Seq<u8> {
    be_bytes(KW_END4 as nat, 4) + Seq::new(76, |_j: int| 32u8)
}

/// A blank card.
pub open spec fn blank_card() -> Seq<u8> {
    Seq::new(80, |_j: int| 32u8)
}

/// The cards laid end to end.
pub open spec fn flat(cs: Seq<Seq<u8>>) -> Seq<u8>
    decreases cs.len(),
{
    if cs.len() == 0 {
        Seq::empty()
    } else {
        flat(cs.drop_last()) + cs.last()
    }
}

/// Value of `MOCDIM` for the kind.
pub open spec fn dim_text(kind: FitsMocKind) -> (nat, nat) {
    match kind {
        FitsMocKind::SpaceNuniq | FitsMocKind::SpaceRange => (S_SPACE as nat, 5),
        FitsMocKind::TimeRange => (S_TIME as nat, 4),
        FitsMocKind::FrequencyRange => (S_FREQUENCY as nat, 9),
        _ => (S_TIME_SPACE as nat, 10),
    }
}

/// Value of `ORDERING` for the kind.
pub open spec fn ordering_text(kind: FitsMocKind) -> (nat, nat) {
    match kind {
        FitsMocKind::SpaceNuniq => (S_NUNIQ as nat, 5),
        _ => (S_RANGE as nat, 5),
    }
}

/// Value of `TFORM1` for the column type.
pub open spec fn tform_text(t: TForm1) -> nat {
    match t {
        TForm1::OneI => S_1I as nat,
        TForm1::OneJ => S_1J as nat,
        TForm1::OneK => S_1K as nat,
    }
}

/// The header that [`fits_moc_header_cards`] writes, read back.
pub open spec fn written_header(kind: FitsMocKind, depth_1: u8, depth_2: u8, naxis2: u64, tform: TForm1) -> FitsMocHeader {
    FitsMocHeader {
        kind,
        depth_1,
        depth_2: if kind == FitsMocKind::TimeSpaceRange { depth_2 } else { 0 },
        naxis1: tform_bytes(tform),
        naxis2,
        tform: Some(tform),
    }
}

proof fn lemma_packr_eq(s: Seq<u8>, lo: int, t: Seq<u8>, m: int, len: int)
    requires
        0 <= len,
        forall|k: int| 0 <= k < len ==> #[trigger] s[lo + k] == t[m + k],
    ensures
        packr(s, lo, lo + len) == packr(t, m, m + len),
    decreases len,
{
    if len > 0 {
        lemma_packr_eq(s, lo, t, m, len - 1);
        assert(s[lo + (len - 1)] == t[m + (len - 1)]);
    }
}

proof fn lemma_dec_eq(s: Seq<u8>, lo: int, t: Seq<u8>, m: int, len: int)
    requires
        0 <= len,
        forall|k: int| 0 <= k < len ==> #[trigger] s[lo + k] == t[m + k],
    ensures
        dec_val(s, lo, lo + len) == dec_val(t, m, m + len),
    decreases len,
{
    if len > 0 {
        lemma_dec_eq(s, lo, t, m, len - 1);
        assert(s[lo + (len - 1)] == t[m + (len - 1)]);
    }
}

proof fn lemma_be_bytes(c: nat, len: nat)
    requires
        c < pow(256, len),
    ensures
        be_bytes(c, len).len() == len,
        packr(be_bytes(c, len), 0, len as int) == c,
    decreases len,
{
    reveal(pow);
    if len > 0 {
        let q = c / 256;
        let pp = pow(256, (len - 1) as nat);
        assert(pow(256, len) == 256 * pp);
        assert(q < pp) by (nonlinear_arith)
            requires
                c < 256 * pp,
                q == c / 256,
        ;
        lemma_be_bytes(q, (len - 1) as nat);
        let s = be_bytes(c, len);
        let s0 = be_bytes(q, (len - 1) as nat);
        assert(s == s0.push((c % 256) as u8));
        lemma_packr_eq(s, 0, s0, 0, len - 1);
        assert(c == q * 256 + c % 256);
    }
}

proof fn lemma_dec_digits(n: nat)
    ensures
        1 <= dec_digits(n).len(),
        all_digits(dec_digits(n), 0, dec_digits(n).len() as int),
        dec_val(dec_digits(n), 0, dec_digits(n).len() as int) == n,
    decreases n,
{
    if n >= 10 {
        lemma_dec_digits(n / 10);
        let s0 = dec_digits(n / 10);
        let s = dec_digits(n);
        assert(s == s0.push((48 + n % 10) as u8));
        assert forall|k: int| 0 <= k < s0.len() implies #[trigger] s[0 + k] == s0[0 + k] by {}
        lemma_dec_eq(s, 0, s0, 0, s0.len() as int);
        assert forall|k: int| 0 <= k < s.len() implies 48 <= #[trigger] s[k] <= 57 by {
            if k < s0.len() {
                assert(s[k] == s0[k]);
            }
        }
        assert(dec_val(s, 0, s.len() as int) == dec_val(s, 0, s0.len() as int) * 10 + (s[s0.len() as int] - 48));
        assert(n == (n / 10) * 10 + n % 10);
    } else {
        let s = dec_digits(n);
        assert(s.len() == 1);
        assert(dec_val(s, 0, 0) == 0);
        assert(dec_val(s, 0, 1) == dec_val(s, 0, 0) * 10 + (s[0] - 48));
    }
}

proof fn lemma_dec_len(n: nat, k: nat)
    requires
        1 <= k,
        n < pow(10, k),
    ensures
        dec_digits(n).len() <= k,
    decreases n,
{
    reveal(pow);
    if n >= 10 {
        let pp = pow(10, (k - 1) as nat);
        assert(pow(10, k) == 10 * pp);
        if k == 1 {
            assert(pow(10, 0) == 1);
        } else {
            assert(n / 10 < pp) by (nonlinear_arith)
                requires
                    n < 10 * pp,
            ;
            lemma_dec_len(n / 10, (k - 1) as nat);
        }
    }
}

proof fn lemma_no_slash(s: Seq<u8>, k: int, end: int)
    requires
        k <= end,
        forall|j: int| k <= j < end ==> s[j] != 47,
    ensures
        first_slash(s, k, end) == end,
    decreases end - k,
{
    if k < end {
        lemma_no_slash(s, k + 1, end);
    }
}

proof fn lemma_trailing(s: Seq<u8>, lo: int, k: int, end: int)
    requires
        lo < k <= end,
        s[k - 1] != 32,
        forall|j: int| k <= j < end ==> s[j] == 32,
    ensures
        back_sp(s, lo, end) == k,
    decreases end - k,
{
    if k < end {
        lemma_trailing(s, lo, k, end - 1);
    }
}

/// Reading back the card `mk_card(kw, val)` laid at `b`.
proof fn lemma_read_card(s: Seq<u8>, b: int, kw: Seq<u8>, val: Seq<u8>)
    requires
        0 <= b,
        b + 80 <= s.len(),
        kw.len() == 8,
        plain(val),
        forall|k: int| 0 <= k < 80 ==> s[b + k] == #[trigger] mk_card(kw, val)[k],
    ensures
        packr(s, b, b + 8) == packr(kw, 0, 8),
        packr(s, b, b + 4) == packr(kw, 0, 4),
        s[b + 8] == 61,
        s[b + 9] == 32,
        val_lo(s, b) == b + 10,
        val_hi(s, b) == b + 10 + val.len(),
        forall|k: int| 0 <= k < val.len() ==> s[b + 10 + k] == val[k],
{
    let c = mk_card(kw, val);
    let n = val.len() as int;
    assert forall|k: int| 0 <= k < 8 implies s[b + k] == kw[k] by {
        assert(s[b + k] == c[k]);
    }
    lemma_packr_eq(s, b, kw, 0, 8);
    lemma_packr_eq(s, b, kw, 0, 4);
    assert(s[b + 8] == c[8]);
    assert(s[b + 9] == c[9]);
    assert forall|k: int| 0 <= k < n implies s[b + 10 + k] == val[k] by {
        assert(s[b + (10 + k)] == c[10 + k]);
    }
    assert forall|j: int| b + 10 + n <= j < b + 80 implies s[j] == 32 by {
        assert(s[b + (j - b)] == c[j - b]);
    }
    assert forall|j: int| b + 10 <= j < b + 80 implies s[j] != 47 by {
        assert(s[b + (j - b)] == c[j - b]);
        if j - b - 10 < n {
            assert(val[j - b - 10] != 47);
        }
    }
    lemma_no_slash(s, b + 10, b + 80);
    assert(s[b + 10] == val[0]);
    assert(skip_sp(s, b + 10, b + 80) == b + 10);
    assert(s[b + 10 + (n - 1)] == val[n - 1]);
    lemma_trailing(s, b + 10, b + 10 + n, b + 80);
}

/// A quoted value read back: its content.
proof fn lemma_read_content(s: Seq<u8>, lo: int, c: Seq<u8>)
    requires
        0 <= lo,
        1 <= c.len(),
        c[c.len() - 1] != 32,
        lo + c.len() + 2 <= s.len(),
        forall|k: int| 0 <= k < c.len() + 2 ==> s[lo + k] == #[trigger] quoted(c)[k],
    ensures
        content_is(s, lo, lo + c.len() + 2, c.len() as int, packr(c, 0, c.len() as int)),
{
    let q = quoted(c);
    let n = c.len() as int;
    let hi = lo + n + 2;
    assert(s[lo + 0] == q[0]);
    assert(s[lo + (n + 1)] == q[n + 1]);
    assert forall|k: int| 0 <= k < n implies s[lo + 1 + k] == c[k] by {
        assert(s[lo + (k + 1)] == q[k + 1]);
    }
    assert(s[lo + n] == q[n]);
    lemma_trailing(s, lo + 1, hi - 1, hi - 1);
    lemma_packr_eq(s, lo + 1, c, 0, n);
}

proof fn lemma_flat(cs: Seq<Seq<u8>>)
    requires
        forall|i: int| 0 <= i < cs.len() ==> (#[trigger] cs[i]).len() == 80,
    ensures
        flat(cs).len() == 80 * cs.len(),
        forall|i: int, k: int| 0 <= i < cs.len() && 0 <= k < 80 ==> flat(cs)[80 * i + k] == #[trigger] cs[i][k],
    decreases cs.len(),
{
    if cs.len() > 0 {
        let c0 = cs.drop_last();
        lemma_flat(c0);
        assert forall|i: int, k: int| 0 <= i < cs.len() && 0 <= k < 80 implies flat(cs)[80 * i + k] == #[trigger] cs[i][k] by {
            if i < c0.len() {
                assert(c0[i] == cs[i]);
                assert(flat(c0)[80 * i + k] == c0[i][k]);
            }
        }
    }
}

/// Pushes the `len` bytes of the big-endian writing of `c`.
fn push_be(v: &mut Vec<u8>, c: u128, len: usize)
    ensures
        final(v)@ == old(v)@ + be_bytes(c as nat, len as nat),
    decreases len,
{
    if len == 0 {
        assert(old(v)@ + be_bytes(c as nat, 0) =~= old(v)@);
        return;
    }
    push_be(v, c / 256, len - 1);
    v.push((c % 256) as u8);
    proof {
        assert(be_bytes(c as nat, len as nat) == be_bytes((c / 256) as nat, (len - 1) as nat).push((c % 256) as u8));
        assert(final(v)@ =~= old(v)@ + be_bytes(c as nat, len as nat));
    }
}

/// Pushes the decimal writing of `n`.
fn push_dec(v: &mut Vec<u8>, n: u64)
    ensures
        final(v)@ == old(v)@ + dec_digits(n as nat),
    decreases n,
{
    if n >= 10 {
        push_dec(v, n / 10);
    }
    v.push((48 + n % 10) as u8);
    proof {
        if n >= 10 {
            assert(final(v)@ =~= old(v)@ + dec_digits(n as nat));
        } else {
            assert(final(v)@ =~= old(v)@ + dec_digits(n as nat));
        }
    }
}

/// Pushes the card of keyword `kw` and value `val`.
fn push_card(v: &mut Vec<u8>, kw: u64, val: &Vec<u8>)
    requires
        val@.len() <= 70,
    ensures
        final(v)@ == old(v)@ + kw_card(kw, val@),
{
    push_be(v, kw as u128, 8);
    v.push(61);
    v.push(32);
    let mut j: usize = 0;
    let n = val.len();
    while j < n
        invariant
            n == val@.len(),
            j <= n,
            v@ == old(v)@ + be_bytes(kw as nat, 8) + seq![61u8, 32u8] + val@.take(j as int),
        decreases n - j,
    {
        v.push(val[j]);
        proof {
            assert(val@.take(j + 1) =~= val@.take(j as int).push(val@[j as int]));
        }
        j = j + 1;
    }
    let mut k: usize = n;
    while k < 70
        invariant
            n == val@.len(),
            n <= k <= 70,
            v@ == old(v)@ + be_bytes(kw as nat, 8) + seq![61u8, 32u8] + val@ + Seq::new((k - n) as nat, |_j: int| 32u8),
        decreases 70 - k,
    {
        v.push(32);
        proof {
            assert(Seq::new((k + 1 - n) as nat, |_j: int| 32u8) =~= Seq::new((k - n) as nat, |_j: int| 32u8).push(32u8));
        }
        k = k + 1;
    }
    proof {
        assert(val@.take(n as int) =~= val@);
        assert(final(v)@ =~= old(v)@ + kw_card(kw, val@));
    }
}

/// The bytes of a quoted string value of `len` bytes.
fn quoted_text(c: u128, len: usize) -> (r: Vec<u8>)
    ensures
        r@ == quoted(be_bytes(c as nat, len as nat)),
{
    let mut r: Vec<u8> = Vec::new();
    r.push(39);
    push_be(&mut r, c, len);
    r.push(39);
    proof {
        assert(r@ =~= quoted(be_bytes(c as nat, len as nat)));
    }
    r
}

/// The bytes of a decimal value.
fn dec_text(n: u64) -> (r: Vec<u8>)
    ensures
        r@ == dec_digits(n as nat),
{
    let mut r: Vec<u8> = Vec::new();
    push_dec(&mut r, n);
    proof {
        assert(r@ =~= dec_digits(n as nat));
    }
    r
}

/// The bytes of a value written as is.
fn raw_text(c: u128, len: usize) -> (r: Vec<u8>)
    ensures
        r@ == be_bytes(c as nat, len as nat),
{
    let mut r: Vec<u8> = Vec::new();
    push_be(&mut r, c, len);
    proof {
        assert(r@ =~= be_bytes(c as nat, len as nat));
    }
    r
}

/// The cards of the header written for `kind`, up to the `END` card.
pub open spec fn main_cards(kind: FitsMocKind, depth_1: u8, depth_2: u8, naxis2: u64, tform: TForm1) -> Seq<Seq<u8>> {
    seq![
        kw_card(KW_XTENSION, be_bytes(V_BINTABLE as nat, 10)),
        kw_card(KW_BITPIX, be_bytes(V_8 as nat, 1)),
        kw_card(KW_NAXIS, be_bytes(V_2 as nat, 1)),
        kw_card(KW_NAXIS1, dec_digits(tform_bytes(tform) as nat)),
        kw_card(KW_NAXIS2, dec_digits(naxis2 as nat)),
        kw_card(KW_PCOUNT, be_bytes(V_0 as nat, 1)),
        kw_card(KW_GCOUNT, be_bytes(V_1 as nat, 1)),
        kw_card(KW_TFIELDS, be_bytes(V_1 as nat, 1)),
        kw_card(KW_TFORM1, quoted(be_bytes(tform_text(tform), 2))),
        kw_card(KW_MOCVERS, quoted(be_bytes(S_V2 as nat, 3))),
        kw_card(KW_MOCDIM, quoted(be_bytes(dim_text(kind).0, dim_text(kind).1))),
        kw_card(KW_ORDERING, quoted(be_bytes(ordering_text(kind).0, 5))),
    ] + match kind {
        FitsMocKind::SpaceNuniq | FitsMocKind::SpaceRange => seq![
            kw_card(KW_MOCORD_S, dec_digits(depth_1 as nat)),
            kw_card(KW_COORDSYS, quoted(be_bytes(S_C as nat, 1))),
            end_card(),
        ],
        FitsMocKind::TimeRange => seq![kw_card(KW_MOCORD_T, dec_digits(depth_1 as nat)), end_card()],
        FitsMocKind::FrequencyRange => seq![kw_card(KW_MOCORD_F, dec_digits(depth_1 as nat)), end_card()],
        _ => seq![
            kw_card(KW_MOCORD_T, dec_digits(depth_1 as nat)),
            kw_card(KW_MOCORD_S, dec_digits(depth_2 as nat)),
            end_card(),
        ],
    }
}

proof fn lemma_flat_push(cs: Seq<Seq<u8>>, c: Seq<u8>)
    ensures
        flat(cs.push(c)) == flat(cs) + c,
{
    assert(cs.push(c).drop_last() =~= cs);
}

/// The facts on the concrete bytes written.
proof fn lemma_texts()
    ensures
        be_bytes(V_BINTABLE as nat, 10) == seq![39u8, 66, 73, 78, 84, 65, 66, 76, 69, 39],
        be_bytes(V_8 as nat, 1) == seq![56u8],
        be_bytes(V_2 as nat, 1) == seq![50u8],
        be_bytes(V_0 as nat, 1) == seq![48u8],
        be_bytes(V_1 as nat, 1) == seq![49u8],
        be_bytes(S_1I as nat, 2) == seq![49u8, 73],
        be_bytes(S_1J as nat, 2) == seq![49u8, 74],
        be_bytes(S_1K as nat, 2) == seq![49u8, 75],
        be_bytes(S_V2 as nat, 3) == seq![50u8, 46, 48],
        be_bytes(S_SPACE as nat, 5) == seq![83u8, 80, 65, 67, 69],
        be_bytes(S_TIME as nat, 4) == seq![84u8, 73, 77, 69],
        be_bytes(S_FREQUENCY as nat, 9) == seq![70u8, 82, 69, 81, 85, 69, 78, 67, 89],
        be_bytes(S_TIME_SPACE as nat, 10) == seq![84u8, 73, 77, 69, 46, 83, 80, 65, 67, 69],
        be_bytes(S_NUNIQ as nat, 5) == seq![78u8, 85, 78, 73, 81],
        be_bytes(S_RANGE as nat, 5) == seq![82u8, 65, 78, 71, 69],
        be_bytes(S_C as nat, 1) == seq![67u8],
        be_bytes(KW_END4 as nat, 4) == seq![69u8, 78, 68, 32],
        packr(be_bytes(KW_TFORM1 as nat, 8), 0, 4) == 0x5446_4F52,
        packr(be_bytes(KW_MOCVERS as nat, 8), 0, 4) == 0x4D4F_4356,
        packr(be_bytes(KW_MOCDIM as nat, 8), 0, 4) == 0x4D4F_4344,
        packr(be_bytes(KW_ORDERING as nat, 8), 0, 4) == 0x4F52_4445,
        packr(be_bytes(KW_MOCORD_S as nat, 8), 0, 4) == 0x4D4F_434F,
        packr(be_bytes(KW_MOCORD_T as nat, 8), 0, 4) == 0x4D4F_434F,
        packr(be_bytes(KW_MOCORD_F as nat, 8), 0, 4) == 0x4D4F_434F,
        packr(be_bytes(KW_COORDSYS as nat, 8), 0, 4) == 0x434F_4F52,
{
    reveal_with_fuel(be_bytes, 11);
    reveal_with_fuel(packr, 5);
    assert(be_bytes(V_BINTABLE as nat, 10) =~= seq![39u8, 66, 73, 78, 84, 65, 66, 76, 69, 39]);
    assert(be_bytes(V_8 as nat, 1) =~= seq![56u8]);
    assert(be_bytes(V_2 as nat, 1) =~= seq![50u8]);
    assert(be_bytes(V_0 as nat, 1) =~= seq![48u8]);
    assert(be_bytes(V_1 as nat, 1) =~= seq![49u8]);
    assert(be_bytes(S_1I as nat, 2) =~= seq![49u8, 73]);
    assert(be_bytes(S_1J as nat, 2) =~= seq![49u8, 74]);
    assert(be_bytes(S_1K as nat, 2) =~= seq![49u8, 75]);
    assert(be_bytes(S_V2 as nat, 3) =~= seq![50u8, 46, 48]);
    assert(be_bytes(S_SPACE as nat, 5) =~= seq![83u8, 80, 65, 67, 69]);
    assert(be_bytes(S_TIME as nat, 4) =~= seq![84u8, 73, 77, 69]);
    assert(be_bytes(S_FREQUENCY as nat, 9) =~= seq![70u8, 82, 69, 81, 85, 69, 78, 67, 89]);
    assert(be_bytes(S_TIME_SPACE as nat, 10) =~= seq![84u8, 73, 77, 69, 46, 83, 80, 65, 67, 69]);
    assert(be_bytes(S_NUNIQ as nat, 5) =~= seq![78u8, 85, 78, 73, 81]);
    assert(be_bytes(S_RANGE as nat, 5) =~= seq![82u8, 65, 78, 71, 69]);
    assert(be_bytes(S_C as nat, 1) =~= seq![67u8]);
    assert(be_bytes(KW_END4 as nat, 4) =~= seq![69u8, 78, 68, 32]);
    assert(packr(be_bytes(KW_TFORM1 as nat, 8), 0, 4) == 0x5446_4F52);
    assert(packr(be_bytes(KW_MOCVERS as nat, 8), 0, 4) == 0x4D4F_4356);
    assert(packr(be_bytes(KW_MOCDIM as nat, 8), 0, 4) == 0x4D4F_4344);
    assert(packr(be_bytes(KW_ORDERING as nat, 8), 0, 4) == 0x4F52_4445);
    assert(packr(be_bytes(KW_MOCORD_S as nat, 8), 0, 4) == 0x4D4F_434F);
    assert(packr(be_bytes(KW_MOCORD_T as nat, 8), 0, 4) == 0x4D4F_434F);
    assert(packr(be_bytes(KW_MOCORD_F as nat, 8), 0, 4) == 0x4D4F_434F);
    assert(packr(be_bytes(KW_COORDSYS as nat, 8), 0, 4) == 0x434F_4F52);
}

proof fn lemma_pow_small()
    ensures
        pow(256, 1) == 0x100,
        pow(256, 2) == 0x1_0000,
        pow(256, 3) == 0x100_0000,
        pow(256, 4) == 0x1_0000_0000,
        pow(256, 5) == 0x100_0000_0000,
        pow(256, 9) == 0x1_0000_0000_0000_0000_00,
        pow(256, 10) == 0x1_0000_0000_0000_0000_0000,
        pow(10, 20) == 100_000_000_000_000_000_000,
{
    reveal_with_fuel(pow, 21);
}

/// A quoted word is a plain value.
proof fn lemma_plain_quoted(c: Seq<u8>)
    requires
        1 <= c.len() <= 68,
        c[c.len() - 1] != 32,
        forall|j: int| 0 <= j < c.len() ==> #[trigger] c[j] != 47,
    ensures
        plain(quoted(c)),
        quoted(c).len() == c.len() + 2,
{
    let q = quoted(c);
    assert forall|j: int| 0 <= j < q.len() implies #[trigger] q[j] != 47 by {
        if 1 <= j <= c.len() {
            assert(q[j] == c[j - 1]);
        }
    }
}

/// A decimal writing is a plain value.
proof fn lemma_plain_dec(n: nat)
    requires
        n <= u64::MAX,
    ensures
        plain(dec_digits(n)),
        all_digits(dec_digits(n), 0, dec_digits(n).len() as int),
        dec_val(dec_digits(n), 0, dec_digits(n).len() as int) == n,
{
    lemma_dec_digits(n);
    lemma_pow_small();
    lemma_dec_len(n, 20);
    let d = dec_digits(n);
    assert(48 <= d[0] <= 57);
    assert(48 <= d[d.len() - 1] <= 57);
    assert forall|j: int| 0 <= j < d.len() implies #[trigger] d[j] != 47 by {
        assert(48 <= d[j] <= 57);
    }
}

/// A mandatory card of fixed value, read back.
proof fn lemma_fixed_card(s: Seq<u8>, i: int, c: Seq<u8>, kw: u64, code: nat, len: nat)
    requires
        0 <= i,
        80 * i + 80 <= s.len(),
        code < pow(256, len),
        plain(be_bytes(code, len)),
        c == kw_card(kw, be_bytes(code, len)),
        forall|k: int| 0 <= k < 80 ==> s[80 * i + k] == #[trigger] c[k],
    ensures
        kw_ok(s, i, kw as int),
        val_is(s, i, len as int, code as int),
{
    lemma_pow_256();
    lemma_be_bytes(kw as nat, 8);
    lemma_be_bytes(code, len);
    let b = 80 * i;
    let v = be_bytes(code, len);
    assert forall|k: int| 0 <= k < 80 implies s[b + k] == #[trigger] mk_card(be_bytes(kw as nat, 8), v)[k] by {
        assert(s[80 * i + k] == c[k]);
    }
    lemma_read_card(s, b, be_bytes(kw as nat, 8), v);
    assert forall|k: int| 0 <= k < len implies #[trigger] s[(b + 10) + k] == v[0 + k] by {
        assert(s[b + 10 + k] == v[k]);
    }
    lemma_packr_eq(s, b + 10, v, 0, len as int);
}

/// A card of unsigned integer value, read back.
proof fn lemma_uint_card(s: Seq<u8>, i: int, c: Seq<u8>, kw: u64, n: nat)
    requires
        0 <= i,
        80 * i + 80 <= s.len(),
        n <= u64::MAX,
        c == kw_card(kw, dec_digits(n)),
        forall|k: int| 0 <= k < 80 ==> s[80 * i + k] == #[trigger] c[k],
    ensures
        kw_ok(s, i, kw as int),
        card_uint(s, i) == Some(n as int),
        val_lo(s, 80 * i) == 80 * i + 10,
        val_hi(s, 80 * i) == 80 * i + 10 + dec_digits(n).len(),
        uint_val(s, 80 * i + 10, 80 * i + 10 + dec_digits(n).len()) == Some(n as int),
{
    lemma_pow_256();
    lemma_be_bytes(kw as nat, 8);
    lemma_plain_dec(n);
    let b = 80 * i;
    let v = dec_digits(n);
    assert forall|k: int| 0 <= k < 80 implies s[b + k] == #[trigger] mk_card(be_bytes(kw as nat, 8), v)[k] by {
        assert(s[80 * i + k] == c[k]);
    }
    lemma_read_card(s, b, be_bytes(kw as nat, 8), v);
    assert forall|k: int| 0 <= k < v.len() implies #[trigger] s[(b + 10) + k] == v[0 + k] by {
        assert(s[b + 10 + k] == v[k]);
    }
    lemma_dec_eq(s, b + 10, v, 0, v.len() as int);
    assert forall|k: int| b + 10 <= k < b + 10 + v.len() implies 48 <= #[trigger] s[k] <= 57 by {
        assert(s[b + 10 + (k - b - 10)] == v[k - b - 10]);
    }
}

/// A MOC keyword card, read back: what its value gives.
proof fn lemma_moc_card(s: Seq<u8>, i: int, c: Seq<u8>, kw: u64, val: Seq<u8>)
    requires
        0 <= i,
        80 * i + 80 <= s.len(),
        plain(val),
        is_moc_kw(kw as int),
        packr(be_bytes(kw as nat, 8), 0, 4) != KW_END4,
        c == kw_card(kw, val),
        forall|k: int| 0 <= k < 80 ==> s[80 * i + k] == #[trigger] c[k],
    ensures
        card_kind(s, i, false) == moc_value(moc_kw_of(kw as int), s, 80 * i + 10, 80 * i + 10 + val.len(), false),
        forall|k: int| 0 <= k < val.len() ==> s[(80 * i + 10) + k] == #[trigger] val[k],
{
    lemma_pow_256();
    lemma_be_bytes(kw as nat, 8);
    let b = 80 * i;
    assert forall|k: int| 0 <= k < 80 implies s[b + k] == #[trigger] mk_card(be_bytes(kw as nat, 8), val)[k] by {
        assert(s[80 * i + k] == c[k]);
    }
    lemma_read_card(s, b, be_bytes(kw as nat, 8), val);
    assert forall|k: int| 0 <= k < val.len() implies s[(80 * i + 10) + k] == #[trigger] val[k] by {
        assert(s[b + 10 + k] == val[k]);
    }
}

/// A quoted word read back, at `lo`: the content tests it meets.
proof fn lemma_content_at(s: Seq<u8>, lo: int, code: nat, len: nat)
    requires
        0 <= lo,
        1 <= len <= 68,
        code < pow(256, len),
        lo + len + 2 <= s.len(),
        be_bytes(code, len)[len - 1] != 32,
        forall|k: int| 0 <= k < len + 2 ==> s[lo + k] == #[trigger] quoted(be_bytes(code, len))[k],
    ensures
        forall|l: int, cd: int| #[trigger] content_is(s, lo, lo + len + 2, l, cd) <==> (l == len && cd == code),
{
    lemma_be_bytes(code, len);
    let c = be_bytes(code, len);
    lemma_read_content(s, lo, c);
    let hi = lo + len + 2;
    assert(back_sp(s, lo + 1, hi - 1) == hi - 1) by {
        let q = quoted(c);
        assert(s[lo + len] == q[len as int]);
        lemma_trailing(s, lo + 1, hi - 1, hi - 1);
    }
    assert(packr(s, lo + 1, hi - 1) == code);
}

/// A card of quoted value `be_bytes(code, len)`, read back.
proof fn lemma_str_card(s: Seq<u8>, i: int, c: Seq<u8>, kw: u64, code: nat, len: nat)
    requires
        0 <= i,
        80 * i + 80 <= s.len(),
        1 <= len <= 10,
        code < pow(256, len),
        be_bytes(code, len)[len - 1] != 32,
        forall|j: int| 0 <= j < len ==> #[trigger] be_bytes(code, len)[j] != 47,
        is_moc_kw(kw as int),
        packr(be_bytes(kw as nat, 8), 0, 4) != KW_END4,
        c == kw_card(kw, quoted(be_bytes(code, len))),
        forall|k: int| 0 <= k < 80 ==> s[80 * i + k] == #[trigger] c[k],
    ensures
        card_kind(s, i, false) == moc_value(moc_kw_of(kw as int), s, 80 * i + 10, 80 * i + 10 + len + 2, false),
        forall|l: int, cd: int| #[trigger] content_is(s, 80 * i + 10, 80 * i + 10 + len + 2, l, cd) <==> (l == len && cd == code),
{
    lemma_be_bytes(code, len);
    let t = be_bytes(code, len);
    lemma_plain_quoted(t);
    lemma_moc_card(s, i, c, kw, quoted(t));
    lemma_content_at(s, 80 * i + 10, code, len);
}

/// A card of depth value `d`, read back.
proof fn lemma_depth_card(s: Seq<u8>, i: int, c: Seq<u8>, kw: u64, d: u8)
    requires
        0 <= i,
        80 * i + 80 <= s.len(),
        is_moc_kw(kw as int),
        packr(be_bytes(kw as nat, 8), 0, 4) != KW_END4,
        c == kw_card(kw, dec_digits(d as nat)),
        forall|k: int| 0 <= k < 80 ==> s[80 * i + k] == #[trigger] c[k],
    ensures
        card_kind(s, i, false) == moc_value(moc_kw_of(kw as int), s, 80 * i + 10, 80 * i + 10 + dec_digits(d as nat).len(), false),
        depth_val(s, 80 * i + 10, 80 * i + 10 + dec_digits(d as nat).len()) == Some(d),
{
    lemma_plain_dec(d as nat);
    lemma_uint_card(s, i, c, kw, d as nat);
    lemma_moc_card(s, i, c, kw, dec_digits(d as nat));
}

/// The `END` card, read back.
proof fn lemma_end_at(s: Seq<u8>, i: int, c: Seq<u8>)
    requires
        0 <= i,
        80 * i + 80 <= s.len(),
        c == end_card(),
        forall|k: int| 0 <= k < 80 ==> s[80 * i + k] == #[trigger] c[k],
    ensures
        card_kind(s, i, false) == CardKind::End,
        packr(s, 80 * i, 80 * i + 4) == KW_END4,
{
    lemma_texts();
    lemma_pow_small();
    assert forall|k: int| 0 <= k < 4 implies #[trigger] s[80 * i + k] == be_bytes(KW_END4 as nat, 4)[0 + k] by {
        assert(s[80 * i + k] == c[k]);
    }
    lemma_be_bytes(KW_END4 as nat, 4);
    lemma_packr_eq(s, 80 * i, be_bytes(KW_END4 as nat, 4), 0, 4);
}

/// The 8 mandatory cards written, read back.
proof fn lemma_mandatory_written(s: Seq<u8>, mc: Seq<Seq<u8>>, naxis2: u64, tform: TForm1)
    requires
        80 * 8 <= s.len(),
        mc.len() >= 8,
        mc[0] == kw_card(KW_XTENSION, be_bytes(V_BINTABLE as nat, 10)),
        mc[1] == kw_card(KW_BITPIX, be_bytes(V_8 as nat, 1)),
        mc[2] == kw_card(KW_NAXIS, be_bytes(V_2 as nat, 1)),
        mc[3] == kw_card(KW_NAXIS1, dec_digits(tform_bytes(tform) as nat)),
        mc[4] == kw_card(KW_NAXIS2, dec_digits(naxis2 as nat)),
        mc[5] == kw_card(KW_PCOUNT, be_bytes(V_0 as nat, 1)),
        mc[6] == kw_card(KW_GCOUNT, be_bytes(V_1 as nat, 1)),
        mc[7] == kw_card(KW_TFIELDS, be_bytes(V_1 as nat, 1)),
        forall|i: int, k: int| 0 <= i < 8 && 0 <= k < 80 ==> s[80 * i + k] == #[trigger] mc[i][k],
    ensures
        kw_ok(s, 0, KW_XTENSION as int),
        val_is(s, 0, 10, V_BINTABLE as int),
        kw_ok(s, 1, KW_BITPIX as int),
        val_is(s, 1, 1, V_8 as int),
        kw_ok(s, 2, KW_NAXIS as int),
        val_is(s, 2, 1, V_2 as int),
        kw_ok(s, 3, KW_NAXIS1 as int),
        card_uint(s, 3) == Some(tform_bytes(tform) as int),
        kw_ok(s, 4, KW_NAXIS2 as int),
        card_uint(s, 4) == Some(naxis2 as int),
        kw_ok(s, 5, KW_PCOUNT as int),
        val_is(s, 5, 1, V_0 as int),
        kw_ok(s, 6, KW_GCOUNT as int),
        val_is(s, 6, 1, V_1 as int),
        kw_ok(s, 7, KW_TFIELDS as int),
        val_is(s, 7, 1, V_1 as int),
{
    lemma_texts();
    lemma_pow_small();
    lemma_fixed_card(s, 0, mc[0], KW_XTENSION, V_BINTABLE as nat, 10);
    lemma_fixed_card(s, 1, mc[1], KW_BITPIX, V_8 as nat, 1);
    lemma_fixed_card(s, 2, mc[2], KW_NAXIS, V_2 as nat, 1);
    lemma_uint_card(s, 3, mc[3], KW_NAXIS1, tform_bytes(tform) as nat);
    lemma_uint_card(s, 4, mc[4], KW_NAXIS2, naxis2 as nat);
    lemma_fixed_card(s, 5, mc[5], KW_PCOUNT, V_0 as nat, 1);
    lemma_fixed_card(s, 6, mc[6], KW_GCOUNT, V_1 as nat, 1);
    lemma_fixed_card(s, 7, mc[7], KW_TFIELDS, V_1 as nat, 1);
}

/// The `TFORM1`, `MOCVERS`, `MOCDIM` and `ORDERING` cards written, read back.
proof fn lemma_common_written(s: Seq<u8>, mc: Seq<Seq<u8>>, kind: FitsMocKind, tform: TForm1)
    requires
        kind != FitsMocKind::TimeSpaceRange29,
        80 * 12 <= s.len(),
        mc.len() >= 12,
        mc[8] == kw_card(KW_TFORM1, quoted(be_bytes(tform_text(tform), 2))),
        mc[9] == kw_card(KW_MOCVERS, quoted(be_bytes(S_V2 as nat, 3))),
        mc[10] == kw_card(KW_MOCDIM, quoted(be_bytes(dim_text(kind).0, dim_text(kind).1))),
        mc[11] == kw_card(KW_ORDERING, quoted(be_bytes(ordering_text(kind).0, 5))),
        forall|i: int, k: int| 8 <= i < 12 && 0 <= k < 80 ==> s[80 * i + k] == #[trigger] mc[i][k],
    ensures
        card_kind(s, 8, false) == CardKind::Valid(KwVal::Form(tform)),
        card_kind(s, 9, false) == CardKind::Valid(KwVal::Vers(MocVers::V2)),
        card_kind(s, 10, false) == CardKind::Valid(KwVal::Dim(kind_dim(kind))),
        card_kind(s, 11, false) == CardKind::Valid(KwVal::Ord(kind_ordering(kind))),
{
    lemma_texts();
    lemma_pow_small();
    lemma_tform_card(s, mc[8], tform);
    lemma_str_card(s, 9, mc[9], KW_MOCVERS, S_V2 as nat, 3);
    lemma_dim_card(s, mc[10], kind);
    lemma_str_card(s, 11, mc[11], KW_ORDERING, ordering_text(kind).0, 5);
}

proof fn lemma_tform_card(s: Seq<u8>, c: Seq<u8>, tform: TForm1)
    requires
        80 * 9 <= s.len(),
        c == kw_card(KW_TFORM1, quoted(be_bytes(tform_text(tform), 2))),
        forall|k: int| 0 <= k < 80 ==> s[80 * 8 + k] == #[trigger] c[k],
    ensures
        card_kind(s, 8, false) == CardKind::Valid(KwVal::Form(tform)),
{
    lemma_texts();
    lemma_pow_small();
    lemma_str_card(s, 8, c, KW_TFORM1, tform_text(tform), 2);
}

proof fn lemma_dim_card(s: Seq<u8>, c: Seq<u8>, kind: FitsMocKind)
    requires
        kind != FitsMocKind::TimeSpaceRange29,
        80 * 11 <= s.len(),
        c == kw_card(KW_MOCDIM, quoted(be_bytes(dim_text(kind).0, dim_text(kind).1))),
        forall|k: int| 0 <= k < 80 ==> s[80 * 10 + k] == #[trigger] c[k],
    ensures
        card_kind(s, 10, false) == CardKind::Valid(KwVal::Dim(kind_dim(kind))),
{
    lemma_texts();
    lemma_pow_small();
    lemma_str_card(s, 10, c, KW_MOCDIM, dim_text(kind).0, dim_text(kind).1);
}

/// `MOCDIM` of the kind.
pub open spec fn kind_dim(kind: FitsMocKind) -> MocDim {
    match kind {
        FitsMocKind::SpaceNuniq | FitsMocKind::SpaceRange => MocDim::Space,
        FitsMocKind::TimeRange => MocDim::Time,
        FitsMocKind::FrequencyRange => MocDim::Frequency,
        _ => MocDim::TimeSpace,
    }
}

/// `ORDERING` of the kind.
pub open spec fn kind_ordering(kind: FitsMocKind) -> MocOrdering {
    match kind {
        FitsMocKind::SpaceNuniq => MocOrdering::Nuniq,
        _ => MocOrdering::Range,
    }
}

/// The MOC keywords of the cards written after `ORDERING`.
pub open spec fn tail_keys(kind: FitsMocKind, depth_1: u8, depth_2: u8) -> MocKeys {
    match kind {
        FitsMocKind::SpaceNuniq | FitsMocKind::SpaceRange => set_key(no_keys(), KwVal::OrdS(depth_1)),
        FitsMocKind::TimeRange => set_key(no_keys(), KwVal::OrdT(depth_1)),
        FitsMocKind::FrequencyRange => set_key(no_keys(), KwVal::OrdF(depth_1)),
        _ => set_key(set_key(no_keys(), KwVal::OrdS(depth_2)), KwVal::OrdT(depth_1)),
    }
}

/// The cards written after `ORDERING`, read back.
proof fn lemma_tail_written(s: Seq<u8>, mc: Seq<Seq<u8>>, n: int, kind: FitsMocKind, depth_1: u8, depth_2: u8, naxis2: u64, tform: TForm1)
    requires
        kind != FitsMocKind::TimeSpaceRange29,
        mc == main_cards(kind, depth_1, depth_2, naxis2, tform),
        mc.len() <= n,
        s.len() == 80 * n,
        forall|i: int, k: int| 12 <= i < mc.len() && 0 <= k < 80 ==> s[80 * i + k] == #[trigger] mc[i][k],
    ensures
        keys_from(s, 12, n, false) == Ok::<MocKeys, FitsHeaderError>(tail_keys(kind, depth_1, depth_2)),
{
    lemma_texts();
    lemma_pow_small();
    match kind {
        FitsMocKind::SpaceNuniq | FitsMocKind::SpaceRange => {
            assert(mc.len() == 15);
            lemma_depth_card(s, 12, mc[12], KW_MOCORD_S, depth_1);
            lemma_str_card(s, 13, mc[13], KW_COORDSYS, S_C as nat, 1);
            lemma_end_at(s, 14, mc[14]);
            assert(card_kind(s, 13, false) == CardKind::Other);
            assert(keys_from(s, 14, n, false) == Ok::<MocKeys, FitsHeaderError>(no_keys()));
            assert(keys_from(s, 13, n, false) == Ok::<MocKeys, FitsHeaderError>(no_keys()));
        },
        FitsMocKind::TimeRange => {
            assert(mc.len() == 14);
            lemma_depth_card(s, 12, mc[12], KW_MOCORD_T, depth_1);
            lemma_end_at(s, 13, mc[13]);
            assert(keys_from(s, 13, n, false) == Ok::<MocKeys, FitsHeaderError>(no_keys()));
        },
        FitsMocKind::FrequencyRange => {
            assert(mc.len() == 14);
            lemma_depth_card(s, 12, mc[12], KW_MOCORD_F, depth_1);
            lemma_end_at(s, 13, mc[13]);
            assert(keys_from(s, 13, n, false) == Ok::<MocKeys, FitsHeaderError>(no_keys()));
        },
        _ => {
            assert(mc.len() == 15);
            lemma_depth_card(s, 12, mc[12], KW_MOCORD_T, depth_1);
            lemma_depth_card(s, 13, mc[13], KW_MOCORD_S, depth_2);
            lemma_end_at(s, 14, mc[14]);
            assert(keys_from(s, 14, n, false) == Ok::<MocKeys, FitsHeaderError>(no_keys()));
            assert(keys_from(s, 13, n, false) == Ok::<MocKeys, FitsHeaderError>(set_key(no_keys(), KwVal::OrdS(depth_2))));
        },
    }
}

/// One of the 36 cards of the 2880-byte block starting at `base` is the `END` card.
pub open spec fn block_has_end(s: Seq<u8>, base: int) -> bool {
    exists|c: int| 0 <= c < 36 && #[trigger] packr(s, base + 80 * c, base + 80 * c + 4) == KW_END4
}

/// The written header holds the `END` card in its first block.
proof fn lemma_written_end(
    s: Seq<u8>,
    cs: Seq<Seq<u8>>,
    kind: FitsMocKind,
    depth_1: u8,
    depth_2: u8,
    naxis2: u64,
    tform: TForm1,
)
    requires
        kind != FitsMocKind::TimeSpaceRange29,
        s == flat(cs),
        forall|i: int| 0 <= i < cs.len() ==> (#[trigger] cs[i]).len() == 80,
        main_cards(kind, depth_1, depth_2, naxis2, tform).len() <= cs.len(),
        forall|i: int|
            0 <= i < main_cards(kind, depth_1, depth_2, naxis2, tform).len() ==> #[trigger] cs[i] == main_cards(
                kind,
                depth_1,
                depth_2,
                naxis2,
                tform,
            )[i],
    ensures
        block_has_end(s, 0),
{
    let mc = main_cards(kind, depth_1, depth_2, naxis2, tform);
    let e = mc.len() - 1;
    lemma_flat(cs);
    assert(mc[e] == end_card());
    assert(cs[e] == mc[e]);
    assert forall|k: int| 0 <= k < 80 implies s[80 * e + k] == #[trigger] mc[e][k] by {
        assert(s[80 * e + k] == cs[e][k]);
    }
    lemma_end_at(s, e, mc[e]);
    assert(packr(s, 0 + 80 * e, 0 + 80 * e + 4) == KW_END4);
}

/// The bytes laid out as the cards `cs`, whose first cards are the written ones, read back as
/// the written header.
proof fn lemma_written_header(
    s: Seq<u8>,
    cs: Seq<Seq<u8>>,
    kind: FitsMocKind,
    depth_1: u8,
    depth_2: u8,
    naxis2: u64,
    tform: TForm1,
)
    requires
        kind != FitsMocKind::TimeSpaceRange29,
        s == flat(cs),
        forall|i: int| 0 <= i < cs.len() ==> (#[trigger] cs[i]).len() == 80,
        main_cards(kind, depth_1, depth_2, naxis2, tform).len() <= cs.len(),
        forall|i: int|
            0 <= i < main_cards(kind, depth_1, depth_2, naxis2, tform).len() ==> #[trigger] cs[i] == main_cards(
                kind,
                depth_1,
                depth_2,
                naxis2,
                tform,
            )[i],
    ensures
        header_spec(s, false) == Ok::<FitsMocHeader, FitsHeaderError>(written_header(kind, depth_1, depth_2, naxis2, tform)),
{
    let mc = main_cards(kind, depth_1, depth_2, naxis2, tform);
    let m = mc.len() as int;
    let n = cs.len() as int;
    lemma_flat(cs);
    assert(s.len() == 80 * n);
    assert forall|i: int, k: int| 0 <= i < m && 0 <= k < 80 implies s[80 * i + k] == #[trigger] mc[i][k] by {
        assert(cs[i] == mc[i]);
        assert(s[80 * i + k] == cs[i][k]);
    }
    lemma_mandatory_written(s, mc, naxis2, tform);
    lemma_common_written(s, mc, kind, tform);
    lemma_tail_written(s, mc, n, kind, depth_1, depth_2, naxis2, tform);
    let t = tail_keys(kind, depth_1, depth_2);
    let k = set_key(
        set_key(set_key(set_key(t, KwVal::Ord(kind_ordering(kind))), KwVal::Dim(kind_dim(kind))), KwVal::Vers(MocVers::V2)),
        KwVal::Form(tform),
    );
    assert(keys_from(s, 11, n, false) == Ok::<MocKeys, FitsHeaderError>(set_key(t, KwVal::Ord(kind_ordering(kind)))));
    assert(keys_from(s, 10, n, false) == Ok::<MocKeys, FitsHeaderError>(
        set_key(set_key(t, KwVal::Ord(kind_ordering(kind))), KwVal::Dim(kind_dim(kind))),
    ));
    assert(keys_from(s, 9, n, false) == Ok::<MocKeys, FitsHeaderError>(
        set_key(set_key(set_key(t, KwVal::Ord(kind_ordering(kind))), KwVal::Dim(kind_dim(kind))), KwVal::Vers(MocVers::V2)),
    ));
    assert(keys_from(s, 8, n, false) == Ok::<MocKeys, FitsHeaderError>(k));
    assert(decide(k, tform_bytes(tform), naxis2) == Ok::<FitsMocHeader, FitsHeaderError>(
        written_header(kind, depth_1, depth_2, naxis2, tform),
    ));
}

proof fn lemma_be_len(c: nat, len: nat)
    ensures
        be_bytes(c, len).len() == len,
    decreases len,
{
    if len > 0 {
        lemma_be_len(c / 256, (len - 1) as nat);
    }
}

/// Appends the card of keyword `kw` and value `val`.
fn add_card(v: &mut Vec<u8>, cs: Ghost<Seq<Seq<u8>>>, kw: u64, val: Vec<u8>) -> (r: Ghost<Seq<Seq<u8>>>)
    requires
        old(v)@ == flat(cs@),
        val@.len() <= 70,
    ensures
        final(v)@ == flat(r@),
        r@ == cs@.push(kw_card(kw, val@)),
        kw_card(kw, val@).len() == 80,
{
    push_card(v, kw, &val);
    proof {
        lemma_flat_push(cs@, kw_card(kw, val@));
        lemma_be_len(kw as nat, 8);
    }
    Ghost(cs@.push(kw_card(kw, val@)))
}

/// Appends the `END` card.
fn add_end(v: &mut Vec<u8>, cs: Ghost<Seq<Seq<u8>>>) -> (r: Ghost<Seq<Seq<u8>>>)
    requires
        old(v)@ == flat(cs@),
    ensures
        final(v)@ == flat(r@),
        r@ == cs@.push(end_card()),
        end_card().len() == 80,
{
    push_be(v, KW_END4 as u128, 4);
    let mut k: usize = 4;
    while k < 80
        invariant
            4 <= k <= 80,
            v@ == flat(cs@) + be_bytes(KW_END4 as nat, 4) + Seq::new((k - 4) as nat, |_j: int| 32u8),
        decreases 80 - k,
    {
        v.push(32);
        proof {
            assert(Seq::new((k + 1 - 4) as nat, |_j: int| 32u8) =~= Seq::new((k - 4) as nat, |_j: int| 32u8).push(32u8));
        }
        k = k + 1;
    }
    proof {
        lemma_be_len(KW_END4 as nat, 4);
        assert(v@ =~= flat(cs@) + end_card());
        lemma_flat_push(cs@, end_card());
    }
    Ghost(cs@.push(end_card()))
}

/// Appends a blank card.
fn add_blank(v: &mut Vec<u8>, cs: Ghost<Seq<Seq<u8>>>) -> (r: Ghost<Seq<Seq<u8>>>)
    requires
        old(v)@ == flat(cs@),
    ensures
        final(v)@ == flat(r@),
        r@ == cs@.push(blank_card()),
{
    let mut k: usize = 0;
    while k < 80
        invariant
            k <= 80,
            v@ == flat(cs@) + Seq::new(k as nat, |_j: int| 32u8),
        decreases 80 - k,
    {
        v.push(32);
        proof {
            assert(Seq::new((k + 1) as nat, |_j: int| 32u8) =~= Seq::new(k as nat, |_j: int| 32u8).push(32u8));
        }
        k = k + 1;
    }
    proof {
        assert(v@ =~= flat(cs@) + blank_card());
        lemma_flat_push(cs@, blank_card());
    }
    Ghost(cs@.push(blank_card()))
}

/// Writes the header of the binary-table extension of a MOC FITS file (MOC standard v2.0): the
/// mandatory cards, `TFORM1`, `MOCVERS`, `MOCDIM`, `ORDERING`, the depth(s), `COORDSYS` for an
/// S-MOC, and `END`, padded with blank cards to whole 2880-byte blocks. `NAXIS1` is the size of a
/// value of the column type, `NAXIS2` the number of rows. The format before v2.0 is not written
/// (`None`). Read back, the header gives the kind, depths, sizes and column type written.
#[verifier::rlimit(40)]
pub fn fits_moc_header_cards(kind: FitsMocKind, depth_1: u8, depth_2: u8, naxis2: u64, tform: TForm1) -> (r: Option<Vec<u8>>)
    ensures
        r is None <==> kind == FitsMocKind::TimeSpaceRange29,
        r matches Some(v) ==> v@.len() == 2880 && header_spec(v@, false) == Ok::<FitsMocHeader, FitsHeaderError>(
            written_header(kind, depth_1, depth_2, naxis2, tform),
        ) && block_has_end(v@, 0),
{
    let (dim_c, dim_l): (u128, usize) = match kind {
        FitsMocKind::TimeSpaceRange29 => {
            return None;
        },
        FitsMocKind::SpaceNuniq => (S_SPACE, 5),
        FitsMocKind::SpaceRange => (S_SPACE, 5),
        FitsMocKind::TimeRange => (S_TIME, 4),
        FitsMocKind::FrequencyRange => (S_FREQUENCY, 9),
        FitsMocKind::TimeSpaceRange => (S_TIME_SPACE, 10),
    };
    let ord_c: u128 = match kind {
        FitsMocKind::SpaceNuniq => S_NUNIQ,
        _ => S_RANGE,
    };
    let (tf_c, nb): (u128, u64) = match tform {
        TForm1::OneI => (S_1I, 2),
        TForm1::OneJ => (S_1J, 4),
        TForm1::OneK => (S_1K, 8),
    };
    proof {
        lemma_plain_dec(nb as nat);
        lemma_plain_dec(naxis2 as nat);
        lemma_plain_dec(depth_1 as nat);
        lemma_plain_dec(depth_2 as nat);
        lemma_be_len(V_BINTABLE as nat, 10);
        lemma_be_len(V_8 as nat, 1);
        lemma_be_len(V_2 as nat, 1);
        lemma_be_len(V_0 as nat, 1);
        lemma_be_len(V_1 as nat, 1);
        lemma_be_len(tf_c as nat, 2);
        lemma_be_len(S_V2 as nat, 3);
        lemma_be_len(dim_c as nat, dim_l as nat);
        lemma_be_len(ord_c as nat, 5);
        lemma_be_len(S_C as nat, 1);
    }
    let mut v: Vec<u8> = Vec::new();
    let mut g: Ghost<Seq<Seq<u8>>> = Ghost(Seq::empty());
    proof {
        assert(v@ =~= flat(g@));
    }
    g = add_card(&mut v, g, KW_XTENSION, raw_text(V_BINTABLE, 10));
    g = add_card(&mut v, g, KW_BITPIX, raw_text(V_8, 1));
    g = add_card(&mut v, g, KW_NAXIS, raw_text(V_2, 1));
    g = add_card(&mut v, g, KW_NAXIS1, dec_text(nb));
    g = add_card(&mut v, g, KW_NAXIS2, dec_text(naxis2));
    g = add_card(&mut v, g, KW_PCOUNT, raw_text(V_0, 1));
    g = add_card(&mut v, g, KW_GCOUNT, raw_text(V_1, 1));
    g = add_card(&mut v, g, KW_TFIELDS, raw_text(V_1, 1));
    g = add_card(&mut v, g, KW_TFORM1, quoted_text(tf_c, 2));
    g = add_card(&mut v, g, KW_MOCVERS, quoted_text(S_V2, 3));
    g = add_card(&mut v, g, KW_MOCDIM, quoted_text(dim_c, dim_l));
    g = add_card(&mut v, g, KW_ORDERING, quoted_text(ord_c, 5));
    match kind {
        FitsMocKind::TimeRange => {
            g = add_card(&mut v, g, KW_MOCORD_T, dec_text(depth_1 as u64));
        },
        FitsMocKind::FrequencyRange => {
            g = add_card(&mut v, g, KW_MOCORD_F, dec_text(depth_1 as u64));
        },
        FitsMocKind::TimeSpaceRange => {
            g = add_card(&mut v, g, KW_MOCORD_T, dec_text(depth_1 as u64));
            g = add_card(&mut v, g, KW_MOCORD_S, dec_text(depth_2 as u64));
        },
        _ => {
            g = add_card(&mut v, g, KW_MOCORD_S, dec_text(depth_1 as u64));
            g = add_card(&mut v, g, KW_COORDSYS, quoted_text(S_C, 1));
        },
    }
    g = add_end(&mut v, g);
    let ghost mc = main_cards(kind, depth_1, depth_2, naxis2, tform);
    proof {
        assert(g@ =~= mc);
    }
    let mut n_cards: usize = match kind {
        FitsMocKind::TimeRange | FitsMocKind::FrequencyRange => 14,
        _ => 15,
    };
    while n_cards % 36 != 0
        invariant
            v@ == flat(g@),
            n_cards == g@.len(),
            mc.len() <= g@.len() <= 36,
            14 <= mc.len(),
            forall|i: int| 0 <= i < mc.len() ==> #[trigger] g@[i] == mc[i],
            forall|i: int| 0 <= i < g@.len() ==> (#[trigger] g@[i]).len() == 80,
        decreases 36 - n_cards,
    {
        let ghost old_g = g@;
        g = add_blank(&mut v, g);
        proof {
            assert forall|i: int| 0 <= i < mc.len() implies #[trigger] g@[i] == mc[i] by {
                assert(old_g[i] == mc[i]);
            }
            assert forall|i: int| 0 <= i < g@.len() implies (#[trigger] g@[i]).len() == 80 by {
                if i < old_g.len() {
                    assert(old_g[i].len() == 80);
                }
            }
            assert(n_cards + 1 <= 36);
        }
        n_cards = n_cards + 1;
    }
    proof {
        lemma_written_header(v@, g@, kind, depth_1, depth_2, naxis2, tform);
        lemma_written_end(v@, g@, kind, depth_1, depth_2, naxis2, tform);
        lemma_flat(g@);
        assert(n_cards == 36);
    }
    Some(v)
}

// ------------------------------------------------------------------------------------------
// Whole file

/// Length of a FITS block.
pub const BLOCK_LEN: usize = 2880;

/// `SIMPLE  `
pub const KW_SIMPLE: u64 = 0x5349_4D50_4C45_2020;
/// `EXTEND  `
pub const KW_EXTEND: u64 = 0x4558_5445_4E44_2020;
/// `T`
pub const V_T: u128 = 0x54;

/// Why a FITS file is refused.
#[derive(Clone, Copy, Debug, PartialEq, Eq)]
pub enum FitsFileError {
    /// No block holding the `END` card for the primary header, or for the extension header.
    MissingEnd,
    /// The extension header is refused.
    Header(FitsHeaderError),
    /// Fewer data bytes than the header announces.
    MissingData,
    /// The file does not hold an ST-MOC of 64-bit values.
    NotStMoc,
}

/// Index of the first whole block, from block `b` on, that holds the `END` card.
pub open spec fn first_end_block(s: Seq<u8>, b: int) -> Option<int>
    decreases s.len() - 2880 * b,
{
    if b < 0 || 2880 * (b + 1) > s.len() {
        None
    } else if block_has_end(s, 2880 * b) {
        Some(b)
    } else {
        first_end_block(s, b + 1)
    }
}

/// The `n` data words of `nb` bytes each (big-endian) starting at `d`.
pub open spec fn data_words(s: Seq<u8>, d: int, nb: int, n: nat) -> Seq<u64> {
    Seq::new(n, |k: int| packr(s, d + nb * k, d + nb * k + nb) as u64)
}

/// What a MOC FITS file holds: the primary header (up to its first block holding `END`), the
/// extension header (up to the next such block), then the data words announced by the header.
pub open spec fn file_spec(s: Seq<u8>, permissive: bool) -> Result<(FitsMocHeader, Seq<u64>), FitsFileError> {
    match first_end_block(s, 0) {
        None => Err(FitsFileError::MissingEnd),
        Some(p) => match first_end_block(s, p + 1) {
            None => Err(FitsFileError::MissingEnd),
            Some(e) => match header_spec(s.subrange(2880 * (p + 1), 2880 * (e + 1)), permissive) {
                Err(x) => Err(FitsFileError::Header(x)),
                Ok(h) => match word_bytes_spec(h) {
                    Err(x) => Err(FitsFileError::Header(x)),
                    Ok(nb) => {
                        let d = 2880 * (e + 1);
                        if d + nb * h.naxis2 > s.len() {
                            Err(FitsFileError::MissingData)
                        } else {
                            Ok((h, data_words(s, d, nb as int, h.naxis2 as nat)))
                        }
                    },
                },
            },
        },
    }
}

/// The block starting at `base` holds the `END` card.
fn block_end_exec(s: &Vec<u8>, base: usize) -> (r: bool)
    requires
        base + 2880 <= s@.len(),
    ensures
        r == block_has_end(s@, base as int),
{
    let n = s.len();
    let mut c: usize = 0;
    while c < 36
        invariant
            c <= 36,
            n == s@.len(),
            base + 2880 <= s@.len(),
            forall|c2: int| 0 <= c2 < c ==> #[trigger] packr(s@, base + 80 * c2, base + 80 * c2 + 4) != KW_END4,
        decreases 36 - c,
    {
        if pack_bytes(s, base + 80 * c, base + 80 * c + 4) == KW_END4 as u128 {
            return true;
        }
        c = c + 1;
    }
    false
}

proof fn lemma_first_end(s: Seq<u8>, b: int, x: int)
    requires
        first_end_block(s, b) == Some(x),
    ensures
        0 <= b <= x,
        2880 * (x + 1) <= s.len(),
        block_has_end(s, 2880 * x),
        first_end_block(s, x) == Some(x),
    decreases s.len() - 2880 * b,
{
    if b >= 0 && 2880 * (b + 1) <= s.len() && !block_has_end(s, 2880 * b) {
        lemma_first_end(s, b + 1, x);
    }
}

/// Index of the first whole block, from block `b` on, that holds the `END` card.
fn first_end_block_exec(s: &Vec<u8>, b: usize) -> (r: Option<usize>)
    ensures
        r matches Some(x) ==> first_end_block(s@, b as int) == Some(x as int),
        r is None ==> first_end_block(s@, b as int) is None,
{
    let len = s.len();
    let mut k = b;
    while k < len / 2880
        invariant
            b <= k,
            len == s@.len(),
            first_end_block(s@, b as int) == first_end_block(s@, k as int),
        decreases len - k,
    {
        proof {
            assert(2880 * (k + 1) <= len) by (nonlinear_arith)
                requires
                    k < len / 2880,
            ;
        }
        if block_end_exec(s, 2880 * k) {
            return Some(k);
        }
        k = k + 1;
    }
    proof {
        assert(2880 * (k + 1) > len) by (nonlinear_arith)
            requires
                k >= len / 2880,
        ;
    }
    None
}

/// The bytes `s[a..b]`.
fn copy_bytes(s: &Vec<u8>, a: usize, b: usize) -> (r: Vec<u8>)
    requires
        a <= b <= s@.len(),
    ensures
        r@ == s@.subrange(a as int, b as int),
{
    let mut r: Vec<u8> = Vec::new();
    let mut k = a;
    while k < b
        invariant
            a <= k <= b <= s@.len(),
            r@ == s@.subrange(a as int, k as int),
        decreases b - k,
    {
        r.push(s[k]);
        proof {
            assert(r@ =~= s@.subrange(a as int, k + 1));
        }
        k = k + 1;
    }
    r
}

/// Reads a MOC FITS file: the header of its binary-table extension and its data words (16, 32
/// or 64-bit values, each given as a `u64`).
pub fn read_fits_moc_file(bytes: &Vec<u8>, coosys_permissive: bool) -> (r: Result<(FitsMocHeader, Vec<u64>), FitsFileError>)
    ensures
        r matches Ok((h, w)) ==> file_spec(bytes@, coosys_permissive) == Ok::<(FitsMocHeader, Seq<u64>), FitsFileError>((h, w@)),
        r matches Err(e) ==> file_spec(bytes@, coosys_permissive) == Err::<(FitsMocHeader, Seq<u64>), FitsFileError>(e),
{
    let len = bytes.len();
    let p = match first_end_block_exec(bytes, 0) {
        None => return Err(FitsFileError::MissingEnd),
        Some(p) => p,
    };
    proof {
        lemma_first_end(bytes@, 0, p as int);
    }
    let e = match first_end_block_exec(bytes, p + 1) {
        None => return Err(FitsFileError::MissingEnd),
        Some(e) => e,
    };
    proof {
        lemma_first_end(bytes@, p + 1, e as int);
    }
    let hb = copy_bytes(bytes, 2880 * (p + 1), 2880 * (e + 1));
    let h = match parse_fits_moc_header(&hb, coosys_permissive) {
        Err(x) => return Err(FitsFileError::Header(x)),
        Ok(h) => h,
    };
    let nb = match data_word_bytes(&h) {
        Err(x) => return Err(FitsFileError::Header(x)),
        Ok(nb) => nb,
    };
    let d = 2880 * (e + 1);
    proof {
        assert(nb == 2 || nb == 4 || nb == 8);
        assert((nb as u128) * (h.naxis2 as u128) <= 8 * 0xffff_ffff_ffff_ffffu128) by (nonlinear_arith)
            requires
                nb <= 8,
        ;
    }
    if (d as u128) + (nb as u128) * (h.naxis2 as u128) > (len as u128) {
        return Err(FitsFileError::MissingData);
    }
    let n = h.naxis2;
    let mut w: Vec<u64> = Vec::new();
    let mut k: u64 = 0;
    proof {
        lemma_pow_256();
    }
    while k < n
        invariant
            k <= n,
            nb == 2 || nb == 4 || nb == 8,
            d + nb * n <= bytes@.len(),
            len == bytes@.len(),
            w@ == data_words(bytes@, d as int, nb as int, k as nat),
            pow(256, 8) == 0x1_0000_0000_0000_0000,
        decreases n - k,
    {
        let ghost old_w = w@;
        proof {
            assert(d + nb * k + nb <= d + nb * n) by (nonlinear_arith)
                requires
                    k < n,
                    nb > 0,
            ;
            assert(k <= nb * k) by (nonlinear_arith)
                requires
                    nb > 0,
            ;
        }
        let lo = d + (nb as usize) * (k as usize);
        let v = pack_bytes(bytes, lo, lo + nb as usize);
        proof {
            lemma_packr_bound(bytes@, lo as int, lo + nb);
            vstd::arithmetic::power::lemma_pow_increases(256, nb as nat, 8);
        }
        w.push(v as u64);
        proof {
            assert(w@ =~= data_words(bytes@, d as int, nb as int, (k + 1) as nat));
        }
        k = k + 1;
    }
    Ok((h, w))
}

/// The 64-bit words laid end to end, big-endian.
pub open spec fn words_bytes(ws: Seq<u64>) -> Seq<u8>
    decreases ws.len(),
{
    if ws.len() == 0 {
        Seq::empty()
    } else {
        words_bytes(ws.drop_last()) + be_bytes(ws.last() as nat, 8)
    }
}

proof fn lemma_words_bytes(ws: Seq<u64>)
    ensures
        words_bytes(ws).len() == 8 * ws.len(),
        forall|i: int, j: int| 0 <= i < ws.len() && 0 <= j < 8 ==> words_bytes(ws)[8 * i + j] == #[trigger] be_bytes(
            ws[i] as nat,
            8,
        )[j],
    decreases ws.len(),
{
    if ws.len() > 0 {
        let w0 = ws.drop_last();
        lemma_words_bytes(w0);
        lemma_be_len(ws.last() as nat, 8);
        assert forall|i: int, j: int| 0 <= i < ws.len() && 0 <= j < 8 implies words_bytes(ws)[8 * i + j] == #[trigger] be_bytes(
            ws[i] as nat,
            8,
        )[j] by {
            if i < w0.len() {
                assert(w0[i] == ws[i]);
                assert(words_bytes(w0)[8 * i + j] == be_bytes(w0[i] as nat, 8)[j]);
            }
        }
    }
}

/// Appends the bytes of `src`.
fn extend_bytes(out: &mut Vec<u8>, src: &Vec<u8>)
    ensures
        final(out)@ == old(out)@ + src@,
{
    let n = src.len();
    let mut k: usize = 0;
    while k < n
        invariant
            n == src@.len(),
            k <= n,
            out@ == old(out)@ + src@.take(k as int),
        decreases n - k,
    {
        out.push(src[k]);
        proof {
            assert(src@.take(k + 1) =~= src@.take(k as int).push(src@[k as int]));
        }
        k = k + 1;
    }
    proof {
        assert(src@.take(n as int) =~= src@);
    }
}

/// The primary header of a MOC FITS file, holding no data: `SIMPLE = T`, `BITPIX = 8`,
/// `NAXIS = 0`, `EXTEND = T` and `END`, in one block.
fn primary_block() -> (r: Vec<u8>)
    ensures
        r@.len() == 2880,
        block_has_end(r@, 0),
{
    proof {
        lemma_be_len(V_T as nat, 1);
        lemma_be_len(V_8 as nat, 1);
        lemma_be_len(V_0 as nat, 1);
    }
    let mut v: Vec<u8> = Vec::new();
    let mut g: Ghost<Seq<Seq<u8>>> = Ghost(Seq::empty());
    proof {
        assert(v@ =~= flat(g@));
    }
    g = add_card(&mut v, g, KW_SIMPLE, raw_text(V_T, 1));
    g = add_card(&mut v, g, KW_BITPIX, raw_text(V_8, 1));
    g = add_card(&mut v, g, KW_NAXIS, raw_text(V_0, 1));
    g = add_card(&mut v, g, KW_EXTEND, raw_text(V_T, 1));
    g = add_end(&mut v, g);
    let ghost g5 = g@;
    let mut n: usize = 5;
    while n < 36
        invariant
            5 <= n <= 36,
            v@ == flat(g@),
            n == g@.len(),
            g@[4] == end_card(),
            forall|i: int| 0 <= i < g@.len() ==> (#[trigger] g@[i]).len() == 80,
        decreases 36 - n,
    {
        let ghost old_g = g@;
        g = add_blank(&mut v, g);
        proof {
            assert(g@[4] == old_g[4]);
            assert forall|i: int| 0 <= i < g@.len() implies (#[trigger] g@[i]).len() == 80 by {
                if i < old_g.len() {
                    assert(old_g[i].len() == 80);
                }
            }
        }
        n = n + 1;
    }
    proof {
        lemma_flat(g@);
        assert forall|k: int| 0 <= k < 80 implies v@[80 * 4 + k] == #[trigger] g@[4][k] by {}
        let c: int = 4;
        lemma_end_at(v@, c, g@[4]);
        assert(packr(v@, 0 + 80 * c, 0 + 80 * c + 4) == KW_END4);
    }
    v
}

/// The file bytes hold, at `base`, the bytes of `b`.
proof fn lemma_block_end_moved(s: Seq<u8>, base: int, b: Seq<u8>)
    requires
        0 <= base,
        b.len() == 2880,
        base + 2880 <= s.len(),
        block_has_end(b, 0),
        forall|k: int| 0 <= k < 2880 ==> s[base + k] == #[trigger] b[k],
    ensures
        block_has_end(s, base),
{
    let c = choose|c: int| 0 <= c < 36 && #[trigger] packr(b, 0 + 80 * c, 0 + 80 * c + 4) == KW_END4;
    assert forall|k: int| 0 <= k < 4 implies #[trigger] s[(base + 80 * c) + k] == b[(0 + 80 * c) + k] by {
        assert(s[base + (80 * c + k)] == b[80 * c + k]);
    }
    lemma_packr_eq(s, base + 80 * c, b, 0 + 80 * c, 4);
}

/// Writes a MOC FITS file (MOC standard v2.0): a primary header holding no data, the header of
/// the binary-table extension (see [`fits_moc_header_cards`], with 64-bit values), the data
/// words, big-endian, and zeros up to a whole number of blocks. Read back, the file gives the
/// header written and the same words. The format before v2.0 is not written (`None`).
#[verifier::rlimit(60)]
pub fn write_fits_moc_file(kind: FitsMocKind, depth_1: u8, depth_2: u8, words: &Vec<u64>) -> (r: Option<Vec<u8>>)
    ensures
        r is None <==> kind == FitsMocKind::TimeSpaceRange29,
        r matches Some(v) ==> v@.len() % 2880 == 0 && file_spec(v@, false) == Ok::<(FitsMocHeader, Seq<u64>), FitsFileError>(
            (written_header(kind, depth_1, depth_2, words@.len() as u64, TForm1::OneK), words@),
        ),
{
    let n = words.len();
    let hv = match fits_moc_header_cards(kind, depth_1, depth_2, n as u64, TForm1::OneK) {
        None => return None,
        Some(hv) => hv,
    };
    let pv = primary_block();
    let mut out: Vec<u8> = Vec::new();
    extend_bytes(&mut out, &pv);
    extend_bytes(&mut out, &hv);
    let ghost pre = out@;
    let mut k: usize = 0;
    while k < n
        invariant
            n == words@.len(),
            k <= n,
            pre.len() == 5760,
            out@ == pre + words_bytes(words@.take(k as int)),
        decreases n - k,
    {
        push_be(&mut out, words[k] as u128, 8);
        proof {
            assert(words@.take(k + 1).drop_last() =~= words@.take(k as int));
            assert(out@ =~= pre + words_bytes(words@.take(k + 1)));
        }
        k = k + 1;
    }
    proof {
        assert(words@.take(n as int) =~= words@);
        lemma_words_bytes(words@);
    }
    let data_len = out.len();
    let pad = crate::st_data::fits_block_padding(data_len as u64);
    let ghost before_pad = out@;
    let mut j: u64 = 0;
    while j < pad
        invariant
            j <= pad,
            pad < 2880,
            out@.len() == before_pad.len() + j,
            forall|i: int| 0 <= i < before_pad.len() ==> #[trigger] out@[i] == before_pad[i],
        decreases pad - j,
    {
        out.push(0);
        j = j + 1;
    }
    proof {
        let s = out@;
        let ws = words@;
        let nn = n as int;
        assert(s.len() % 2880 == 0);
        // The primary block and the header block.
        assert forall|q: int| 0 <= q < 2880 implies s[0 + q] == #[trigger] pv@[q] by {
            assert(s[q] == before_pad[q]);
        }
        assert forall|q: int| 0 <= q < 2880 implies s[2880 + q] == #[trigger] hv@[q] by {
            assert(s[2880 + q] == before_pad[2880 + q]);
        }
        lemma_block_end_moved(s, 0, pv@);
        lemma_block_end_moved(s, 2880, hv@);
        assert(first_end_block(s, 0) == Some(0int));
        assert(first_end_block(s, 1) == Some(1int));
        assert(s.subrange(2880, 5760) =~= hv@);
        let h = written_header(kind, depth_1, depth_2, n as u64, TForm1::OneK);
        assert(word_bytes_spec(h) == Ok::<u8, FitsHeaderError>(8u8));
        // The data words.
        lemma_pow_256();
        assert forall|i: int| 0 <= i < nn implies #[trigger] data_words(s, 5760, 8, nn as nat)[i] == ws[i] by {
            lemma_be_bytes(ws[i] as nat, 8);
            assert forall|q: int| 0 <= q < 8 implies #[trigger] s[(5760 + 8 * i) + q] == be_bytes(ws[i] as nat, 8)[0 + q] by {
                assert(s[5760 + 8 * i + q] == before_pad[5760 + 8 * i + q]);
                assert(words_bytes(ws)[8 * i + q] == be_bytes(ws[i] as nat, 8)[q]);
            }
            lemma_packr_eq(s, 5760 + 8 * i, be_bytes(ws[i] as nat, 8), 0, 8);
        }
        assert(data_words(s, 5760, 8, nn as nat) =~= ws);
    }
    Some(out)
}

/// The words read two by two.
pub open spec fn word_pairs(w: Seq<u64>) -> Seq<(u64, u64)> {
    Seq::new(w.len() / 2, |k: int| (w[2 * k], w[2 * k + 1]))
}

/// The pairs laid end to end.
pub open spec fn pair_words(p: Seq<(u64, u64)>) -> Seq<u64> {
    Seq::new(2 * p.len(), |k: int| if k % 2 == 0 { p[k / 2].0 } else { p[k / 2].1 })
}

/// What a FITS file of an ST-MOC holds: the depths of time and space, and the elements (time
/// ranges, space ranges) read from the data.
pub open spec fn st_file_spec(s: Seq<u8>) -> Result<(u8, u8, Seq<(Seq<Range<u64>>, Seq<Range<u64>>)>), FitsFileError> {
    match file_spec(s, false) {
        Err(e) => Err(e),
        Ok((h, w)) => if h.kind == FitsMocKind::TimeSpaceRange && h.naxis1 == 8 {
            Ok((h.depth_1, h.depth_2, st_grouped(word_pairs(w).map_values(|p: (u64, u64)| tag_pair(p)))))
        } else {
            Err(FitsFileError::NotStMoc)
        },
    }
}

/// Reads the FITS file of an ST-MOC (v2.0, 64-bit values): the depths of time and space, and
/// the elements (time ranges, space ranges).
pub fn read_st_moc_file(bytes: &Vec<u8>) -> (r: Result<(u8, u8, Vec<(Vec<Range<u64>>, Vec<Range<u64>>)>), FitsFileError>)
    ensures
        r matches Ok((dt, ds, v)) ==> st_file_spec(bytes@) == Ok::<(u8, u8, Seq<(Seq<Range<u64>>, Seq<Range<u64>>)>), FitsFileError>(
            (dt, ds, groups_view(v@)),
        ),
        r matches Err(e) ==> st_file_spec(bytes@) == Err::<(u8, u8, Seq<(Seq<Range<u64>>, Seq<Range<u64>>)>), FitsFileError>(e),
{
    let (h, w) = match read_fits_moc_file(bytes, false) {
        Err(e) => return Err(e),
        Ok(x) => x,
    };
    let is_st = match h.kind {
        FitsMocKind::TimeSpaceRange => true,
        _ => false,
    };
    if !is_st || h.naxis1 != 8 {
        return Err(FitsFileError::NotStMoc);
    }
    let wl = w.len();
    let n = wl / 2;
    let mut pairs: Vec<(u64, u64)> = Vec::new();
    let mut k: usize = 0;
    while k < n
        invariant
            n == w@.len() / 2,
            wl == w@.len(),
            k <= n,
            pairs@ == word_pairs(w@).take(k as int),
        decreases n - k,
    {
        proof {
            assert(2 * k + 1 < w@.len()) by (nonlinear_arith)
                requires
                    k < n,
                    n == w@.len() / 2,
            ;
        }
        pairs.push((w[2 * k], w[2 * k + 1]));
        proof {
            assert(pairs@ =~= word_pairs(w@).take(k + 1));
        }
        k = k + 1;
    }
    proof {
        assert(pairs@ =~= word_pairs(w@));
    }
    let g = decode_st_ranges(&pairs);
    Ok((h.depth_1, h.depth_2, g))
}

/// Writes the FITS file of an ST-MOC (v2.0, 64-bit values). Read back, the file gives the
/// depths of the ST-MOC and its elements.
pub fn write_st_moc_file(moc: &RangeMOC2<u64, Time<u64>, u64, Hpx<u64>>) -> (r: Vec<u8>)
    requires
        moc.wf(),
    ensures
        r@.len() % 2880 == 0,
        st_file_spec(r@) == Ok::<(u8, u8, Seq<(Seq<Range<u64>>, Seq<Range<u64>>)>), FitsFileError>(
            (moc.dl(), moc.dr(), elems_view(moc.es())),
        ),
{
    let pairs = encode_st_ranges(moc);
    let np = pairs.len();
    let mut w: Vec<u64> = Vec::new();
    let mut k: usize = 0;
    while k < np
        invariant
            np == pairs@.len(),
            k <= np,
            w@ == pair_words(pairs@.take(k as int)),
        decreases np - k,
    {
        w.push(pairs[k].0);
        w.push(pairs[k].1);
        proof {
            assert(w@ =~= pair_words(pairs@.take(k + 1)));
        }
        k = k + 1;
    }
    proof {
        assert(pairs@.take(np as int) =~= pairs@);
        assert(word_pairs(w@) =~= pairs@);
        crate::st_data::law_st_data_round_trip(*moc);
    }
    match write_fits_moc_file(FitsMocKind::TimeSpaceRange, HasTwoMaxDepth::depth_max_1(moc), HasTwoMaxDepth::depth_max_2(moc), &w) {
        Some(v) => v,
        None => Vec::new(),
    }
}

// ------------------------------------------------------------------------------------------
// NUNIQ data

/// A HEALPix cell: depth at most 29 and index below `12 * 4^depth`.
pub open spec fn hpx_cell_ok(c: Cell) -> bool {
    c.depth <= 29 && c.idx < 3 * pow2(2 * c.depth as nat + 2)
}

/// The uniq notation of the cell.
pub open spec fn uniq_of(c: Cell) -> u64 {
    (c.idx + pow2(2 * c.depth as nat + 2)) as u64
}

/// The uniq notations of the cells of depth `d`, in their order.
pub open spec fn uniqs_at(cs: Seq<Cell>, d: u8) -> Seq<u64>
    decreases cs.len(),
{
    if cs.len() == 0 {
        Seq::empty()
    } else {
        uniqs_at(cs.drop_last(), d) + if cs.last().depth == d {
            seq![uniq_of(cs.last())]
        } else {
            Seq::empty()
        }
    }
}

/// The uniq notations of the cells of depths `0` to `d`, depth by depth.
pub open spec fn nuniq_upto(cs: Seq<Cell>, d: int) -> Seq<u64>
    decreases d + 1,
{
    if d < 0 {
        Seq::empty()
    } else {
        nuniq_upto(cs, d - 1) + uniqs_at(cs, d as u8)
    }
}

/// The data words of the NUNIQ serialization of the cells of an S-MOC of depth `depth_max`:
/// their uniq notations, depth after depth (in their order within a depth), or, for the first
/// cell deeper than `depth_max`, its depth and `depth_max`.
pub fn nuniq_words(cells: &Vec<Cell>, depth_max: u8) -> (r: Result<Vec<u64>, (u8, u8)>)
    requires
        forall|k: int| 0 <= k < cells@.len() ==> hpx_cell_ok(#[trigger] cells@[k]),
    ensures
        r is Err <==> exists|k: int| 0 <= k < cells@.len() && (#[trigger] cells@[k]).depth > depth_max,
        r matches Err(e) ==> exists|k: int|
            0 <= k < cells@.len() && (#[trigger] cells@[k]).depth > depth_max && e == (cells@[k].depth, depth_max)
                && forall|j: int| 0 <= j < k ==> (#[trigger] cells@[j]).depth <= depth_max,
        r matches Ok(w) ==> w@ == nuniq_upto(cells@, depth_max as int),
{
    let n = cells.len();
    let mut i: usize = 0;
    while i < n
        invariant
            n == cells@.len(),
            i <= n,
            forall|j: int| 0 <= j < i ==> (#[trigger] cells@[j]).depth <= depth_max,
        decreases n - i,
    {
        if cells[i].depth > depth_max {
            proof {
                assert(cells@[i as int].depth > depth_max);
            }
            return Err((cells[i].depth, depth_max));
        }
        i = i + 1;
    }
    let mut w: Vec<u64> = Vec::new();
    let mut d: u8 = 0;
    loop
        invariant
            n == cells@.len(),
            d <= depth_max,
            forall|k: int| 0 <= k < cells@.len() ==> hpx_cell_ok(#[trigger] cells@[k]),
            forall|j: int| 0 <= j < cells@.len() ==> (#[trigger] cells@[j]).depth <= depth_max,
            w@ == nuniq_upto(cells@, d - 1),
        decreases depth_max - d,
    {
        let ghost before = w@;
        let mut k: usize = 0;
        while k < n
            invariant
                n == cells@.len(),
                k <= n,
                forall|q: int| 0 <= q < cells@.len() ==> hpx_cell_ok(#[trigger] cells@[q]),
                w@ == before + uniqs_at(cells@.take(k as int), d),
            decreases n - k,
        {
            let c = cells[k];
            proof {
                assert(cells@.take(k + 1).drop_last() =~= cells@.take(k as int));
            }
            if c.depth == d {
                proof {
                    assert(hpx_cell_ok(cells@[k as int]));
                    lemma2_to64();
                    lemma2_to64_rest();
                    lemma_pow2_adds(2 * c.depth as nat + 2, 2);
                    if c.depth < 29 {
                        lemma_pow2_strictly_increases(2 * c.depth as nat + 4, 62);
                    }
                    assert(c.idx + pow2(2 * c.depth as nat + 2) <= u64::MAX);
                }
                let u = Hpx::<u64>::uniq_hpx(c.depth, c.idx);
                w.push(u);
                proof {
                    assert(w@ =~= before + uniqs_at(cells@.take(k + 1), d));
                }
            } else {
                proof {
                    assert(w@ =~= before + uniqs_at(cells@.take(k + 1), d));
                }
            }
            k = k + 1;
        }
        proof {
            assert(cells@.take(n as int) =~= cells@);
            assert(w@ == nuniq_upto(cells@, d as int));
        }
        if d == depth_max {
            return Ok(w);
        }
        d = d + 1;
    }
}

} // verus!
