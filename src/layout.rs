//! The packed 128-bit layout: sign, combination field, biased exponent and
//! a binary-integer coefficient, held as a high and a low 64-bit word.
use vstd::prelude::*;

verus! {

/// The raw packed value: `high` holds bits 127..64, `low` bits 63..0.
#[allow(non_camel_case_types)]
#[derive(Clone, Copy, Debug, PartialEq, Eq, Structural)]
pub struct bson_decimal128_t {
    pub high: u64,
    pub low: u64,
}

/// Largest coefficient: 10^34 - 1.
pub const COEFFICIENT_MAX: u128 = 9999999999999999999999999999999999;

/// Smallest and largest unbiased exponent of a finite value.
pub const EXPONENT_MIN: i64 = -6176;
pub const EXPONENT_MAX: i64 = 6111;

/// Added to the exponent before it is stored.
pub const EXPONENT_BIAS: i64 = 6176;

/// High word of the canonical quiet NaN.
pub const NAN_HIGH: u64 = 0x7c00000000000000;

/// High word of positive infinity.
pub const INF_HIGH: u64 = 0x7800000000000000;

/// The sign bit within the high word.
pub const SIGN_BIT: u64 = 0x8000000000000000;

pub open spec fn two64() -> int {
    0x1_0000_0000_0000_0000
}

/// The canonical quiet NaN.
pub open spec fn nan_value() -> bson_decimal128_t {
    bson_decimal128_t { high: NAN_HIGH, low: 0 }
}

/// Infinity with the given sign.
pub open spec fn inf_value(neg: bool) -> bson_decimal128_t {
    bson_decimal128_t { high: if neg { (INF_HIGH + SIGN_BIT) as u64 } else { INF_HIGH }, low: 0 }
}

/// A finite value with coefficient `c` and unbiased exponent `e`, both in range,
/// packed in the form whose combination field does not start with `11`.
pub open spec fn pack_finite(neg: bool, c: int, e: int) -> bson_decimal128_t {
    bson_decimal128_t {
        high: ((if neg { SIGN_BIT as int } else { 0 }) + (e + EXPONENT_BIAS) * 0x2_0000_0000_0000
            + c / two64()) as u64,
        low: (c % two64()) as u64,
    }
}

// ---- decoding ----

pub open spec fn is_negative(d: bson_decimal128_t) -> bool {
    d.high >= SIGN_BIT
}

/// The five leading bits after the sign.
pub open spec fn combination(d: bson_decimal128_t) -> u64 {
    (d.high >> 58u64) & 0x1fu64
}

pub open spec fn is_infinity(d: bson_decimal128_t) -> bool {
    combination(d) == 30
}

pub open spec fn is_nan(d: bson_decimal128_t) -> bool {
    combination(d) == 31
}

/// Whether the combination field starts with `11`: the coefficient then has
/// an implied `100` prefix, which puts it above the largest coefficient.
pub open spec fn is_large_form(d: bson_decimal128_t) -> bool {
    (combination(d) >> 3u64) == 3
}

/// The stored (biased) exponent of a finite value.
pub open spec fn biased_exponent(d: bson_decimal128_t) -> u64 {
    if is_large_form(d) {
        (d.high >> 47u64) & 0x3fffu64
    } else {
        (d.high >> 49u64) & 0x3fffu64
    }
}

pub open spec fn exponent(d: bson_decimal128_t) -> int {
    biased_exponent(d) - EXPONENT_BIAS
}

/// The coefficient bits of the plain form.
pub open spec fn raw_coefficient(d: bson_decimal128_t) -> int {
    (d.high & 0x1_ffff_ffff_ffffu64) as int * two64() + d.low as int
}

/// The coefficient of a finite value; one above the largest is read as zero.
pub open spec fn coefficient(d: bson_decimal128_t) -> nat {
    if is_large_form(d) || raw_coefficient(d) > COEFFICIENT_MAX {
        0
    } else {
        raw_coefficient(d) as nat
    }
}

pub fn nan() -> (r: bson_decimal128_t)
    ensures
        r == nan_value(),
{
    bson_decimal128_t { high: NAN_HIGH, low: 0 }
}

pub fn infinity(neg: bool) -> (r: bson_decimal128_t)
    ensures
        r == inf_value(neg),
{
    bson_decimal128_t { high: if neg { INF_HIGH + SIGN_BIT } else { INF_HIGH }, low: 0 }
}

/// Packs a finite value whose coefficient and exponent are in range.
pub fn pack(neg: bool, c: u128, e: i64) -> (r: bson_decimal128_t)
    requires
        c <= COEFFICIENT_MAX,
        EXPONENT_MIN <= e <= EXPONENT_MAX,
    ensures
        r == pack_finite(neg, c as int, e as int),
        !is_nan(r),
        !is_infinity(r),
        !is_large_form(r),
        is_negative(r) == neg,
        coefficient(r) == c,
        exponent(r) == e,
{
    let biased: u64 = (e + EXPONENT_BIAS) as u64;
    let top: u64 = (c / 0x1_0000_0000_0000_0000u128) as u64;
    let low: u64 = (c % 0x1_0000_0000_0000_0000u128) as u64;
    assert(top < 0x2_0000_0000_0000u64);
    assert(biased <= 12287);
    let mid: u64 = biased * 0x2_0000_0000_0000u64;
    let body: u64 = mid + top;
    let high: u64 = if neg { body + SIGN_BIT } else { body };
    let r = bson_decimal128_t { high, low };
    proof {
        lemma_unpack_plain(neg, biased, top, high);
    }
    r
}

/// What decoding reads back from a high word assembled from its parts.
pub proof fn lemma_unpack_plain(neg: bool, biased: u64, top: u64, high: u64)
    requires
        biased <= 12287,
        top < 0x2_0000_0000_0000u64,
        high == (if neg { SIGN_BIT } else { 0 }) + biased * 0x2_0000_0000_0000u64 + top,
    ensures
        (((high >> 58u64) & 0x1fu64) >> 3u64) != 3,
        (high >> 58u64) & 0x1fu64 != 30,
        (high >> 58u64) & 0x1fu64 != 31,
        (high >> 49u64) & 0x3fffu64 == biased,
        high & 0x1_ffff_ffff_ffffu64 == top,
        (high >= SIGN_BIT) == neg,
{
    let s: u64 = if neg { 1 } else { 0 };
    assert(high == (s << 63u64) | (biased << 49u64) | top) by (bit_vector)
        requires
            biased <= 12287,
            top < 0x2_0000_0000_0000u64,
            s <= 1,
            high == (if s == 1 { 0x8000000000000000u64 } else { 0 }) + biased * 0x2_0000_0000_0000u64 + top,
    ;
    assert(
        (((high >> 58u64) & 0x1fu64) >> 3u64) != 3
        && (high >> 58u64) & 0x1fu64 != 30
        && (high >> 58u64) & 0x1fu64 != 31
        && (high >> 49u64) & 0x3fffu64 == biased
        && high & 0x1_ffff_ffff_ffffu64 == top
        && (high >= 0x8000000000000000u64) == (s == 1)
    ) by (bit_vector)
        requires
            biased <= 12287,
            top < 0x2_0000_0000_0000u64,
            s <= 1,
            high == (s << 63u64) | (biased << 49u64) | top,
    ;
}

/// What decoding reads from a packed finite value.
pub proof fn lemma_pack_finite_decodes(neg: bool, c: int, e: int)
    requires
        0 <= c <= COEFFICIENT_MAX,
        EXPONENT_MIN <= e <= EXPONENT_MAX,
    ensures
        ({
            let d = pack_finite(neg, c, e);
            &&& !is_nan(d)
            &&& !is_infinity(d)
            &&& !is_large_form(d)
            &&& is_negative(d) == neg
            &&& coefficient(d) == c
            &&& exponent(d) == e
        }),
{
    let d = pack_finite(neg, c, e);
    let biased = (e + EXPONENT_BIAS) as u64;
    let top = (c / two64()) as u64;
    assert(top < 0x2_0000_0000_0000u64);
    lemma_unpack_plain(neg, biased, top, d.high);
}

/// What decoding reads from the special values.
pub proof fn lemma_specials_decode(neg: bool)
    ensures
        is_infinity(inf_value(neg)),
        !is_nan(inf_value(neg)),
        is_negative(inf_value(neg)) == neg,
        is_nan(nan_value()),
{
    assert((0x7800000000000000u64 >> 58u64) & 0x1fu64 == 30) by (bit_vector);
    assert((0xf800000000000000u64 >> 58u64) & 0x1fu64 == 30) by (bit_vector);
    assert((0x7c00000000000000u64 >> 58u64) & 0x1fu64 == 31) by (bit_vector);
}

} // verus!
