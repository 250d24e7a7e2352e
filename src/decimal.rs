//! The public value type and its 16-byte little-endian wire form.
use vstd::prelude::*;
use vstd::string::StringSliceAdditionalSpecFns;
use crate::layout::bson_decimal128_t;
use crate::format::{bson_decimal128_to_string, format_text};
use crate::parse::{bson_decimal128_from_string, parse_text};

verus! {

/// A BSON Decimal128 value.
#[derive(Clone, Copy, Debug, PartialEq, Eq, Structural)]
pub struct Decimal128(pub bson_decimal128_t);

/// The 64-bit word whose little-endian bytes are `b0`, ..., `b7`.
pub open spec fn word_of(b0: u8, b1: u8, b2: u8, b3: u8, b4: u8, b5: u8, b6: u8, b7: u8) -> u64 {
    (b0 as u64) | ((b1 as u64) << 8u64) | ((b2 as u64) << 16u64) | ((b3 as u64) << 24u64)
        | ((b4 as u64) << 32u64) | ((b5 as u64) << 40u64) | ((b6 as u64) << 48u64) | ((b7
        as u64) << 56u64)
}

/// The word read from the eight bytes of `b` that start at `at`.
pub open spec fn word_at(b: Seq<u8>, at: int) -> u64 {
    word_of(b[at], b[at + 1], b[at + 2], b[at + 3], b[at + 4], b[at + 5], b[at + 6], b[at + 7])
}

/// Byte `i` (0 = least significant) of `w`.
pub open spec fn byte_of(w: u64, i: int) -> u8 {
    ((w >> (8 * i) as u64) & 0xffu64) as u8
}

/// The wire form: the low word, then the high word, each least significant byte first.
pub open spec fn wire_bytes(d: bson_decimal128_t) -> Seq<u8> {
    Seq::new(16, |i: int| if i < 8 { byte_of(d.low, i) } else { byte_of(d.high, i - 8) })
}

impl Decimal128 {
    /// Reads a value from its little-endian wire form.
    pub fn from_bytes(bytes: [u8; 16]) -> (r: Self)
        ensures
            r.0.low == word_at(bytes@, 0),
            r.0.high == word_at(bytes@, 8),
    {
        let low = read_word(&bytes, 0);
        let high = read_word(&bytes, 8);
        Decimal128(bson_decimal128_t { high, low })
    }

    /// Reads decimal text; what is not a number reads as the quiet NaN.
    pub fn parse(s: &str) -> (r: Self)
        ensures
            r.0 == parse_text(s.spec_bytes()),
    {
        Decimal128(bson_decimal128_from_string(s))
    }

    /// The value as decimal text.
    pub fn to_string(&self) -> (r: String)
        ensures
            r@ == format_text(self.0),
    {
        bson_decimal128_to_string(&self.0)
    }

    /// Writes the value in its little-endian wire form.
    pub fn to_bytes(&self) -> (r: [u8; 16])
        ensures
            r@ == wire_bytes(self.0),
    {
        let mut bytes: [u8; 16] = [0u8; 16];
        let mut i: usize = 0;
        while i < 8
            invariant
                i <= 8,
                forall|k: int| 0 <= k < i ==> bytes@[k] == byte_of(self.0.low, k),
                forall|k: int| 0 <= k < i ==> bytes@[8 + k] == byte_of(self.0.high, k),
            decreases 8 - i,
        {
            bytes[i] = ((self.0.low >> (8 * i) as u64) & 0xff) as u8;
            bytes[8 + i] = ((self.0.high >> (8 * i) as u64) & 0xff) as u8;
            i = i + 1;
        }
        assert(bytes@ =~= wire_bytes(self.0));
        bytes
    }
}

impl core::str::FromStr for Decimal128 {
    type Err = core::convert::Infallible;

    fn from_str(s: &str) -> Result<Self, Self::Err> {
        Ok(Decimal128::parse(s))
    }
}

fn read_word(b: &[u8; 16], at: usize) -> (w: u64)
    requires
        at <= 8,
    ensures
        w == word_at(b@, at as int),
{
    (b[at] as u64) | ((b[at + 1] as u64) << 8u64) | ((b[at + 2] as u64) << 16u64) | ((b[at
        + 3] as u64) << 24u64) | ((b[at + 4] as u64) << 32u64) | ((b[at + 5] as u64) << 40u64)
        | ((b[at + 6] as u64) << 48u64) | ((b[at + 7] as u64) << 56u64)
}

/// The text of a value depends on its bits alone: values with the same bits
/// have the same text.
pub proof fn lemma_format_deterministic(a: Decimal128, b: Decimal128)
    requires
        a.0.high == b.0.high,
        a.0.low == b.0.low,
    ensures
        format_text(a.0) == format_text(b.0),
{
}

/// A word is rebuilt from its eight bytes.
pub proof fn lemma_word_of_bytes(w: u64)
    ensures
        word_of(
            byte_of(w, 0),
            byte_of(w, 1),
            byte_of(w, 2),
            byte_of(w, 3),
            byte_of(w, 4),
            byte_of(w, 5),
            byte_of(w, 6),
            byte_of(w, 7),
        ) == w,
{
    assert(word_of(
        ((w >> 0u64) & 0xffu64) as u8,
        ((w >> 8u64) & 0xffu64) as u8,
        ((w >> 16u64) & 0xffu64) as u8,
        ((w >> 24u64) & 0xffu64) as u8,
        ((w >> 32u64) & 0xffu64) as u8,
        ((w >> 40u64) & 0xffu64) as u8,
        ((w >> 48u64) & 0xffu64) as u8,
        ((w >> 56u64) & 0xffu64) as u8,
    ) == w) by (bit_vector);
}

/// Decoding the wire form of a value gives the value back, bit for bit.
pub proof fn lemma_bytes_round_trip(v: Decimal128, bytes: [u8; 16], back: Decimal128)
    requires
        bytes@ == wire_bytes(v.0),
        back.0.low == word_at(bytes@, 0),
        back.0.high == word_at(bytes@, 8),
    ensures
        back == v,
{
    lemma_word_of_bytes(v.0.low);
    lemma_word_of_bytes(v.0.high);
    assert(word_at(bytes@, 0) == v.0.low);
    assert(word_at(bytes@, 8) == v.0.high);
}

/// Each byte of a word assembled from bytes is the byte it was assembled from.
pub proof fn lemma_bytes_of_word(b0: u8, b1: u8, b2: u8, b3: u8, b4: u8, b5: u8, b6: u8, b7: u8)
    ensures
        ({
            let w = word_of(b0, b1, b2, b3, b4, b5, b6, b7);
            &&& byte_of(w, 0) == b0
            &&& byte_of(w, 1) == b1
            &&& byte_of(w, 2) == b2
            &&& byte_of(w, 3) == b3
            &&& byte_of(w, 4) == b4
            &&& byte_of(w, 5) == b5
            &&& byte_of(w, 6) == b6
            &&& byte_of(w, 7) == b7
        }),
{
    let w = word_of(b0, b1, b2, b3, b4, b5, b6, b7);
    assert(
        ((w >> 0u64) & 0xffu64) as u8 == b0
        && ((w >> 8u64) & 0xffu64) as u8 == b1
        && ((w >> 16u64) & 0xffu64) as u8 == b2
        && ((w >> 24u64) & 0xffu64) as u8 == b3
        && ((w >> 32u64) & 0xffu64) as u8 == b4
        && ((w >> 40u64) & 0xffu64) as u8 == b5
        && ((w >> 48u64) & 0xffu64) as u8 == b6
        && ((w >> 56u64) & 0xffu64) as u8 == b7
    ) by (bit_vector)
        requires
            w == (b0 as u64) | ((b1 as u64) << 8u64) | ((b2 as u64) << 16u64) | ((b3 as u64)
                << 24u64) | ((b4 as u64) << 32u64) | ((b5 as u64) << 40u64) | ((b6 as u64)
                << 48u64) | ((b7 as u64) << 56u64),
    ;
}

/// Encoding a value read from 16 bytes gives those bytes back.
pub proof fn lemma_value_round_trip(bytes: [u8; 16], v: Decimal128, back: [u8; 16])
    requires
        v.0.low == word_at(bytes@, 0),
        v.0.high == word_at(bytes@, 8),
        back@ == wire_bytes(v.0),
    ensures
        back@ == bytes@,
{
    assert forall|i: int| 0 <= i < 16 implies back@[i] == bytes@[i] by {
        let at: int = if i < 8 { 0 } else { 8 };
        let j: int = i - at;
        let (b0, b1, b2, b3, b4, b5, b6, b7) = (
            bytes@[at],
            bytes@[at + 1],
            bytes@[at + 2],
            bytes@[at + 3],
            bytes@[at + 4],
            bytes@[at + 5],
            bytes@[at + 6],
            bytes@[at + 7],
        );
        let w = word_of(b0, b1, b2, b3, b4, b5, b6, b7);
        lemma_bytes_of_word(b0, b1, b2, b3, b4, b5, b6, b7);
        assert(byte_of(w, j) == bytes@[i]);
    }
    assert(back@ =~= bytes@);
}

} // verus!
