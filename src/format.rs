//! Decimal text of a packed value, by the "to-scientific-string" rules.
use vstd::prelude::*;
use crate::digits::{digits_of, push_digits, lemma_digits_len};
use crate::layout::{
    bson_decimal128_t, coefficient, exponent, is_infinity, is_nan, is_negative, COEFFICIENT_MAX,
    EXPONENT_BIAS, SIGN_BIT,
};

verus! {

/// Plain notation: the digits `ds` with exactly `k` of them after the point,
/// padded on the left with zeros as needed.
pub open spec fn plain_text(ds: Seq<char>, k: int) -> Seq<char> {
    let n = ds.len() as int;
    if k == 0 {
        ds
    } else if n > k {
        ds.subrange(0, n - k) + seq!['.'] + ds.subrange(n - k, n)
    } else {
        seq!['0', '.'] + Seq::new((k - n) as nat, |i: int| '0') + ds
    }
}

/// A signed exponent with an explicit sign and no leading zeros.
pub open spec fn exponent_text(x: int) -> Seq<char> {
    if x < 0 {
        seq!['-'] + digits_of((-x) as nat)
    } else {
        seq!['+'] + digits_of(x as nat)
    }
}

/// Scientific notation: one digit, the others after a point, then `E` and the
/// adjusted exponent.
pub open spec fn scientific_text(ds: Seq<char>, adjusted: int) -> Seq<char> {
    let n = ds.len() as int;
    let fraction = if n > 1 {
        seq!['.'] + ds.subrange(1, n)
    } else {
        Seq::<char>::empty()
    };
    seq![ds[0]] + fraction + seq!['E'] + exponent_text(adjusted)
}

/// The text of a finite value without its sign.
pub open spec fn finite_text(c: nat, e: int) -> Seq<char> {
    let ds = digits_of(c);
    let adjusted = e + ds.len() - 1;
    if e <= 0 && adjusted >= -6 {
        plain_text(ds, -e)
    } else {
        scientific_text(ds, adjusted)
    }
}

/// The text of any packed value. NaN never shows a sign.
pub open spec fn format_text(d: bson_decimal128_t) -> Seq<char> {
    if is_nan(d) {
        seq!['N', 'a', 'N']
    } else {
        let sign = if is_negative(d) {
            seq!['-']
        } else {
            Seq::<char>::empty()
        };
        if is_infinity(d) {
            sign + seq!['I', 'n', 'f', 'i', 'n', 'i', 't', 'y']
        } else {
            sign + finite_text(coefficient(d), exponent(d))
        }
    }
}

/// Relies on `String: FromIterator<char>`: the string holds the characters in order.
#[verifier::external_body]
fn string_from_chars(v: &Vec<char>) -> (r: String)
    ensures
        r@ == v@,
{
    v.iter().collect()
}

fn append_range(out: &mut Vec<char>, src: &Vec<char>, from: usize, to: usize)
    requires
        from <= to <= src@.len(),
    ensures
        final(out)@ == old(out)@ + src@.subrange(from as int, to as int),
{
    let mut i: usize = from;
    while i < to
        invariant
            from <= i <= to <= src@.len(),
            out@ == old(out)@ + src@.subrange(from as int, i as int),
        decreases to - i,
    {
        out.push(src[i]);
        i = i + 1;
        assert(out@ =~= old(out)@ + src@.subrange(from as int, i as int));
    }
}

fn append_zeros(out: &mut Vec<char>, k: usize)
    ensures
        final(out)@ == old(out)@ + Seq::new(k as nat, |i: int| '0'),
{
    let mut i: usize = 0;
    while i < k
        invariant
            i <= k,
            out@ == old(out)@ + Seq::new(i as nat, |j: int| '0'),
        decreases k - i,
    {
        out.push('0');
        i = i + 1;
        assert(out@ =~= old(out)@ + Seq::new(i as nat, |j: int| '0'));
    }
}

/// Appends the text of a finite value with coefficient `c` and exponent `e`.
fn append_finite(out: &mut Vec<char>, c: u128, e: i64)
    requires
        c <= COEFFICIENT_MAX,
        -6176 <= e <= 10207,
    ensures
        final(out)@ == old(out)@ + finite_text(c as nat, e as int),
{
    let mut ds: Vec<char> = Vec::new();
    push_digits(c, &mut ds);
    proof {
        lemma_digits_len(c as nat);
        assert(ds@ =~= digits_of(c as nat));
        crate::digits::lemma_num_digits_bound(c as nat, 34);
        assert(crate::digits::pow10(34) == 10000000000000000000000000000000000nat) by {
            reveal_with_fuel(crate::digits::pow10, 35);
        }
    }
    let n: usize = ds.len();
    let adjusted: i64 = e + n as i64 - 1;
    if e <= 0 && adjusted >= -6 {
        let k: usize = (-e) as usize;
        if k == 0 {
            append_range(out, &ds, 0, n);
            assert(ds@.subrange(0, n as int) =~= ds@);
        } else if n > k {
            append_range(out, &ds, 0, n - k);
            out.push('.');
            append_range(out, &ds, n - k, n);
        } else {
            out.push('0');
            out.push('.');
            append_zeros(out, k - n);
            append_range(out, &ds, 0, n);
            assert(ds@.subrange(0, n as int) =~= ds@);
        }
    } else {
        out.push(ds[0]);
        if n > 1 {
            out.push('.');
            append_range(out, &ds, 1, n);
        }
        out.push('E');
        if adjusted < 0 {
            out.push('-');
            push_digits((-adjusted) as u128, out);
        } else {
            out.push('+');
            push_digits(adjusted as u128, out);
        }
    }
    assert(final(out)@ =~= old(out)@ + finite_text(c as nat, e as int));
}

/// Formats a packed value as decimal text.
pub fn bson_decimal128_to_string(dec: &bson_decimal128_t) -> (r: String)
    ensures
        r@ == format_text(*dec),
{
    let high = dec.high;
    let comb: u64 = (high >> 58u64) & 0x1fu64;
    let mut out: Vec<char> = Vec::new();
    if comb == 31 {
        out.push('N');
        out.push('a');
        out.push('N');
    } else {
        if high >= SIGN_BIT {
            out.push('-');
        }
        if comb == 30 {
            out.push('I');
            out.push('n');
            out.push('f');
            out.push('i');
            out.push('n');
            out.push('i');
            out.push('t');
            out.push('y');
        } else {
            let large = (comb >> 3u64) == 3;
            let biased: u64 = if large {
                (high >> 47u64) & 0x3fffu64
            } else {
                (high >> 49u64) & 0x3fffu64
            };
            let top: u64 = high & 0x1_ffff_ffff_ffffu64;
            assert(top <= 0x1_ffff_ffff_ffffu64) by (bit_vector)
                requires
                    top == high & 0x1_ffff_ffff_ffffu64,
            ;
            assert(biased <= 0x3fffu64) by (bit_vector)
                requires
                    biased == (high >> 47u64) & 0x3fffu64 || biased == (high >> 49u64) & 0x3fffu64,
            ;
            let raw: u128 = (top as u128) * 0x1_0000_0000_0000_0000u128 + dec.low as u128;
            let c: u128 = if large || raw > COEFFICIENT_MAX {
                0
            } else {
                raw
            };
            let e: i64 = biased as i64 - EXPONENT_BIAS;
            assert(c == coefficient(*dec));
            assert(e == exponent(*dec));
            append_finite(&mut out, c, e);
        }
    }
    let r = string_from_chars(&out);
    assert(out@ =~= format_text(*dec));
    r
}

} // verus!
