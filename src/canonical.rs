//! Text written by the formatter reads back as the value it was written from,
//! for every value that the parser produces.
use vstd::prelude::*;
use crate::digits::{
    digits_of, digit_char, num_digits, trailing_zeros, pow10, lemma_digits_len,
    lemma_num_digits_bound, lemma_pow10_34, lemma_pow10_add, lemma_pow10_pos, lemma_append_zeros,
};
use crate::format::{finite_text, format_text};
use crate::parse::{
    is_digit, digit_run, digits_value, is_number_text, coefficient_of, exponent_of, encode_finite,
    parse_text, representable, held_coefficient, held_exponent, unsigned_text, text_negative,
    is_infinity_text, is_nan_text, sign_len,
};
use crate::layout::{
    bson_decimal128_t, coefficient, exponent, is_infinity, is_nan, is_negative, nan_value,
    inf_value, pack_finite, lemma_pack_finite_decodes, lemma_specials_decode, COEFFICIENT_MAX,
    EXPONENT_MIN, EXPONENT_MAX, SIGN_BIT,
};

verus! {

/// The bytes of ASCII text.
pub open spec fn ascii_bytes(cs: Seq<char>) -> Seq<u8> {
    cs.map_values(|c: char| c as u8)
}

proof fn lemma_digit_char_byte(d: nat)
    requires
        d < 10,
    ensures
        digit_char(d) as u8 == 48 + d,
{
}

/// The bytes of `digits_of(c)` are digits, and spell `c`.
proof fn lemma_digits_bytes(c: nat)
    ensures
        ascii_bytes(digits_of(c)).len() == num_digits(c),
        forall|i: int|
            0 <= i < ascii_bytes(digits_of(c)).len() ==> is_digit(
                #[trigger] ascii_bytes(digits_of(c))[i],
            ),
        digits_value(ascii_bytes(digits_of(c))) == c,
    decreases c,
{
    lemma_digits_len(c);
    let s = ascii_bytes(digits_of(c));
    if c < 10 {
        lemma_digit_char_byte(c);
        assert(s.drop_last() =~= Seq::<u8>::empty());
        assert(s.last() == 48 + c);
        assert(digits_value(s) == digits_value(s.drop_last()) * 10 + (s.last() - 48) as nat);
    } else {
        lemma_digits_bytes(c / 10);
        lemma_digit_char_byte(c % 10);
        let a = ascii_bytes(digits_of(c / 10));
        assert(s =~= a.push(digit_char(c % 10) as u8));
        assert(s.drop_last() =~= a);
        assert(s.last() == 48 + c % 10);
        assert(digits_value(s) == digits_value(a) * 10 + (s.last() - 48) as nat);
        assert((c / 10) * 10 + c % 10 == c);
    }
}

/// The run of digits from `i` ends at `j`.
proof fn lemma_digit_run(s: Seq<u8>, i: int, j: int)
    requires
        0 <= i <= j <= s.len(),
        forall|k: int| i <= k < j ==> is_digit(#[trigger] s[k]),
        j == s.len() || !is_digit(s[j]),
    ensures
        digit_run(s, i) == j - i,
    decreases j - i,
{
    if i < j {
        lemma_digit_run(s, i + 1, j);
    }
}

proof fn lemma_zeros_value(z: Seq<u8>)
    requires
        forall|i: int| 0 <= i < z.len() ==> #[trigger] z[i] == 48,
    ensures
        digits_value(z) == 0,
    decreases z.len(),
{
    if z.len() > 0 {
        lemma_zeros_value(z.drop_last());
    }
}

/// Leading zeros do not change the value of a digit string.
proof fn lemma_leading_zeros(z: Seq<u8>, x: Seq<u8>)
    requires
        forall|i: int| 0 <= i < z.len() ==> #[trigger] z[i] == 48,
    ensures
        digits_value(z + x) == digits_value(x),
    decreases x.len(),
{
    if x.len() == 0 {
        assert(z + x =~= z);
        lemma_zeros_value(z);
    } else {
        lemma_leading_zeros(z, x.drop_last());
        assert((z + x).drop_last() =~= z + x.drop_last());
    }
}

spec fn reads_back(t: Seq<u8>, c: nat, e: int) -> bool {
    &&& t.len() > 0
    &&& is_digit(t[0])
    &&& is_number_text(t)
    &&& coefficient_of(t) == c
    &&& exponent_of(t) == e
}

proof fn lemma_plain_whole(c: nat, e: int)
    requires
        c <= COEFFICIENT_MAX,
        e == 0,
        e + digits_of(c).len() - 1 >= -6,
    ensures
        reads_back(ascii_bytes(finite_text(c, e)), c, e),
{
    let a = ascii_bytes(digits_of(c));
    lemma_digits_bytes(c);
    lemma_digits_len(c);
    let n = a.len() as int;
    let t = ascii_bytes(finite_text(c, e));
    assert(t =~= a);
    lemma_digit_run(t, 0, n);
    assert(t.subrange(0, n) + t.subrange(n, n) =~= a);
}

#[verifier::spinoff_prover]
#[verifier::rlimit(60)]
proof fn lemma_plain_split(c: nat, e: int)
    requires
        c <= COEFFICIENT_MAX,
        e < 0,
        e + digits_of(c).len() - 1 >= -6,
        digits_of(c).len() > -e,
    ensures
        reads_back(ascii_bytes(finite_text(c, e)), c, e),
{
    let a = ascii_bytes(digits_of(c));
    lemma_digits_bytes(c);
    lemma_digits_len(c);
    let n = a.len() as int;
    let k = -e;
    let t = ascii_bytes(finite_text(c, e));
    assert(t =~= a.subrange(0, n - k) + seq![46u8] + a.subrange(n - k, n));
    lemma_digit_run(t, 0, n - k);
    lemma_digit_run(t, n - k + 1, n + 1);
    assert(t.subrange(0, n - k) + t.subrange(n - k + 1, n + 1) =~= a);
}

#[verifier::spinoff_prover]
#[verifier::rlimit(60)]
proof fn lemma_plain_padded(c: nat, e: int)
    requires
        c <= COEFFICIENT_MAX,
        e < 0,
        e + digits_of(c).len() - 1 >= -6,
        digits_of(c).len() <= -e,
    ensures
        reads_back(ascii_bytes(finite_text(c, e)), c, e),
{
    let a = ascii_bytes(digits_of(c));
    lemma_digits_bytes(c);
    lemma_digits_len(c);
    let n = a.len() as int;
    let k = -e;
    let t = ascii_bytes(finite_text(c, e));
    let z = Seq::new((k - n) as nat, |i: int| 48u8);
    assert(t =~= seq![48u8, 46u8] + z + a);
    lemma_digit_run(t, 0, 1);
    lemma_digit_run(t, 2, k + 2);
    let zz = seq![48u8] + z;
    assert(t.subrange(0, 1) + t.subrange(2, k + 2) =~= zz + a);
    lemma_leading_zeros(zz, a);
}

#[verifier::spinoff_prover]
#[verifier::rlimit(60)]
proof fn lemma_scientific(c: nat, e: int)
    requires
        c <= COEFFICIENT_MAX,
        -6176 <= e <= 6111,
        !(e <= 0 && e + digits_of(c).len() - 1 >= -6),
    ensures
        reads_back(ascii_bytes(finite_text(c, e)), c, e),
{
    let a = ascii_bytes(digits_of(c));
    lemma_digits_bytes(c);
    lemma_digits_len(c);
    let n = a.len() as int;
    let adjusted = e + n - 1;
    let t = ascii_bytes(finite_text(c, e));
    let x = if adjusted < 0 {
        -adjusted
    } else {
        adjusted
    };
    let xs = ascii_bytes(digits_of(x as nat));
    lemma_digits_bytes(x as nat);
    let sign: u8 = if adjusted < 0 {
        45
    } else {
        43
    };
    let me = if n > 1 {
        n + 1
    } else {
        1
    };
    let mant = if n > 1 {
        seq![a[0], 46u8] + a.subrange(1, n)
    } else {
        seq![a[0]]
    };
    assert(t =~= mant + seq![69u8, sign] + xs);
    lemma_digit_run(t, 0, 1);
    if n > 1 {
        lemma_digit_run(t, 2, n + 1);
        assert(t.subrange(0, 1) + t.subrange(2, n + 1) =~= a);
    } else {
        assert(t.subrange(0, 1) + t.subrange(1, 1) =~= a);
    }
    lemma_digit_run(t, me + 2, t.len() as int);
    assert(t.subrange(me + 2, t.len() as int) =~= xs);
}

/// What the grammar reads from the text of a finite value.
proof fn lemma_finite_text_reads_back(c: nat, e: int)
    requires
        c <= COEFFICIENT_MAX,
        -6176 <= e <= 6111,
    ensures
        reads_back(ascii_bytes(finite_text(c, e)), c, e),
{
    let n = digits_of(c).len() as int;
    if e <= 0 && e + n - 1 >= -6 {
        if e == 0 {
            lemma_plain_whole(c, e);
        } else if n > -e {
            lemma_plain_split(c, e);
        } else {
            lemma_plain_padded(c, e);
        }
    } else {
        lemma_scientific(c, e);
    }
}

/// `c` without its trailing zeros.
spec fn strip_zeros(c: nat) -> nat
    decreases c,
{
    if c == 0 || c % 10 != 0 {
        c
    } else {
        strip_zeros(c / 10)
    }
}

proof fn lemma_strip_zeros(c: nat)
    requires
        c > 0,
    ensures
        strip_zeros(c) > 0,
        c == strip_zeros(c) * pow10(trailing_zeros(c)),
    decreases c,
{
    if c % 10 == 0 {
        lemma_strip_zeros(c / 10);
        let q = strip_zeros(c / 10);
        let t = trailing_zeros(c / 10);
        assert(pow10(t + 1) == 10 * pow10(t));
        assert(c == (q * pow10(t)) * 10);
        assert(q * pow10(t + 1) == (q * pow10(t)) * 10) by (nonlinear_arith)
            requires
                pow10(t + 1) == 10 * pow10(t),
        ;
        assert(strip_zeros(c) == q);
        assert(trailing_zeros(c) == t + 1);
    } else {
        assert(pow10(0) == 1);
        assert(trailing_zeros(c) == 0);
        assert(c * pow10(0) == c);
    }
}

/// A value is finite and in canonical form: its fields are in range, and
/// packing them again gives the same bits.
pub open spec fn is_canonical_finite(d: bson_decimal128_t, neg: bool) -> bool {
    &&& !is_nan(d)
    &&& !is_infinity(d)
    &&& is_negative(d) == neg
    &&& coefficient(d) <= COEFFICIENT_MAX
    &&& EXPONENT_MIN <= exponent(d) <= EXPONENT_MAX
    &&& d == pack_finite(neg, coefficient(d) as int, exponent(d))
}

/// The coefficient and exponent that hold a representable number are in range.
#[verifier::spinoff_prover]
#[verifier::rlimit(60)]
pub proof fn lemma_held_in_range(c: nat, e: int)
    requires
        representable(c, e),
    ensures
        held_coefficient(c, e) <= COEFFICIENT_MAX,
        EXPONENT_MIN <= held_exponent(c, e) <= EXPONENT_MAX,
{
    let e2 = held_exponent(c, e);
    let c2 = held_coefficient(c, e);
    if c == 0 {
        lemma_pow10_pos((e2 - e) as nat);
        assert(c2 == 0);
    } else {
        let t = trailing_zeros(c) as int;
        lemma_strip_zeros(c);
        let core = strip_zeros(c);
        lemma_append_zeros(core, t as nat);
        if e2 >= e {
            let m = (e2 - e) as nat;
            let r = (t - m) as nat;
            lemma_pow10_add(r, m);
            lemma_pow10_pos(m);
            assert(c == (core * pow10(r)) * pow10(m)) by (nonlinear_arith)
                requires
                    c == core * pow10(t as nat),
                    pow10(t as nat) == pow10(r) * pow10(m),
            ;
            vstd::arithmetic::div_mod::lemma_div_by_multiple((core * pow10(r)) as int, pow10(m) as int);
            lemma_append_zeros(core, r);
        } else {
            lemma_append_zeros(c, (e - e2) as nat);
        }
        lemma_num_digits_bound(c2, 34);
        lemma_pow10_34();
    }
}

/// A number is held exactly, in canonical form, or not at all.
pub proof fn lemma_encode_canonical(neg: bool, c: nat, e: int)
    ensures
        encode_finite(neg, c, e) == nan_value() || is_canonical_finite(encode_finite(neg, c, e), neg),
{
    if representable(c, e) {
        lemma_held_in_range(c, e);
        lemma_pack_finite_decodes(neg, held_coefficient(c, e) as int, held_exponent(c, e));
    }
}

proof fn lemma_reparse_finite(d: bson_decimal128_t, neg: bool)
    requires
        is_canonical_finite(d, neg),
    ensures
        parse_text(ascii_bytes(format_text(d))) == d,
{
    let c = coefficient(d);
    let e = exponent(d);
    lemma_finite_text_reads_back(c, e);
    let f = ascii_bytes(finite_text(c, e));
    let b = ascii_bytes(format_text(d));
    if neg {
        assert(b =~= seq![45u8] + f);
    } else {
        assert(b =~= f);
    }
    assert(unsigned_text(b) =~= f);
    assert(text_negative(b) == neg);
    if c > 0 {
        lemma_num_digits_bound(c, 34);
        lemma_pow10_34();
        assert(pow10(0) == 1);
        assert(c / 1 == c);
    }
}

proof fn lemma_reparse_nan()
    ensures
        parse_text(ascii_bytes(format_text(nan_value()))) == nan_value(),
{
    lemma_specials_decode(false);
    let b = ascii_bytes(format_text(nan_value()));
    assert(b =~= seq![78u8, 97u8, 78u8]);
    assert(unsigned_text(b) =~= b);
}

proof fn lemma_reparse_infinity(neg: bool)
    ensures
        parse_text(ascii_bytes(format_text(inf_value(neg)))) == inf_value(neg),
{
    lemma_specials_decode(neg);
    let b = ascii_bytes(format_text(inf_value(neg)));
    let word = seq![73u8, 110u8, 102u8, 105u8, 110u8, 105u8, 116u8, 121u8];
    if neg {
        assert(b =~= seq![45u8] + word);
    } else {
        assert(b =~= word);
    }
    assert(unsigned_text(b) =~= word);
}

/// Writing a value that was read from text, and reading what was written,
/// gives that value back, bit for bit. (The text is ASCII: its bytes are its
/// characters.)
pub proof fn lemma_reparse(s: Seq<u8>)
    ensures
        parse_text(ascii_bytes(format_text(parse_text(s)))) == parse_text(s),
{
    let t = unsigned_text(s);
    let neg = text_negative(s);
    if is_infinity_text(t) {
        lemma_reparse_infinity(neg);
    } else if is_nan_text(t) || !is_number_text(t) {
        lemma_reparse_nan();
    } else {
        lemma_encode_canonical(neg, coefficient_of(t), exponent_of(t));
        if parse_text(s) == nan_value() {
            lemma_reparse_nan();
        } else {
            lemma_reparse_finite(parse_text(s), neg);
        }
    }
}

/// Read, write, read is stable: one more round of writing and reading
/// changes nothing.
pub proof fn lemma_parse_format_idempotent(s: Seq<u8>)
    ensures
        parse_text(ascii_bytes(format_text(parse_text(s)))) == parse_text(
            ascii_bytes(format_text(parse_text(ascii_bytes(format_text(parse_text(s)))))),
        ),
{
    lemma_reparse(s);
    lemma_reparse(ascii_bytes(format_text(parse_text(s))));
}

/// A leading minus sign changes only the sign bit of what text reads as,
/// for numbers (zero included) and infinities; NaN has no sign.
pub proof fn lemma_minus_sign(t: Seq<u8>)
    requires
        sign_len(t) == 0,
        parse_text(t) != nan_value(),
    ensures
        parse_text(seq![45u8] + t).high == parse_text(t).high + SIGN_BIT,
        parse_text(seq![45u8] + t).low == parse_text(t).low,
{
    let m = seq![45u8] + t;
    assert(unsigned_text(m) =~= t);
    assert(unsigned_text(t) =~= t);
    if !is_infinity_text(t) && !is_nan_text(t) && is_number_text(t) {
        let c = coefficient_of(t);
        let e = exponent_of(t);
        assert(representable(c, e));
        lemma_held_in_range(c, e);
        let c2 = held_coefficient(c, e) as int;
        assert(c2 / 0x1_0000_0000_0000_0000 < 0x2_0000_0000_0000);
    }
}

} // verus!
