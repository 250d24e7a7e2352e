//! Decimal text to a packed value. Text that is not a number, an infinity or
//! a NaN, or a number that cannot be held exactly, reads as the quiet NaN.
use vstd::prelude::*;
use vstd::string::StringSliceAdditionalSpecFns;
use crate::digits::{
    pow10, num_digits, trailing_zeros, lemma_append_digit, lemma_append_zeros,
    lemma_num_digits_bound, lemma_pow10_add, lemma_pow10_pos, pow10_u128, lemma_pow10_34,
};
use crate::layout::{
    bson_decimal128_t, pack_finite, nan_value, inf_value, nan, infinity, pack,
    COEFFICIENT_MAX, EXPONENT_MIN, EXPONENT_MAX, NAN_HIGH,
};

verus! {

// ---- the grammar ----

pub open spec fn is_digit(b: u8) -> bool {
    48 <= b <= 57
}

/// ASCII lower case of a byte.
pub open spec fn lower(b: u8) -> u8 {
    if 65 <= b <= 90 {
        (b + 32) as u8
    } else {
        b
    }
}

/// Length of the run of digits that starts at `i`.
pub open spec fn digit_run(s: Seq<u8>, i: int) -> int
    decreases s.len() - i,
{
    if 0 <= i < s.len() && is_digit(s[i]) {
        1 + digit_run(s, i + 1)
    } else {
        0
    }
}

/// The number that a string of digits spells.
pub open spec fn digits_value(s: Seq<u8>) -> nat
    decreases s.len(),
{
    if s.len() == 0 {
        0
    } else {
        digits_value(s.drop_last()) * 10 + (s.last() - 48) as nat
    }
}

/// Length of a leading `+` or `-`.
pub open spec fn sign_len(s: Seq<u8>) -> int {
    if s.len() > 0 && (s[0] == 43 || s[0] == 45) {
        1
    } else {
        0
    }
}

pub open spec fn text_negative(s: Seq<u8>) -> bool {
    sign_len(s) == 1 && s[0] == 45
}

/// The text after its sign.
pub open spec fn unsigned_text(s: Seq<u8>) -> Seq<u8> {
    s.subrange(sign_len(s), s.len() as int)
}

/// `inf` or `infinity`, in any case.
pub open spec fn is_infinity_text(t: Seq<u8>) -> bool {
    (t.len() == 3 && lower(t[0]) == 105 && lower(t[1]) == 110 && lower(t[2]) == 102) || (
    t.len() == 8 && lower(t[0]) == 105 && lower(t[1]) == 110 && lower(t[2]) == 102 && lower(t[3])
        == 105 && lower(t[4]) == 110 && lower(t[5]) == 105 && lower(t[6]) == 116 && lower(t[7])
        == 121)
}

/// `nan`, in any case.
pub open spec fn is_nan_text(t: Seq<u8>) -> bool {
    t.len() == 3 && lower(t[0]) == 110 && lower(t[1]) == 97 && lower(t[2]) == 110
}

/// Digits before the point.
pub open spec fn int_len(t: Seq<u8>) -> int {
    digit_run(t, 0)
}

pub open spec fn has_point(t: Seq<u8>) -> bool {
    int_len(t) < t.len() && t[int_len(t)] == 46
}

pub open spec fn frac_start(t: Seq<u8>) -> int {
    if has_point(t) {
        int_len(t) + 1
    } else {
        int_len(t)
    }
}

/// Digits after the point.
pub open spec fn frac_len(t: Seq<u8>) -> int {
    if has_point(t) {
        digit_run(t, frac_start(t))
    } else {
        0
    }
}

pub open spec fn mantissa_end(t: Seq<u8>) -> int {
    frac_start(t) + frac_len(t)
}

/// An `e` or `E` follows the mantissa.
pub open spec fn has_exponent(t: Seq<u8>) -> bool {
    mantissa_end(t) < t.len() && (t[mantissa_end(t)] == 101 || t[mantissa_end(t)] == 69)
}

pub open spec fn exponent_sign_len(t: Seq<u8>) -> int {
    let p = mantissa_end(t) + 1;
    if has_exponent(t) && p < t.len() && (t[p] == 43 || t[p] == 45) {
        1
    } else {
        0
    }
}

pub open spec fn exponent_start(t: Seq<u8>) -> int {
    mantissa_end(t) + 1 + exponent_sign_len(t)
}

pub open spec fn exponent_len(t: Seq<u8>) -> int {
    if has_exponent(t) {
        digit_run(t, exponent_start(t))
    } else {
        0
    }
}

pub open spec fn number_end(t: Seq<u8>) -> int {
    if has_exponent(t) {
        exponent_start(t) + exponent_len(t)
    } else {
        mantissa_end(t)
    }
}

/// `digits [. digits] [(e|E) [+|-] digits]`, with at least one mantissa digit,
/// and nothing after it.
pub open spec fn is_number_text(t: Seq<u8>) -> bool {
    &&& int_len(t) + frac_len(t) > 0
    &&& has_exponent(t) ==> exponent_len(t) > 0
    &&& number_end(t) == t.len()
}

/// The mantissa digits, without the point, as one number.
pub open spec fn coefficient_of(t: Seq<u8>) -> nat {
    digits_value(t.subrange(0, int_len(t)) + t.subrange(frac_start(t), mantissa_end(t)))
}

/// The written exponent, less the number of digits after the point.
pub open spec fn exponent_of(t: Seq<u8>) -> int {
    let written = if has_exponent(t) {
        let v = digits_value(t.subrange(exponent_start(t), number_end(t))) as int;
        if exponent_sign_len(t) == 1 && t[mantissa_end(t) + 1] == 45 {
            -v
        } else {
            v
        }
    } else {
        0
    };
    written - frac_len(t)
}

// ---- exact representation ----

pub open spec fn clamp(x: int, lo: int, hi: int) -> int {
    if x < lo {
        lo
    } else if x > hi {
        hi
    } else {
        x
    }
}

/// The smallest exponent that can hold a positive `c * 10^e`: the coefficient
/// has at most 34 digits, and the exponent is in range.
pub open spec fn lowest_exponent(c: nat, e: int) -> int {
    let n = num_digits(c) as int;
    if e + n - 34 > EXPONENT_MIN {
        e + n - 34
    } else {
        EXPONENT_MIN as int
    }
}

/// The largest exponent that can hold a positive `c * 10^e`: only trailing
/// zeros of `c` can move into the exponent, and the exponent is in range.
pub open spec fn highest_exponent(c: nat, e: int) -> int {
    let t = trailing_zeros(c) as int;
    if e + t < EXPONENT_MAX {
        e + t
    } else {
        EXPONENT_MAX as int
    }
}

/// Whether some packed value holds `c * 10^e` exactly.
pub open spec fn representable(c: nat, e: int) -> bool {
    c == 0 || lowest_exponent(c, e) <= highest_exponent(c, e)
}

/// The exponent that holds `c * 10^e`: of those that can, the nearest to `e`.
/// Zero takes the nearest exponent in range.
pub open spec fn held_exponent(c: nat, e: int) -> int {
    if c == 0 {
        clamp(e, EXPONENT_MIN as int, EXPONENT_MAX as int)
    } else {
        clamp(e, lowest_exponent(c, e), highest_exponent(c, e))
    }
}

/// The coefficient that goes with `held_exponent(c, e)`.
pub open spec fn held_coefficient(c: nat, e: int) -> nat {
    let e2 = held_exponent(c, e);
    if e2 >= e {
        c / pow10((e2 - e) as nat)
    } else {
        c * pow10((e - e2) as nat)
    }
}

/// The value `c * 10^e`, held exactly, or the quiet NaN where no packed value
/// holds it.
pub open spec fn encode_finite(neg: bool, c: nat, e: int) -> bson_decimal128_t {
    if representable(c, e) {
        pack_finite(neg, held_coefficient(c, e) as int, held_exponent(c, e))
    } else {
        nan_value()
    }
}

/// The value that text reads as.
pub open spec fn parse_text(s: Seq<u8>) -> bson_decimal128_t {
    let t = unsigned_text(s);
    if is_infinity_text(t) {
        inf_value(text_negative(s))
    } else if is_nan_text(t) {
        nan_value()
    } else if is_number_text(t) {
        encode_finite(text_negative(s), coefficient_of(t), exponent_of(t))
    } else {
        nan_value()
    }
}

// ---- reading the coefficient ----

/// The mantissa digits read so far, kept as the digits from the first nonzero
/// one to the last nonzero one (`core`, `core_digits` of them) and a count of
/// zeros after it. Once the digits from the first to the last nonzero one are
/// more than 34, no exponent can hold the value, and only that is kept.
struct CoefficientDigits {
    core: u128,
    core_digits: usize,
    zeros: usize,
    too_long: bool,
}

spec fn models(a: CoefficientDigits, d: Seq<u8>) -> bool {
    let v = digits_value(d);
    if a.too_long {
        v > 0 && num_digits(v) - trailing_zeros(v) > 34
    } else {
        &&& a.core <= COEFFICIENT_MAX
        &&& v == a.core * pow10(a.zeros as nat)
        &&& a.core == 0 ==> a.zeros == 0
        &&& a.core > 0 ==> a.core % 10 != 0 && num_digits(a.core as nat) == a.core_digits
        &&& a.core_digits <= 34
        &&& a.core_digits + a.zeros <= d.len()
    }
}

proof fn lemma_digits_value_push(d: Seq<u8>, x: u8)
    ensures
        digits_value(d.push(x)) == digits_value(d) * 10 + (x - 48) as nat,
{
    assert(d.push(x).drop_last() =~= d);
}

/// Adds one mantissa digit.
#[verifier::spinoff_prover]
#[verifier::rlimit(30)]
fn push_digit(a: CoefficientDigits, x: u8, Ghost(d): Ghost<Seq<u8>>) -> (r: CoefficientDigits)
    requires
        models(a, d),
        is_digit(x),
        d.len() < usize::MAX,
    ensures
        models(r, d.push(x)),
{
    proof {
        lemma_digits_value_push(d, x);
    }
    let v = Ghost(digits_value(d));
    let dv: u8 = x - 48;
    if a.too_long {
        proof {
            lemma_append_digit(v@, dv as nat);
        }
        a
    } else if a.core == 0 {
        proof {
            assert(pow10(0) == 1);
            assert(v@ == 0);
        }
        if dv == 0 {
            assert(digits_value(d.push(x)) == 0);
            a
        } else {
            let r = CoefficientDigits { core: dv as u128, core_digits: 1, zeros: 0, too_long: false };
            assert(digits_value(d.push(x)) == dv);
            assert(r.core * pow10(0) == r.core);
            assert(num_digits(dv as nat) == 1);
            assert(models(r, d.push(x)));
            r
        }
    } else if dv == 0 {
        proof {
            assert(pow10((a.zeros + 1) as nat) == 10 * pow10(a.zeros as nat));
            assert(v@ * 10 == a.core * pow10((a.zeros + 1) as nat)) by (nonlinear_arith)
                requires
                    v@ == a.core * pow10(a.zeros as nat),
                    pow10((a.zeros + 1) as nat) == 10 * pow10(a.zeros as nat),
            ;
        }
        let r = CoefficientDigits { zeros: a.zeros + 1, ..a };
        assert(models(r, d.push(x)));
        r
    } else {
        proof {
            lemma_append_zeros(a.core as nat, a.zeros as nat);
            lemma_append_digit(v@, dv as nat);
        }
        if a.core_digits + a.zeros + 1 > 34 {
            CoefficientDigits { core: 0, core_digits: 0, zeros: 0, too_long: true }
        } else {
            let k: usize = a.zeros + 1;
            proof {
                lemma_append_zeros(a.core as nat, k as nat);
                lemma_num_digits_bound(a.core as nat * pow10(k as nat), 34);
                lemma_pow10_34();
                assert(pow10(k as nat) == 10 * pow10(a.zeros as nat));
                assert(a.core * pow10(k as nat) == v@ * 10) by (nonlinear_arith)
                    requires
                        v@ == a.core * pow10(a.zeros as nat),
                        pow10(k as nat) == 10 * pow10(a.zeros as nat),
                ;
                lemma_num_digits_bound((v@ * 10 + dv) as nat, 34);
                assert((v@ * 10 + dv) % 10 == dv) by (nonlinear_arith)
                    requires
                        0 < dv < 10,
                ;
                assert(pow10(0) == 1);
            }
            let shifted: u128 = a.core * pow10_u128(k as u32);
            let r = CoefficientDigits {
                core: shifted + dv as u128,
                core_digits: a.core_digits + k,
                zeros: 0,
                too_long: false,
            };
            assert(r.core * pow10(0) == r.core);
            assert(models(r, d.push(x)));
            r
        }
    }
}

/// Adds the digits `t[from..to]`.
fn push_digits_of(
    a: CoefficientDigits,
    t: &Vec<u8>,
    from: usize,
    to: usize,
    Ghost(d): Ghost<Seq<u8>>,
) -> (r: CoefficientDigits)
    requires
        models(a, d),
        from <= to <= t@.len(),
        forall|i: int| from <= i < to ==> is_digit(#[trigger] t@[i]),
        d.len() + (to - from) <= t@.len(),
    ensures
        models(r, d + t@.subrange(from as int, to as int)),
{
    let n: usize = t.len();
    let mut acc = a;
    let mut i: usize = from;
    while i < to
        invariant
            from <= i <= to <= t@.len(),
            forall|j: int| from <= j < to ==> is_digit(#[trigger] t@[j]),
            d.len() + (to - from) <= t@.len() == n,
            models(acc, d + t@.subrange(from as int, i as int)),
        decreases to - i,
    {
        let ghost before = d + t@.subrange(from as int, i as int);
        acc = push_digit(acc, t[i], Ghost(before));
        i = i + 1;
        assert(before.push(t@[i - 1]) =~= d + t@.subrange(from as int, i as int));
    }
    acc
}

/// Packs `c * 10^e`, with `c` the digits that `a` has read.
fn finish(neg: bool, a: CoefficientDigits, e: i128, Ghost(d): Ghost<Seq<u8>>) -> (r: bson_decimal128_t)
    requires
        models(a, d),
        d.len() <= usize::MAX,
        -0x40_0000_0000_0000_0000_0000_0000 < e < 0x40_0000_0000_0000_0000_0000_0000,
    ensures
        r == encode_finite(neg, digits_value(d), e as int),
{
    let ghost c = digits_value(d);
    if a.too_long {
        nan()
    } else if a.core == 0 {
        proof {
            lemma_pow10_pos((held_exponent(0, e as int) - e) as nat);
            assert(held_coefficient(0, e as int) == 0);
            assert(models(a, d));
            assert(a.zeros == 0);
            assert(pow10(0) == 1);
            assert(c == a.core * pow10(a.zeros as nat));
            assert(c == 0);
        }
        let e2: i128 = if e < EXPONENT_MIN as i128 {
            EXPONENT_MIN as i128
        } else if e > EXPONENT_MAX as i128 {
            EXPONENT_MAX as i128
        } else {
            e
        };
        pack(neg, 0, e2 as i64)
    } else {
        proof {
            lemma_append_zeros(a.core as nat, a.zeros as nat);
            assert(trailing_zeros(a.core as nat) == 0);
        }
        let n: i128 = (a.core_digits + a.zeros) as i128;
        let tz: i128 = a.zeros as i128;
        let lo: i128 = if e + n - 34 > EXPONENT_MIN as i128 {
            e + n - 34
        } else {
            EXPONENT_MIN as i128
        };
        let hi: i128 = if e + tz < EXPONENT_MAX as i128 {
            e + tz
        } else {
            EXPONENT_MAX as i128
        };
        if lo > hi {
            nan()
        } else {
            let e2: i128 = if e < lo {
                lo
            } else if e > hi {
                hi
            } else {
                e
            };
            let k: i128 = tz + e - e2;
            let shifted = pow10_u128(k as u32);
            proof {
                lemma_append_zeros(a.core as nat, k as nat);
                lemma_num_digits_bound(a.core as nat * pow10(k as nat), 34);
                lemma_pow10_34();
                lemma_pow10_pos(k as nat);
                if e2 >= e {
                    let m = (e2 - e) as nat;
                    lemma_pow10_add(k as nat, m);
                    lemma_pow10_pos(m);
                    assert(c == (a.core * pow10(k as nat)) * pow10(m)) by (nonlinear_arith)
                        requires
                            c == a.core * pow10(a.zeros as nat),
                            pow10(a.zeros as nat) == pow10(k as nat) * pow10(m),
                    ;
                    vstd::arithmetic::div_mod::lemma_div_by_multiple(
                        a.core * pow10(k as nat),
                        pow10(m) as int,
                    );
                } else {
                    let m = (e - e2) as nat;
                    lemma_pow10_add(a.zeros as nat, m);
                    assert(c * pow10(m) == a.core * (pow10(a.zeros as nat) * pow10(m))) by (nonlinear_arith)
                        requires
                            c == a.core * pow10(a.zeros as nat),
                    ;
                }
            }
            let c2: u128 = a.core * shifted;
            pack(neg, c2, e2 as i64)
        }
    }
}

/// The end of the run of digits that starts at `from`.
fn scan_digits(t: &Vec<u8>, from: usize) -> (r: usize)
    requires
        from <= t@.len(),
    ensures
        r == from + digit_run(t@, from as int),
        from <= r,
        r <= t@.len(),
        forall|i: int| from <= i < r ==> is_digit(#[trigger] t@[i]),
{
    let mut i: usize = from;
    while i < t.len() && t[i] >= 48 && t[i] <= 57
        invariant
            from <= i <= t@.len(),
            digit_run(t@, from as int) == (i - from) + digit_run(t@, i as int),
            forall|j: int| from <= j < i ==> is_digit(#[trigger] t@[j]),
        decreases t@.len() - i,
    {
        i = i + 1;
    }
    i
}

/// Exponents this large in magnitude are read only as "too large".
pub const EXPONENT_READ_LIMIT: u128 = 0x10_0000_0000_0000_0000_0000_0000;

/// Reads the digits `t[from..to]` as a number, stopping at the read limit.
fn read_exponent(t: &Vec<u8>, from: usize, to: usize) -> (r: u128)
    requires
        from <= to <= t@.len(),
        forall|i: int| from <= i < to ==> is_digit(#[trigger] t@[i]),
    ensures
        digits_value(t@.subrange(from as int, to as int)) < EXPONENT_READ_LIMIT ==> r
            == digits_value(t@.subrange(from as int, to as int)),
        digits_value(t@.subrange(from as int, to as int)) >= EXPONENT_READ_LIMIT ==> r
            == EXPONENT_READ_LIMIT,
{
    let mut x: u128 = 0;
    let mut i: usize = from;
    assert(t@.subrange(from as int, from as int).len() == 0);
    while i < to
        invariant
            from <= i <= to <= t@.len(),
            forall|j: int| from <= j < to ==> is_digit(#[trigger] t@[j]),
            digits_value(t@.subrange(from as int, i as int)) < EXPONENT_READ_LIMIT ==> x
                == digits_value(t@.subrange(from as int, i as int)),
            digits_value(t@.subrange(from as int, i as int)) >= EXPONENT_READ_LIMIT ==> x
                == EXPONENT_READ_LIMIT,
        decreases to - i,
    {
        let ghost before = t@.subrange(from as int, i as int);
        proof {
            lemma_digits_value_push(before, t@[i as int]);
            assert(before.push(t@[i as int]) =~= t@.subrange(from as int, i + 1));
        }
        if x < EXPONENT_READ_LIMIT {
            let next: u128 = x * 10 + (t[i] - 48) as u128;
            x = if next >= EXPONENT_READ_LIMIT {
                EXPONENT_READ_LIMIT
            } else {
                next
            };
        }
        i = i + 1;
    }
    x
}

/// Reads the unsigned text of a number.
#[verifier::spinoff_prover]
#[verifier::rlimit(60)]
fn parse_number(t: &Vec<u8>, neg: bool) -> (r: bson_decimal128_t)
    ensures
        r == if is_number_text(t@) {
            encode_finite(neg, coefficient_of(t@), exponent_of(t@))
        } else {
            nan_value()
        },
{
    let len: usize = t.len();
    let int_end = scan_digits(t, 0);
    let start = CoefficientDigits { core: 0, core_digits: 0, zeros: 0, too_long: false };
    proof {
        assert(pow10(0) == 1);
        assert(digits_value(Seq::<u8>::empty()) == 0);
        assert(Seq::<u8>::empty() + t@.subrange(0, 0) =~= Seq::<u8>::empty());
    }
    let ghost int_digits = t@.subrange(0, int_end as int);
    let after_int = push_digits_of(start, t, 0, int_end, Ghost(Seq::empty()));
    assert(Seq::<u8>::empty() + int_digits =~= int_digits);
    let point = int_end < len && t[int_end] == 46;
    let fs: usize = if point {
        int_end + 1
    } else {
        int_end
    };
    let me: usize = if point {
        scan_digits(t, fs)
    } else {
        fs
    };
    let ghost mantissa = int_digits + t@.subrange(fs as int, me as int);
    let acc = push_digits_of(after_int, t, fs, me, Ghost(int_digits));
    if int_end + (me - fs) == 0 {
        return nan();
    }
    let mut end: usize = me;
    let mut x: u128 = 0;
    let mut exp_neg = false;
    if me < len && (t[me] == 101 || t[me] == 69) {
        let mut q: usize = me + 1;
        if q < len && (t[q] == 43 || t[q] == 45) {
            exp_neg = t[q] == 45;
            q = q + 1;
        }
        let qe = scan_digits(t, q);
        if qe == q {
            return nan();
        }
        x = read_exponent(t, q, qe);
        end = qe;
    }
    if end != len {
        return nan();
    }
    let frac: i128 = (me - fs) as i128;
    proof {
        assert(coefficient_of(t@) == digits_value(mantissa));
    }
    if x == EXPONENT_READ_LIMIT {
        proof {
            if !acc.too_long && acc.core != 0 {
                lemma_append_zeros(acc.core as nat, acc.zeros as nat);
                crate::digits::lemma_digits_len(acc.core as nat);
                assert(trailing_zeros(acc.core as nat) == 0);
            }
            if !acc.too_long && acc.core == 0 {
                assert(acc.zeros == 0);
                assert(pow10(0) == 1);
                assert(digits_value(mantissa) == acc.core * pow10(acc.zeros as nat));
                let ee = exponent_of(t@);
                lemma_pow10_pos((held_exponent(0, ee) - ee) as nat);
                assert(held_coefficient(0, ee) == 0);
            }
        }
        if acc.too_long || acc.core != 0 {
            nan()
        } else if exp_neg {
            pack(neg, 0, EXPONENT_MIN)
        } else {
            pack(neg, 0, EXPONENT_MAX)
        }
    } else {
        let written: i128 = if exp_neg {
            -(x as i128)
        } else {
            x as i128
        };
        finish(neg, acc, written - frac, Ghost(mantissa))
    }
}

fn lower_byte(b: u8) -> (r: u8)
    ensures
        r == lower(b),
{
    if b >= 65 && b <= 90 {
        b + 32
    } else {
        b
    }
}

fn infinity_text(t: &Vec<u8>) -> (r: bool)
    ensures
        r == is_infinity_text(t@),
{
    if t.len() == 3 {
        lower_byte(t[0]) == 105 && lower_byte(t[1]) == 110 && lower_byte(t[2]) == 102
    } else if t.len() == 8 {
        lower_byte(t[0]) == 105 && lower_byte(t[1]) == 110 && lower_byte(t[2]) == 102
            && lower_byte(t[3]) == 105 && lower_byte(t[4]) == 110 && lower_byte(t[5]) == 105
            && lower_byte(t[6]) == 116 && lower_byte(t[7]) == 121
    } else {
        false
    }
}

fn nan_text(t: &Vec<u8>) -> (r: bool)
    ensures
        r == is_nan_text(t@),
{
    t.len() == 3 && lower_byte(t[0]) == 110 && lower_byte(t[1]) == 97 && lower_byte(t[2]) == 110
}

/// Reads the first `end` bytes of `b`.
fn parse_bytes(b: &[u8], end: usize) -> (r: bson_decimal128_t)
    requires
        end <= b@.len(),
    ensures
        r == parse_text(b@.subrange(0, end as int)),
{
    let ghost s = b@.subrange(0, end as int);
    let mut start: usize = 0;
    let mut neg = false;
    if end > 0 && (b[0] == 43 || b[0] == 45) {
        start = 1;
        neg = b[0] == 45;
    }
    let mut t: Vec<u8> = Vec::new();
    let mut i: usize = start;
    while i < end
        invariant
            start <= i <= end <= b@.len(),
            t@ == b@.subrange(start as int, i as int),
        decreases end - i,
    {
        t.push(b[i]);
        i = i + 1;
        assert(t@ =~= b@.subrange(start as int, i as int));
    }
    assert(t@ =~= unsigned_text(s));
    assert(neg == text_negative(s));
    if infinity_text(&t) {
        infinity(neg)
    } else if nan_text(&t) {
        nan()
    } else {
        parse_number(&t, neg)
    }
}

/// Reads decimal text. Text that is not a number, an infinity or a NaN reads
/// as the quiet NaN, as does a number that no packed value holds exactly.
pub fn bson_decimal128_from_string(s: &str) -> (r: bson_decimal128_t)
    ensures
        r == parse_text(s.spec_bytes()),
        !is_infinity_text(unsigned_text(s.spec_bytes())) && !is_number_text(
            unsigned_text(s.spec_bytes()),
        ) ==> r.high == NAN_HIGH && r.low == 0,
{
    let b = s.as_bytes();
    assert(b@.subrange(0, b@.len() as int) =~= b@);
    parse_bytes(b, b.len())
}

/// Reads decimal text from the first `len` bytes of `s` (all of it where `len`
/// is larger), as `bson_decimal128_from_string` does.
pub fn bson_decimal128_from_string_w_len(s: &str, len: usize) -> (r: bson_decimal128_t)
    ensures
        r == parse_text(
            s.spec_bytes().subrange(
                0,
                if len < s.spec_bytes().len() {
                    len as int
                } else {
                    s.spec_bytes().len() as int
                },
            ),
        ),
        ({
            let t = unsigned_text(
                s.spec_bytes().subrange(
                    0,
                    if len < s.spec_bytes().len() {
                        len as int
                    } else {
                        s.spec_bytes().len() as int
                    },
                ),
            );
            !is_infinity_text(t) && !is_number_text(t) ==> r.high == NAN_HIGH && r.low == 0
        }),
{
    let b = s.as_bytes();
    let end: usize = if len < b.len() {
        len
    } else {
        b.len()
    };
    parse_bytes(b, end)
}

} // verus!
