//! Decimal digits of natural numbers, and the facts about them that packing
//! and text conversion need.
use vstd::prelude::*;

verus! {

pub open spec fn pow10(n: nat) -> nat
    decreases n,
{
    if n == 0 {
        1
    } else {
        10 * pow10((n - 1) as nat)
    }
}

/// Number of decimal digits of `c`; zero has one digit.
pub open spec fn num_digits(c: nat) -> nat
    decreases c,
{
    if c < 10 {
        1
    } else {
        1 + num_digits(c / 10)
    }
}

/// Number of trailing decimal zeros of a positive `c`.
pub open spec fn trailing_zeros(c: nat) -> nat
    decreases c,
{
    if c == 0 || c % 10 != 0 {
        0
    } else {
        1 + trailing_zeros(c / 10)
    }
}

/// The character of a decimal digit.
pub open spec fn digit_char(d: nat) -> char {
    if d == 0 {
        '0'
    } else if d == 1 {
        '1'
    } else if d == 2 {
        '2'
    } else if d == 3 {
        '3'
    } else if d == 4 {
        '4'
    } else if d == 5 {
        '5'
    } else if d == 6 {
        '6'
    } else if d == 7 {
        '7'
    } else if d == 8 {
        '8'
    } else {
        '9'
    }
}

/// The decimal digits of `c`, most significant first, without leading zeros.
pub open spec fn digits_of(c: nat) -> Seq<char>
    decreases c,
{
    if c < 10 {
        seq![digit_char(c)]
    } else {
        digits_of(c / 10).push(digit_char(c % 10))
    }
}

pub proof fn lemma_digits_len(c: nat)
    ensures
        digits_of(c).len() == num_digits(c),
        num_digits(c) >= 1,
    decreases c,
{
    if c >= 10 {
        lemma_digits_len(c / 10);
    }
}

pub proof fn lemma_pow10_pos(n: nat)
    ensures
        pow10(n) >= 1,
    decreases n,
{
    if n > 0 {
        lemma_pow10_pos((n - 1) as nat);
    }
}

pub proof fn lemma_pow10_add(a: nat, b: nat)
    ensures
        pow10(a + b) == pow10(a) * pow10(b),
    decreases a,
{
    if a > 0 {
        lemma_pow10_add((a - 1) as nat, b);
        assert(pow10(a + b) == 10 * pow10((a - 1 + b) as nat));
        let p = pow10((a - 1) as nat);
        let q = pow10(b);
        assert(pow10(a) * q == 10 * (p * q)) by (nonlinear_arith)
            requires
                pow10(a) == 10 * p,
        ;
    } else {
        assert(pow10(a) == 1);
        assert(pow10(a) * pow10(b) == pow10(b));
    }
}

/// `c` has at most `n` digits exactly when it is below 10^n.
pub proof fn lemma_num_digits_bound(c: nat, n: nat)
    requires
        n >= 1,
    ensures
        num_digits(c) <= n <==> c < pow10(n),
    decreases c,
{
    if c >= 10 {
        if n >= 2 {
            lemma_num_digits_bound(c / 10, (n - 1) as nat);
            assert(pow10(n) == 10 * pow10((n - 1) as nat));
        } else {
            assert(pow10(1) == 10) by {
                reveal_with_fuel(pow10, 2);
            }
        }
    } else {
        lemma_pow10_pos((n - 1) as nat);
        assert(pow10(n) == 10 * pow10((n - 1) as nat));
    }
}

/// Appending a digit to a positive number adds one digit.
pub proof fn lemma_append_digit(c: nat, d: nat)
    requires
        c > 0,
        d < 10,
    ensures
        num_digits(c * 10 + d) == num_digits(c) + 1,
        trailing_zeros(c * 10 + d) == if d == 0 {
            trailing_zeros(c) + 1
        } else {
            0
        },
{
    let x = c * 10 + d;
    assert(x / 10 == c && x % 10 == d && x >= 10) by (nonlinear_arith)
        requires
            x == c * 10 + d,
            d < 10,
            c > 0,
    ;
}

/// Appending `k` zeros to a positive number.
pub proof fn lemma_append_zeros(c: nat, k: nat)
    requires
        c > 0,
    ensures
        c * pow10(k) > 0,
        num_digits(c * pow10(k)) == num_digits(c) + k,
        trailing_zeros(c * pow10(k)) == trailing_zeros(c) + k,
    decreases k,
{
    if k > 0 {
        lemma_append_zeros(c, (k - 1) as nat);
        let y = c * pow10((k - 1) as nat);
        assert(c * pow10(k) == y * 10 + 0) by (nonlinear_arith)
            requires
                pow10(k) == 10 * pow10((k - 1) as nat),
                y == c * pow10((k - 1) as nat),
        ;
        assert(y > 0);
        lemma_append_digit(y, 0);
        assert(c * pow10(k) > 0);
    } else {
        assert(pow10(k) == 1);
        assert(c * pow10(k) == c);
    }
}

/// Executable counterpart of `digit_char`.
pub fn digit_to_char(d: u8) -> (r: char)
    requires
        d < 10,
    ensures
        r == digit_char(d as nat),
{
    match d {
        0 => '0',
        1 => '1',
        2 => '2',
        3 => '3',
        4 => '4',
        5 => '5',
        6 => '6',
        7 => '7',
        8 => '8',
        _ => '9',
    }
}

/// Appends the decimal digits of `c` to `out`.
pub fn push_digits(c: u128, out: &mut Vec<char>)
    ensures
        final(out)@ == old(out)@ + digits_of(c as nat),
    decreases c,
{
    if c >= 10 {
        push_digits(c / 10, out);
    }
    out.push(digit_to_char((c % 10) as u8));
    proof {
        if c < 10 {
            assert(digits_of(c as nat) =~= seq![digit_char(c as nat)]);
        }
    }
    assert(final(out)@ =~= old(out)@ + digits_of(c as nat));
}

/// 10^k as a 128-bit integer.
pub fn pow10_u128(k: u32) -> (r: u128)
    requires
        k <= 38,
    ensures
        r == pow10(k as nat),
{
    let mut r: u128 = 1;
    let mut i: u32 = 0;
    while i < k
        invariant
            i <= k <= 38,
            r == pow10(i as nat),
        decreases k - i,
    {
        proof {
            lemma_pow10_monotone(i as nat, 37);
            lemma_pow10_37();
        }
        r = r * 10;
        i = i + 1;
    }
    r
}

pub proof fn lemma_pow10_34()
    ensures
        pow10(34) == 10000000000000000000000000000000000nat,
{
    reveal_with_fuel(pow10, 35);
}

pub proof fn lemma_pow10_37()
    ensures
        pow10(37) == 10000000000000000000000000000000000000nat,
{
    reveal_with_fuel(pow10, 38);
}

pub proof fn lemma_pow10_monotone(a: nat, b: nat)
    requires
        a <= b,
    ensures
        pow10(a) <= pow10(b),
    decreases b,
{
    if a < b {
        lemma_pow10_monotone(a, (b - 1) as nat);
        lemma_pow10_pos((b - 1) as nat);
    }
}

} // verus!
