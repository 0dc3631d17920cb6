//! The written form of numbers.

use crate::scalar::Scalar;
use vstd::prelude::*;
use vstd::string::*;

verus! {

/// The character of a decimal digit.
pub open spec fn digit(d: int) -> char {
    if d == 0 {
        '0'
    } else if d == 1 {
        '1'
    } else if d == 2 {
        '2'
    } else if d == 3 {
        '3'
    } else if d == 4 {
        '4'
    } else if d == 5 {
        '5'
    } else if d == 6 {
        '6'
    } else if d == 7 {
        '7'
    } else if d == 8 {
        '8'
    } else {
        '9'
    }
}

/// The decimal digits of a natural number, without leading zeros.
pub open spec fn digits(n: nat) -> Seq<char>
    decreases n,
{
    if n < 10 {
        seq![digit(n as int)]
    } else {
        digits(n / 10).push(digit((n % 10) as int))
    }
}

/// The decimal form of an integer, with `-` before a negative one.
pub open spec fn decimal(n: int) -> Seq<char> {
    if n < 0 {
        seq!['-'] + digits((-n) as nat)
    } else {
        digits(n as nat)
    }
}

/// Ten to the power `n`.
pub open spec fn pow10(n: nat) -> nat
    decreases n,
{
    if n == 0 {
        1
    } else {
        10 * pow10((n - 1) as nat)
    }
}

/// The fraction `p / q` is at least ten to the power `e`.
pub open spec fn reaches(p: nat, q: nat, e: int) -> bool {
    if e >= 0 {
        p >= q * pow10(e as nat)
    } else {
        p * pow10((-e) as nat) >= q
    }
}

/// The greatest exponent from `e` down whose power of ten the fraction `p / q` reaches;
/// the search ends at -16.
pub open spec fn exponent_below(p: nat, q: nat, e: int) -> int
    decreases e + 16,
{
    if e <= -16 || reaches(p, q, e) {
        e
    } else {
        exponent_below(p, q, e - 1)
    }
}

/// The quotient `num / den` rounded to the nearest integer, a tie to the even one.
pub open spec fn rounded(num: nat, den: nat) -> nat {
    let floor = num / den;
    let rest = num % den;
    if 2 * rest > den || (2 * rest == den && floor % 2 == 1) {
        floor + 1
    } else {
        floor
    }
}

/// The thousandfold of the leading digits of `p / q` under the exponent `e`, rounded.
pub open spec fn mantissa(p: nat, q: nat, e: int) -> nat {
    if e <= 3 {
        rounded(p * pow10((3 - e) as nat), q)
    } else {
        rounded(p, q * pow10((e - 3) as nat))
    }
}

/// The exponent form of the positive fraction `p / q` with three decimals: one digit, a
/// point, three digits rounded to the nearest with a tie to the even, `e`, and the
/// decimal exponent. Where rounding carries to ten, the form is that of one under the
/// next exponent.
pub open spec fn exponent_form(p: nat, q: nat) -> Seq<char> {
    let e = exponent_below(p, q, 18);
    let m = mantissa(p, q, e);
    let (m, e) = if m >= 10000 {
        (1000nat, e + 1)
    } else {
        (m, e)
    };
    digits(m / 1000) + seq!['.', digit((m / 100 % 10) as int), digit((m / 10 % 10) as int), digit(
        (m % 10) as int,
    ), 'e'] + decimal(e)
}

/// The magnitude of the fraction `n / d` is greater than ten to the power of -15; a
/// smaller part of a number is written as zero.
pub open spec fn notable(n: int, d: int) -> bool {
    (if n < 0 {
        -n
    } else {
        n
    }) * pow10(15) > d
}

/// The exponent form of the fraction `n / d`, with `-` before a negative one.
pub open spec fn part_text(n: int, d: int) -> Seq<char> {
    if n < 0 {
        seq!['-'] + exponent_form((-n) as nat, d as nat)
    } else {
        exponent_form(n as nat, d as nat)
    }
}

/// The written form of a scalar. A part whose magnitude is not greater than ten to the
/// power of -15 is left out. The real part is written in exponent form with three
/// decimals, the imaginary part likewise with `i` behind it, and `+` stands between them
/// where both are written; where neither is, the form is `0.000`.
pub open spec fn scalar_text(c: Scalar) -> Seq<char> {
    let re = notable(c.re as int, c.den as int);
    let im = notable(c.im as int, c.den as int);
    if re && im {
        part_text(c.re as int, c.den as int) + seq!['+'] + part_text(c.im as int, c.den as int)
            + seq!['i']
    } else if re {
        part_text(c.re as int, c.den as int)
    } else if im {
        part_text(c.im as int, c.den as int) + seq!['i']
    } else {
        seq!['0', '.', '0', '0', '0']
    }
}

/// The powers of ten up to the eighteenth lie between one and the eighteenth.
proof fn lemma_pow10_bound(n: nat)
    requires
        n <= 18,
    ensures
        1 <= pow10(n) <= 1_000_000_000_000_000_000,
        pow10(15) == 1_000_000_000_000_000,
        pow10(18) == 1_000_000_000_000_000_000,
    decreases 18 - n,
{
    reveal_with_fuel(pow10, 19);
    assert(pow10(18) == 1_000_000_000_000_000_000);
    assert(pow10(15) == 1_000_000_000_000_000);
    if n < 18 {
        lemma_pow10_bound(n + 1);
        assert(pow10(n + 1) == 10 * pow10(n));
    }
}

/// The search for the exponent does not go above where it starts, nor below an exponent
/// that the fraction reaches.
proof fn lemma_exponent_range(p: nat, q: nat, e: int, low: int)
    requires
        -16 <= low <= e,
        reaches(p, q, low),
    ensures
        low <= exponent_below(p, q, e) <= e,
    decreases e + 16,
{
    if !(e <= -16 || reaches(p, q, e)) {
        lemma_exponent_range(p, q, e - 1, low);
    }
}

/// What the search for the exponent finds: a power of ten that the fraction reaches,
/// unless the search ended at -16, and none above it up to where the search began.
proof fn lemma_exponent_found(p: nat, q: nat, e: int)
    requires
        -16 <= e,
    ensures
        -16 <= exponent_below(p, q, e) <= e,
        exponent_below(p, q, e) > -16 ==> reaches(p, q, exponent_below(p, q, e)),
        exponent_below(p, q, e) < e ==> !reaches(p, q, exponent_below(p, q, e) + 1),
    decreases e + 16,
{
    if !(e <= -16 || reaches(p, q, e)) {
        lemma_exponent_found(p, q, e - 1);
    }
}

/// The exponent of the exponent form is the decimal exponent of the fraction: for a
/// fraction of two components of a scalar that is greater than ten to the power of -15,
/// it lies between -15 and 18, ten to its power is at most the fraction, and ten to the
/// next power is greater than the fraction.
pub proof fn lemma_exponent_brackets(p: nat, q: nat)
    requires
        0 < q <= 0x7fff_ffff_ffff_ffff,
        p <= 0x8000_0000_0000_0000,
        p * pow10(15) > q,
    ensures
        -15 <= exponent_below(p, q, 18) <= 18,
        reaches(p, q, exponent_below(p, q, 18)),
        !reaches(p, q, exponent_below(p, q, 18) + 1),
{
    let e = exponent_below(p, q, 18);
    lemma_pow10_bound(15);
    assert(reaches(p, q, -15));
    lemma_exponent_range(p, q, 18, -15);
    lemma_exponent_found(p, q, 18);
    if e == 18 {
        lemma_pow10_bound(18);
        assert(pow10(19) == 10 * pow10(18));
        assert(q * pow10(19) >= pow10(19)) by (nonlinear_arith)
            requires
                q >= 1,
        ;
    }
}

fn power_of_ten(n: u32) -> (r: u128)
    requires
        n <= 18,
    ensures
        r == pow10(n as nat),
        1 <= r <= 1_000_000_000_000_000_000,
{
    let mut r: u128 = 1;
    let mut i: u32 = 0;
    while i < n
        invariant
            i <= n <= 18,
            r == pow10(i as nat),
            1 <= r <= 1_000_000_000_000_000_000,
        decreases n - i,
    {
        proof {
            lemma_pow10_bound((i + 1) as nat);
        }
        r = r * 10;
        i += 1;
    }
    r
}

fn reaches_power(p: u128, q: u128, e: i32) -> (r: bool)
    requires
        p <= 0x8000_0000_0000_0000,
        q <= 0x8000_0000_0000_0000,
        -18 <= e <= 18,
    ensures
        r == reaches(p as nat, q as nat, e as int),
{
    if e >= 0 {
        let t = power_of_ten(e as u32);
        assert(q * t <= 0x8000_0000_0000_0000 * 1_000_000_000_000_000_000) by (nonlinear_arith)
            requires
                q <= 0x8000_0000_0000_0000,
                t <= 1_000_000_000_000_000_000,
        ;
        p >= q * t
    } else {
        let t = power_of_ten((-e) as u32);
        assert(p * t <= 0x8000_0000_0000_0000 * 1_000_000_000_000_000_000) by (nonlinear_arith)
            requires
                p <= 0x8000_0000_0000_0000,
                t <= 1_000_000_000_000_000_000,
        ;
        p * t >= q
    }
}

fn round_quotient(num: u128, den: u128) -> (r: u128)
    requires
        den > 0,
        num <= 0x8000_0000_0000_0000 * 1_000_000_000_000_000_000,
        den <= 0x8000_0000_0000_0000 * 1_000_000_000_000_000_000,
    ensures
        r == rounded(num as nat, den as nat),
{
    let floor = num / den;
    let rest = num % den;
    if 2 * rest > den || (2 * rest == den && floor % 2 == 1) {
        floor + 1
    } else {
        floor
    }
}

fn digit_text(d: u128) -> (r: &'static str)
    requires
        d < 10,
    ensures
        r@ == seq![digit(d as int)],
{
    proof {
        reveal_strlit("0");
        reveal_strlit("1");
        reveal_strlit("2");
        reveal_strlit("3");
        reveal_strlit("4");
        reveal_strlit("5");
        reveal_strlit("6");
        reveal_strlit("7");
        reveal_strlit("8");
        reveal_strlit("9");
    }
    let r = if d == 0 {
        "0"
    } else if d == 1 {
        "1"
    } else if d == 2 {
        "2"
    } else if d == 3 {
        "3"
    } else if d == 4 {
        "4"
    } else if d == 5 {
        "5"
    } else if d == 6 {
        "6"
    } else if d == 7 {
        "7"
    } else if d == 8 {
        "8"
    } else {
        "9"
    };
    proof {
        assert(r@ =~= seq![digit(d as int)]);
    }
    r
}

fn push_digits(out: &mut String, n: u128)
    ensures
        final(out)@ == old(out)@ + digits(n as nat),
    decreases n,
{
    if n >= 10 {
        push_digits(out, n / 10);
    }
    out.append(digit_text(n % 10));
    proof {
        assert(out@ =~= old(out)@ + digits(n as nat));
    }
}

fn push_decimal(out: &mut String, n: i64)
    ensures
        final(out)@ == old(out)@ + decimal(n as int),
{
    if n < 0 {
        proof {
            reveal_strlit("-");
        }
        out.append("-");
        let wide: i128 = -(n as i128);
        push_digits(out, wide as u128);
        proof {
            assert("-"@ =~= seq!['-']);
            assert(out@ =~= old(out)@ + decimal(n as int));
        }
    } else {
        push_digits(out, n as u128);
    }
}

/// Appends the exponent form of the fraction `p / q`.
fn push_exponent_form(out: &mut String, p: u128, q: u128)
    requires
        0 < q <= 0x7fff_ffff_ffff_ffff,
        p <= 0x8000_0000_0000_0000,
        p * pow10(15) > q,
    ensures
        final(out)@ == old(out)@ + exponent_form(p as nat, q as nat),
{
    let mut e: i32 = 18;
    proof {
        lemma_pow10_bound(15);
        assert(reaches(p as nat, q as nat, -15));
        lemma_exponent_range(p as nat, q as nat, 18, -15);
    }
    while e > -16 && !reaches_power(p, q, e)
        invariant
            -16 <= e <= 18,
            p <= 0x8000_0000_0000_0000,
            q <= 0x7fff_ffff_ffff_ffff,
            exponent_below(p as nat, q as nat, 18) == exponent_below(p as nat, q as nat, e as int),
        decreases e + 16,
    {
        e = e - 1;
    }
    let t = if e <= 3 {
        power_of_ten((3 - e) as u32)
    } else {
        power_of_ten((e - 3) as u32)
    };
    assert(p * t <= 0x8000_0000_0000_0000 * 1_000_000_000_000_000_000 && q * t
        <= 0x8000_0000_0000_0000 * 1_000_000_000_000_000_000 && q * t > 0) by (nonlinear_arith)
        requires
            p <= 0x8000_0000_0000_0000,
            0 < q <= 0x8000_0000_0000_0000,
            1 <= t <= 1_000_000_000_000_000_000,
    ;
    let found = if e <= 3 {
        round_quotient(p * t, q)
    } else {
        round_quotient(p, q * t)
    };
    let carried = found >= 10000;
    let m: u128 = if carried {
        1000
    } else {
        found
    };
    let shown: i64 = if carried {
        (e + 1) as i64
    } else {
        e as i64
    };
    let ghost before = out@;
    push_digits(out, m / 1000);
    proof {
        reveal_strlit(".");
        reveal_strlit("e");
        assert("."@ =~= seq!['.']);
        assert("e"@ =~= seq!['e']);
    }
    out.append(".");
    out.append(digit_text(m / 100 % 10));
    out.append(digit_text(m / 10 % 10));
    out.append(digit_text(m % 10));
    out.append("e");
    push_decimal(out, shown);
    proof {
        assert(out@ =~= before + exponent_form(p as nat, q as nat));
    }
}

/// Whether the magnitude `p` over `q` is greater than ten to the power of -15.
fn is_notable(p: u128, q: u128) -> (r: bool)
    requires
        p <= 0x8000_0000_0000_0000,
    ensures
        r == (p * pow10(15) > q),
{
    proof {
        lemma_pow10_bound(15);
    }
    assert(p * 1_000_000_000_000_000 <= 0x8000_0000_0000_0000 * 1_000_000_000_000_000) by (nonlinear_arith)
        requires
            p <= 0x8000_0000_0000_0000,
    ;
    p * 1_000_000_000_000_000 > q
}

/// The magnitude of an integer.
fn magnitude(n: i64) -> (r: u128)
    ensures
        n >= 0 ==> r == n,
        n < 0 ==> r == -n,
        r <= 0x8000_0000_0000_0000,
{
    if n >= 0 {
        n as u128
    } else {
        let wide: i128 = -(n as i128);
        wide as u128
    }
}

/// Appends the exponent form of the fraction `n / d`, with `-` before a negative one.
fn push_part(out: &mut String, n: i64, d: i64)
    requires
        d > 0,
        notable(n as int, d as int),
    ensures
        final(out)@ == old(out)@ + part_text(n as int, d as int),
{
    if n < 0 {
        proof {
            reveal_strlit("-");
            assert("-"@ =~= seq!['-']);
        }
        out.append("-");
    }
    push_exponent_form(out, magnitude(n), d as u128);
    proof {
        assert(out@ =~= old(out)@ + part_text(n as int, d as int));
    }
}

/// Appends the written form of a scalar.
pub fn push_scalar(out: &mut String, c: Scalar)
    requires
        c.well_formed(),
    ensures
        final(out)@ == old(out)@ + scalar_text(c),
{
    proof {
        reveal_strlit("i");
        reveal_strlit("+");
        reveal_strlit("0.000");
        assert("i"@ =~= seq!['i']);
        assert("+"@ =~= seq!['+']);
        assert("0.000"@ =~= seq!['0', '.', '0', '0', '0']);
    }
    let re = is_notable(magnitude(c.re), c.den as u128);
    let im = is_notable(magnitude(c.im), c.den as u128);
    if re && im {
        push_part(out, c.re, c.den);
        out.append("+");
        push_part(out, c.im, c.den);
        out.append("i");
        proof {
            assert(out@ =~= old(out)@ + scalar_text(c));
        }
    } else if re {
        push_part(out, c.re, c.den);
    } else if im {
        push_part(out, c.im, c.den);
        out.append("i");
        proof {
            assert(out@ =~= old(out)@ + scalar_text(c));
        }
    } else {
        out.append("0.000");
    }
}

impl Scalar {
    /// The written form of the scalar.
    pub fn text(&self) -> (r: String)
        requires
            self.well_formed(),
        ensures
            r@ == scalar_text(*self),
    {
        let mut out = String::new();
        push_scalar(&mut out, *self);
        proof {
            assert(Seq::<char>::empty() + scalar_text(*self) =~= scalar_text(*self));
        }
        out
    }
}

} // verus!
