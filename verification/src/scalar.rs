//! Exact complex constants.
//!
//! A [`Scalar`] is a complex number with rational parts, `(re + im·i) / den`, held as three
//! machine integers. All arithmetic is exact: an operation whose result does not fit the
//! representation reports that instead of rounding.

use vstd::prelude::*;

verus! {

/// The complex rational `(re + im·i) / den`.
///
/// The arithmetic of this module hands out scalars in lowest terms. A scalar written down
/// field by field need not be in lowest terms; [`Scalar::same_value`] compares values.
#[derive(Clone, Copy, Debug, PartialEq, Eq, Structural)]
pub struct Scalar {
    pub re: i64,
    pub im: i64,
    pub den: i64,
}

/// Whether a mathematical integer can be held in one component of a scalar.
pub open spec fn fits(x: int) -> bool {
    i64::MIN <= x <= i64::MAX
}

/// The magnitude of an integer.
pub open spec fn magnitude_of(x: int) -> nat {
    if x < 0 {
        (-x) as nat
    } else {
        x as nat
    }
}

/// The greatest common divisor, by the algorithm of Euclid; `gcd(a, 0)` is `a`.
pub open spec fn gcd(a: nat, b: nat) -> nat
    decreases b,
{
    if b == 0 {
        a
    } else {
        gcd(b, a % b)
    }
}

/// The greatest number that divides all three components.
pub open spec fn common_divisor(re: int, im: int, den: int) -> nat {
    gcd(gcd(magnitude_of(re), magnitude_of(im)), magnitude_of(den))
}

/// The scalar `(re + im·i) / den` in lowest terms, if the denominator is positive and
/// each component in lowest terms can be held.
pub open spec fn from_parts(re: int, im: int, den: int) -> Option<Scalar> {
    let g = common_divisor(re, im, den) as int;
    if den > 0 && fits(re / g) && fits(im / g) && fits(den / g) {
        Some(Scalar { re: (re / g) as i64, im: (im / g) as i64, den: (den / g) as i64 })
    } else {
        None
    }
}

/// Two to the power `n`.
pub open spec fn pow2(n: nat) -> nat
    decreases n,
{
    if n == 0 {
        1
    } else {
        2 * pow2((n - 1) as nat)
    }
}

/// The sign of a double in its sixty-four bits: the first bit.
pub open spec fn double_sign(bits: u64) -> bool {
    (bits as int) / 0x8000_0000_0000_0000 == 1
}

/// The exponent field of a double: the eleven bits behind the sign.
pub open spec fn double_exponent(bits: u64) -> int {
    ((bits as int) / 0x10_0000_0000_0000) % 2048
}

/// The fraction field of a double: the last fifty-two bits.
pub open spec fn double_fraction(bits: u64) -> int {
    (bits as int) % 0x10_0000_0000_0000
}

/// The number that a double denotes, as a scalar in lowest terms: with the exponent
/// field `e` and the fraction field `f`, the double is `f` times two to the power of
/// -1074 where `e` is zero, and two to the power of 52 plus `f`, times two to the power
/// of `e` - 1075, elsewhere, negated where the sign is set. There is none where the
/// exponent field is all ones (an infinity, or no number), or where the number cannot be
/// held.
pub open spec fn double_value(bits: u64) -> Option<Scalar> {
    let e = double_exponent(bits);
    let f = double_fraction(bits);
    let m = if e == 0 {
        f
    } else {
        0x10_0000_0000_0000 + f
    };
    let p = if e == 0 {
        -1074
    } else {
        e - 1075
    };
    let signed = if double_sign(bits) {
        -m
    } else {
        m
    };
    if e == 2047 {
        None
    } else if p >= 0 {
        from_parts(signed * pow2(p as nat), 0, 1)
    } else {
        from_parts(signed, 0, pow2((-p) as nat) as int)
    }
}

/// Binary exponentiation over checked products: `base` raised to `n`.
pub open spec fn power(base: Scalar, n: nat) -> Option<Scalar>
    decreases n,
{
    if n == 0 {
        Some(Scalar { re: 1, im: 0, den: 1 })
    } else {
        match power(base, n / 2) {
            None => None,
            Some(half) => match half.product(half) {
                None => None,
                Some(square) => if n % 2 == 1 {
                    square.product(base)
                } else {
                    Some(square)
                },
            },
        }
    }
}

impl Scalar {
    /// A scalar denotes a number exactly when its denominator is positive.
    pub open spec fn well_formed(self) -> bool {
        self.den > 0
    }

    /// The value is zero.
    pub open spec fn zero_valued(self) -> bool {
        self.re == 0 && self.im == 0
    }

    /// The value is one.
    pub open spec fn one_valued(self) -> bool {
        self.re == self.den && self.im == 0
    }

    /// Both scalars denote the same complex number.
    pub open spec fn same_value(self, other: Scalar) -> bool {
        &&& self.re * other.den == other.re * self.den
        &&& self.im * other.den == other.im * self.den
    }

    /// The value is an integer; then it is [`Scalar::integer_value`].
    pub open spec fn integral(self) -> bool {
        self.im == 0 && (self.re as int) % (self.den as int) == 0
    }

    /// The integer that an integral scalar denotes.
    pub open spec fn integer_value(self) -> int {
        (self.re as int) / (self.den as int)
    }

    /// The real part is greater than zero.
    pub open spec fn positive_real_part(self) -> bool {
        self.re > 0
    }

    /// `self + other` in lowest terms, if that can be held.
    pub open spec fn sum(self, other: Scalar) -> Option<Scalar> {
        from_parts(
            self.re * other.den + other.re * self.den,
            self.im * other.den + other.im * self.den,
            self.den * other.den,
        )
    }

    /// `self · other` in lowest terms, if that can be held.
    pub open spec fn product(self, other: Scalar) -> Option<Scalar> {
        from_parts(
            self.re * other.re - self.im * other.im,
            self.re * other.im + self.im * other.re,
            self.den * other.den,
        )
    }

    /// `1 / self` in lowest terms: the conjugate times the denominator, over the squared
    /// modulus. There is none for zero, nor where a component cannot be held.
    pub open spec fn reciprocal(self) -> Option<Scalar> {
        if self.zero_valued() {
            None
        } else {
            from_parts(
                self.re * self.den,
                -(self.im * self.den),
                self.re * self.re + self.im * self.im,
            )
        }
    }

    /// `self` raised to the integer `n`; a negative `n` takes the reciprocal of the base
    /// first.
    pub open spec fn integer_power(self, n: int) -> Option<Scalar> {
        if n >= 0 {
            power(self, n as nat)
        } else {
            match self.reciprocal() {
                None => None,
                Some(inverse) => power(inverse, (-n) as nat),
            }
        }
    }

    /// The integer `n`.
    pub fn integer(n: i64) -> (r: Scalar)
        ensures
            r == (Scalar { re: n, im: 0, den: 1 }),
            r.well_formed(),
    {
        Scalar { re: n, im: 0, den: 1 }
    }

    /// The scalar `(re + im·i) / den` in lowest terms, or nothing when `den` is not
    /// positive.
    pub fn new(re: i64, im: i64, den: i64) -> (r: Option<Scalar>)
        ensures
            r == from_parts(re as int, im as int, den as int),
            r matches Some(s) ==> s.well_formed(),
    {
        if den <= 0 {
            return None;
        }
        narrow(signed(re as i128), signed(im as i128), magnitude(den) as u128)
    }

    /// The scalar that the double with the given bits denotes, if it can be held.
    pub fn from_double_bits(bits: u64) -> (r: Option<Scalar>)
        ensures
            r == double_value(bits),
            r matches Some(s) ==> s.well_formed(),
    {
        let negative = bits / 0x8000_0000_0000_0000 == 1;
        let field = (bits / 0x10_0000_0000_0000) % 2048;
        let fraction = bits % 0x10_0000_0000_0000;
        if field == 2047 {
            return None;
        }
        let mantissa: u64 = if field == 0 {
            fraction
        } else {
            fraction + 0x10_0000_0000_0000
        };
        if field >= 1075 {
            let p: u64 = field - 1075;
            if p > 63 {
                proof {
                    lemma_pow2_grows(64, p as nat);
                    lemma_whole_parts(signed_value((negative, mantissa as u128)) * pow2(p as nat));
                    assert(mantissa * pow2(p as nat) >= 0x1_0000_0000_0000_0000) by (nonlinear_arith)
                        requires
                            mantissa >= 0x10_0000_0000_0000,
                            pow2(p as nat) >= 0x1_0000_0000_0000_0000,
                    ;
                    assert(signed_value((negative, mantissa as u128)) * pow2(p as nat) == (
                    if negative {
                        -(mantissa * pow2(p as nat))
                    } else {
                        mantissa * pow2(p as nat)
                    })) by (nonlinear_arith);
                }
                return None;
            }
            let t = two_to(p);
            assert(mantissa * t <= 0x20_0000_0000_0000 * 0x8000_0000_0000_0000) by (nonlinear_arith)
                requires
                    mantissa <= 0x20_0000_0000_0000,
                    t <= 0x8000_0000_0000_0000,
            ;
            let n = (mantissa as u128) * t;
            proof {
                assert(signed_value((negative, mantissa as u128)) * pow2(p as nat)
                    == signed_value((negative, n))) by (nonlinear_arith)
                    requires
                        n == mantissa * t,
                        t == pow2(p as nat),
                ;
            }
            narrow((negative, n), (false, 0), 1)
        } else {
            let mut k: u64 = if field == 0 {
                1074
            } else {
                1075 - field
            };
            let mut m: u64 = mantissa;
            if m == 0 {
                proof {
                    lemma_pow2_grows(0, k as nat);
                    lemma_zero_parts(pow2(k as nat) as int);
                }
                return Some(Scalar::integer(0));
            }
            while m % 2 == 0 && k > 0
                invariant
                    0 < m <= mantissa,
                    k <= 1074,
                    from_parts(signed_value((negative, m as u128)), 0, pow2(k as nat) as int)
                        == from_parts(
                        signed_value((negative, mantissa as u128)),
                        0,
                        pow2((if field == 0 {
                            1074
                        } else {
                            1075 - field
                        }) as nat) as int,
                    ),
                decreases k,
            {
                proof {
                    lemma_pow2_grows(0, (k - 1) as nat);
                    lemma_halved_parts(
                        signed_value((negative, (m / 2) as u128)),
                        pow2((k - 1) as nat) as int,
                    );
                }
                m = m / 2;
                k = k - 1;
            }
            if k > 62 {
                proof {
                    lemma_pow2_grows(63, k as nat);
                    lemma_odd_over_power(signed_value((negative, m as u128)), k as nat);
                }
                return None;
            }
            let t = two_to(k);
            narrow((negative, m as u128), (false, 0), t)
        }
    }

    /// Whether the value is zero.
    pub fn is_zero(&self) -> (r: bool)
        ensures
            r == self.zero_valued(),
    {
        self.re == 0 && self.im == 0
    }

    /// Whether the value is one.
    pub fn is_one(&self) -> (r: bool)
        ensures
            r == self.one_valued(),
    {
        self.re == self.den && self.im == 0
    }

    /// The integer that the scalar denotes, if it denotes one.
    pub fn as_integer(&self) -> (r: Option<i64>)
        requires
            self.well_formed(),
        ensures
            r.is_some() == self.integral(),
            r matches Some(n) ==> n == self.integer_value(),
    {
        if self.im != 0 {
            return None;
        }
        let num: u64 = magnitude(self.re);
        let den: u64 = magnitude(self.den);
        let rest: u64 = num % den;
        let quotient: u64 = num / den;
        proof {
            lemma_signed_quotient(self.re as int, self.den as int);
        }
        if rest != 0 {
            None
        } else if self.re >= 0 {
            Some(quotient as i64)
        } else {
            let wide: i128 = -(quotient as i128);
            Some(wide as i64)
        }
    }

    /// Exact sum.
    pub fn checked_add(&self, other: &Scalar) -> (r: Option<Scalar>)
        requires
            self.well_formed(),
            other.well_formed(),
        ensures
            r == self.sum(*other),
            r matches Some(s) ==> s.well_formed(),
    {
        let re = wide_sum(wide_product(self.re, other.den), wide_product(other.re, self.den));
        let im = wide_sum(wide_product(self.im, other.den), wide_product(other.im, self.den));
        let den = wide_product(self.den, other.den);
        assert(self.den * other.den > 0) by (nonlinear_arith)
            requires
                self.den > 0,
                other.den > 0,
        ;
        narrow(re, im, den as u128)
    }

    /// Exact product.
    pub fn checked_mul(&self, other: &Scalar) -> (r: Option<Scalar>)
        requires
            self.well_formed(),
            other.well_formed(),
        ensures
            r == self.product(*other),
            r matches Some(s) ==> s.well_formed(),
    {
        let re = wide_sum(wide_product(self.re, other.re), -wide_product(self.im, other.im));
        let im = wide_sum(wide_product(self.re, other.im), wide_product(self.im, other.re));
        let den = wide_product(self.den, other.den);
        assert(self.den * other.den > 0) by (nonlinear_arith)
            requires
                self.den > 0,
                other.den > 0,
        ;
        narrow(re, im, den as u128)
    }

    /// Exact reciprocal.
    pub fn checked_recip(&self) -> (r: Option<Scalar>)
        requires
            self.well_formed(),
        ensures
            r == self.reciprocal(),
            r matches Some(s) ==> s.well_formed(),
    {
        if self.is_zero() {
            return None;
        }
        let re = signed(wide_product(self.re, self.den));
        let im = signed(-wide_product(self.im, self.den));
        let den = wide_sum(wide_product(self.re, self.re), wide_product(self.im, self.im));
        assert(self.re * self.re + self.im * self.im > 0) by (nonlinear_arith)
            requires
                self.re != 0 || self.im != 0,
        ;
        narrow(re, im, den.1)
    }

    /// Exact power with a natural exponent.
    pub fn checked_pow(&self, n: u64) -> (r: Option<Scalar>)
        requires
            self.well_formed(),
        ensures
            r == power(*self, n as nat),
            r matches Some(s) ==> s.well_formed(),
        decreases n,
    {
        if n == 0 {
            return Some(Scalar { re: 1, im: 0, den: 1 });
        }
        let half = match self.checked_pow(n / 2) {
            None => {
                return None;
            },
            Some(half) => half,
        };
        let square = match half.checked_mul(&half) {
            None => {
                return None;
            },
            Some(square) => square,
        };
        if n % 2 == 1 {
            square.checked_mul(self)
        } else {
            Some(square)
        }
    }

    /// Exact power with an integer exponent.
    pub fn checked_powi(&self, n: i64) -> (r: Option<Scalar>)
        requires
            self.well_formed(),
        ensures
            r == self.integer_power(n as int),
            r matches Some(s) ==> s.well_formed(),
    {
        if n >= 0 {
            self.checked_pow(n as u64)
        } else {
            match self.checked_recip() {
                None => None,
                Some(inverse) => inverse.checked_pow(magnitude(n)),
            }
        }
    }
}

/// For a positive divisor, the floor quotient of a negative dividend that the divisor
/// divides is the negated quotient of its magnitude.
proof fn lemma_signed_quotient(x: int, d: int)
    requires
        d > 0,
    ensures
        x < 0 ==> ((x % d == 0) == ((-x) % d == 0)),
        x < 0 && (-x) % d == 0 ==> x / d == -((-x) / d),
{
    if x < 0 {
        let q = (-x) / d;
        let r = (-x) % d;
        vstd::arithmetic::div_mod::lemma_fundamental_div_mod(-x, d);
        assert(-x == d * q + r);
        if r == 0 {
            assert(x == d * (-q)) by (nonlinear_arith)
                requires
                    -x == d * q,
            ;
            vstd::arithmetic::div_mod::lemma_fundamental_div_mod_converse(x, d, -q, 0);
        } else {
            vstd::arithmetic::div_mod::lemma_fundamental_div_mod(x, d);
            let q2 = x / d;
            let r2 = x % d;
            if r2 == 0 {
                assert(-x == d * (-q2)) by (nonlinear_arith)
                    requires
                        x == d * q2,
                ;
                vstd::arithmetic::div_mod::lemma_fundamental_div_mod_converse(-x, d, -q2, 0);
            }
        }
    }
}

fn magnitude(x: i64) -> (r: u64)
    ensures
        x >= 0 ==> r == x,
        x < 0 ==> r == -x,
{
    if x >= 0 {
        x as u64
    } else {
        let wide: i128 = -(x as i128);
        wide as u64
    }
}

fn wide_product(a: i64, b: i64) -> (r: i128)
    ensures
        r == a * b,
        -0x4000_0000_0000_0000_0000_0000_0000_0000 <= r <= 0x4000_0000_0000_0000_0000_0000_0000_0000,
{
    assert(-0x4000_0000_0000_0000_0000_0000_0000_0000 <= a * b
        <= 0x4000_0000_0000_0000_0000_0000_0000_0000) by (nonlinear_arith)
        requires
            -0x8000_0000_0000_0000 <= a <= 0x7fff_ffff_ffff_ffff,
            -0x8000_0000_0000_0000 <= b <= 0x7fff_ffff_ffff_ffff,
    ;
    (a as i128) * (b as i128)
}

/// A sign and a magnitude: the integer `-m` for `(true, m)`, `m` for `(false, m)`.
pub open spec fn signed_value(v: (bool, u128)) -> int {
    if v.0 {
        -(v.1 as int)
    } else {
        v.1 as int
    }
}

fn signed(v: i128) -> (r: (bool, u128))
    ensures
        signed_value(r) == v,
        r.1 == magnitude_of(v as int),
{
    if v >= 0 {
        (false, v as u128)
    } else {
        let below: i128 = -(v + 1);
        (true, below as u128 + 1)
    }
}

fn wide_sum(a: i128, b: i128) -> (r: (bool, u128))
    requires
        -0x4000_0000_0000_0000_0000_0000_0000_0000 <= a <= 0x4000_0000_0000_0000_0000_0000_0000_0000,
        -0x4000_0000_0000_0000_0000_0000_0000_0000 <= b <= 0x4000_0000_0000_0000_0000_0000_0000_0000,
    ensures
        signed_value(r) == a + b,
        r.1 == magnitude_of(a + b),
{
    match a.checked_add(b) {
        Some(s) => signed(s),
        None => (false, 0x8000_0000_0000_0000_0000_0000_0000_0000u128),
    }
}

/// The greatest common divisor is positive unless both numbers are zero.
proof fn lemma_gcd_positive(a: nat, b: nat)
    requires
        a > 0 || b > 0,
    ensures
        gcd(a, b) > 0,
    decreases b,
{
    if b != 0 {
        lemma_gcd_positive(b, a % b);
    }
}

/// The greatest common divisor divides both numbers.
proof fn lemma_gcd_divides(a: nat, b: nat)
    requires
        a > 0 || b > 0,
    ensures
        gcd(a, b) > 0,
        a % gcd(a, b) == 0,
        b % gcd(a, b) == 0,
    decreases b,
{
    lemma_gcd_positive(a, b);
    if b != 0 {
        let g = gcd(b, a % b);
        lemma_gcd_divides(b, a % b);
        let g = g as int;
        let r = (a % b) as int;
        let q = (a / b) as int;
        vstd::arithmetic::div_mod::lemma_fundamental_div_mod(a as int, b as int);
        vstd::arithmetic::div_mod::lemma_fundamental_div_mod(b as int, g);
        vstd::arithmetic::div_mod::lemma_fundamental_div_mod(r, g);
        let k1 = (b as int) / g;
        let k2 = r / g;
        assert(a as int == (k1 * q + k2) * g) by (nonlinear_arith)
            requires
                a as int == (b as int) * q + r,
                b as int == g * k1,
                r == g * k2,
        ;
        vstd::arithmetic::div_mod::lemma_mod_multiples_basic(k1 * q + k2, g);
    }
}

/// The common divisor of three components with a positive denominator is positive and
/// divides each of them.
proof fn lemma_common_divisor(re: int, im: int, den: int)
    requires
        den > 0,
    ensures
        common_divisor(re, im, den) > 0,
        magnitude_of(re) % common_divisor(re, im, den) == 0,
        magnitude_of(im) % common_divisor(re, im, den) == 0,
        magnitude_of(den) % common_divisor(re, im, den) == 0,
{
    let inner = gcd(magnitude_of(re), magnitude_of(im));
    let g = gcd(inner, magnitude_of(den));
    lemma_gcd_divides(inner, magnitude_of(den));
    if inner > 0 {
        lemma_gcd_divides(magnitude_of(re), magnitude_of(im));
        lemma_divides_chain(magnitude_of(re), inner, g);
        lemma_divides_chain(magnitude_of(im), inner, g);
    } else {
        assert(gcd(magnitude_of(re), magnitude_of(im)) == 0);
        if magnitude_of(re) > 0 || magnitude_of(im) > 0 {
            lemma_gcd_positive(magnitude_of(re), magnitude_of(im));
        }
    }
}

/// What divides a divisor of a number divides the number.
proof fn lemma_divides_chain(x: nat, d: nat, g: nat)
    requires
        d > 0,
        g > 0,
        x % d == 0,
        d % g == 0,
    ensures
        x % g == 0,
{
    vstd::arithmetic::div_mod::lemma_fundamental_div_mod(x as int, d as int);
    vstd::arithmetic::div_mod::lemma_fundamental_div_mod(d as int, g as int);
    let k1 = (x as int) / (d as int);
    let k2 = (d as int) / (g as int);
    assert(x as int == (k1 * k2) * (g as int)) by (nonlinear_arith)
        requires
            x as int == (d as int) * k1,
            d as int == (g as int) * k2,
    ;
    vstd::arithmetic::div_mod::lemma_mod_multiples_basic(k1 * k2, g as int);
}

/// The quotient of a negative number by a divisor of it is the negated quotient of its
/// magnitude.
proof fn lemma_exact_quotient(x: int, g: int)
    requires
        g > 0,
        magnitude_of(x) % (g as nat) == 0,
    ensures
        x >= 0 ==> x / g == magnitude_of(x) / (g as nat),
        x < 0 ==> x / g == -((magnitude_of(x) / (g as nat)) as int),
{
    if x < 0 {
        lemma_signed_quotient(x, g);
    }
}

/// The greatest common divisor of two multiples of `k` is `k` times that of the numbers.
proof fn lemma_gcd_scale(k: nat, a: nat, b: nat)
    requires
        k > 0,
    ensures
        gcd(k * a, k * b) == k * gcd(a, b),
    decreases b,
{
    if b == 0 {
        assert(k * b == 0) by (nonlinear_arith)
            requires
                b == 0,
        ;
    } else {
        assert(k * b > 0) by (nonlinear_arith)
            requires
                k > 0,
                b > 0,
        ;
        vstd::arithmetic::div_mod::lemma_truncate_middle(a as int, k as int, b as int);
        lemma_gcd_scale(k, b, a % b);
        assert(((k * a) % (k * b)) as int == (k as int) * ((a as int) % (b as int)));
    }
}

/// The quotients of two numbers by their greatest common divisor have no common divisor
/// but one.
proof fn lemma_gcd_of_quotients(a: nat, b: nat)
    requires
        a > 0 || b > 0,
    ensures
        gcd(a / gcd(a, b), b / gcd(a, b)) == 1,
{
    let g = gcd(a, b);
    lemma_gcd_divides(a, b);
    vstd::arithmetic::div_mod::lemma_fundamental_div_mod(a as int, g as int);
    vstd::arithmetic::div_mod::lemma_fundamental_div_mod(b as int, g as int);
    let x = a / g;
    let y = b / g;
    lemma_gcd_scale(g, x, y);
    assert(g * x == a && g * y == b) by (nonlinear_arith)
        requires
            a as int == (g as int) * ((a as int) / (g as int)),
            b as int == (g as int) * ((b as int) / (g as int)),
            x == a / g,
            y == b / g,
    ;
    assert(gcd(x, y) == 1) by (nonlinear_arith)
        requires
            g == g * gcd(x, y),
            g > 0,
    ;
}

/// A scalar that the arithmetic hands out is in lowest terms: no number but one divides
/// all of its components.
pub proof fn lemma_from_parts_lowest_terms(re: int, im: int, den: int)
    ensures
        from_parts(re, im, den) matches Some(s) ==> common_divisor(
            s.re as int,
            s.im as int,
            s.den as int,
        ) == 1,
{
    if from_parts(re, im, den) is Some {
        let s = from_parts(re, im, den)->0;
        let a = magnitude_of(re);
        let b = magnitude_of(im);
        let d = magnitude_of(den);
        let inner = gcd(a, b);
        let g = gcd(inner, d);
        lemma_common_divisor(re, im, den);
        lemma_exact_quotient(re, g as int);
        lemma_exact_quotient(im, g as int);
        assert(magnitude_of(s.re as int) == a / g);
        assert(magnitude_of(s.im as int) == b / g);
        assert(magnitude_of(s.den as int) == d / g);
        // the inner divisor, and the denominator, as multiples of g
        lemma_gcd_divides(inner, d);
        lemma_gcd_of_quotients(inner, d);
        vstd::arithmetic::div_mod::lemma_fundamental_div_mod(inner as int, g as int);
        vstd::arithmetic::div_mod::lemma_fundamental_div_mod(a as int, g as int);
        vstd::arithmetic::div_mod::lemma_fundamental_div_mod(b as int, g as int);
        let x = a / g;
        let y = b / g;
        let h = inner / g;
        assert(g * x == a && g * y == b && g * h == inner) by (nonlinear_arith)
            requires
                a as int == (g as int) * ((a as int) / (g as int)),
                b as int == (g as int) * ((b as int) / (g as int)),
                inner as int == (g as int) * ((inner as int) / (g as int)),
                x == a / g,
                y == b / g,
                h == inner / g,
        ;
        lemma_gcd_scale(g, x, y);
        assert(gcd(x, y) == h) by (nonlinear_arith)
            requires
                g * h == g * gcd(x, y),
                g > 0,
        ;
    }
}

/// A scalar that the arithmetic hands out has the value of the components it was made
/// of.
pub proof fn lemma_from_parts_value(re: int, im: int, den: int)
    ensures
        from_parts(re, im, den) matches Some(s) ==> s.re * den == re * s.den && s.im * den
            == im * s.den,
        from_parts(re, im, den) matches Some(s) ==> (fits(re) && fits(im) && fits(den)
            ==> s.same_value(Scalar { re: re as i64, im: im as i64, den: den as i64 })),
{
    if from_parts(re, im, den) is Some {
        let s = from_parts(re, im, den)->0;
        let g = common_divisor(re, im, den) as int;
        lemma_common_divisor(re, im, den);
        lemma_exact_quotient(re, g);
        lemma_exact_quotient(im, g);
        lemma_exact_quotient(den, g);
        vstd::arithmetic::div_mod::lemma_fundamental_div_mod(magnitude_of(re) as int, g);
        vstd::arithmetic::div_mod::lemma_fundamental_div_mod(magnitude_of(im) as int, g);
        vstd::arithmetic::div_mod::lemma_fundamental_div_mod(den, g);
        let r = s.re as int;
        let i = s.im as int;
        let d = s.den as int;
        assert(re == g * r && im == g * i && den == g * d) by (nonlinear_arith)
            requires
                magnitude_of(re) as int == g * ((magnitude_of(re) as int) / g),
                magnitude_of(im) as int == g * ((magnitude_of(im) as int) / g),
                den == g * (den / g),
                re >= 0 ==> r == (magnitude_of(re) as int) / g,
                re < 0 ==> r == -((magnitude_of(re) as int) / g),
                im >= 0 ==> i == (magnitude_of(im) as int) / g,
                im < 0 ==> i == -((magnitude_of(im) as int) / g),
                d == den / g,
                re >= 0 ==> magnitude_of(re) == re,
                re < 0 ==> magnitude_of(re) == -re,
                im >= 0 ==> magnitude_of(im) == im,
                im < 0 ==> magnitude_of(im) == -im,
        ;
        assert(r * den == re * d && i * den == im * d) by (nonlinear_arith)
            requires
                re == g * r,
                im == g * i,
                den == g * d,
        ;
    }
}

/// A scalar in lowest terms has a positive denominator.
pub proof fn lemma_from_parts_well_formed(re: int, im: int, den: int)
    ensures
        from_parts(re, im, den) matches Some(s) ==> s.well_formed(),
{
    if den > 0 {
        let g = common_divisor(re, im, den) as int;
        lemma_common_divisor(re, im, den);
        vstd::arithmetic::div_mod::lemma_fundamental_div_mod(den, g);
        assert(den / g > 0) by (nonlinear_arith)
            requires
                den == g * (den / g) + 0,
                den > 0,
                g > 0,
        ;
    }
}

/// Exact sums and products have positive denominators.
pub proof fn lemma_arithmetic_well_formed(a: Scalar, b: Scalar)
    ensures
        a.sum(b) matches Some(c) ==> c.well_formed(),
        a.product(b) matches Some(c) ==> c.well_formed(),
{
    lemma_from_parts_well_formed(
        a.re * b.den + b.re * a.den,
        a.im * b.den + b.im * a.den,
        a.den * b.den,
    );
    lemma_from_parts_well_formed(
        a.re * b.re - a.im * b.im,
        a.re * b.im + a.im * b.re,
        a.den * b.den,
    );
}

/// Exact powers with natural exponents have positive denominators.
pub proof fn lemma_power_well_formed(base: Scalar, n: nat)
    ensures
        power(base, n) matches Some(p) ==> p.well_formed(),
    decreases n,
{
    if n > 0 {
        lemma_power_well_formed(base, n / 2);
        match power(base, n / 2) {
            Some(half) => {
                lemma_arithmetic_well_formed(half, half);
                match half.product(half) {
                    Some(square) => {
                        lemma_arithmetic_well_formed(square, base);
                    },
                    None => {},
                }
            },
            None => {},
        }
    }
}

/// Exact powers with integer exponents have positive denominators.
pub proof fn lemma_integer_power_well_formed(base: Scalar, n: int)
    ensures
        base.integer_power(n) matches Some(p) ==> p.well_formed(),
{
    if n >= 0 {
        lemma_power_well_formed(base, n as nat);
    } else {
        match base.reciprocal() {
            Some(inverse) => {
                lemma_power_well_formed(inverse, (-n) as nat);
            },
            None => {},
        }
    }
}

/// Two to the power `k`.
fn two_to(k: u64) -> (r: u128)
    requires
        k <= 63,
    ensures
        r == pow2(k as nat),
        1 <= r <= 0x8000_0000_0000_0000,
{
    let mut r: u128 = 1;
    let mut i: u64 = 0;
    while i < k
        invariant
            i <= k <= 63,
            r == pow2(i as nat),
        decreases k - i,
    {
        proof {
            lemma_pow2_grows(i as nat, 62);
            lemma_pow2_grows((i + 1) as nat, 63);
        }
        r = r * 2;
        i += 1;
    }
    proof {
        lemma_pow2_grows(0, i as nat);
        lemma_pow2_grows(i as nat, 63);
    }
    r
}

/// The powers of two grow with the exponent; the sixty-third and the sixty-fourth are
/// the first that no component of a scalar can hold.
proof fn lemma_pow2_grows(a: nat, b: nat)
    requires
        a <= b,
    ensures
        pow2(a) <= pow2(b),
        pow2(0) == 1,
        pow2(62) == 0x4000_0000_0000_0000,
        pow2(63) == 0x8000_0000_0000_0000,
        pow2(64) == 0x1_0000_0000_0000_0000,
    decreases b - a,
{
    reveal_with_fuel(pow2, 65);
    assert(pow2(64) == 0x1_0000_0000_0000_0000);
    if a < b {
        lemma_pow2_grows(a + 1, b);
    }
}

/// Zero over a positive denominator is the scalar zero.
proof fn lemma_zero_parts(den: int)
    requires
        den > 0,
    ensures
        from_parts(0, 0, den) == Some(Scalar { re: 0, im: 0, den: 1 }),
{
    reveal_with_fuel(gcd, 3);
    assert(gcd(0, 0) == 0);
    assert(gcd(0, den as nat) == den);
    assert(common_divisor(0, 0, den) == den);
    assert(0int / den == 0 && den / den == 1) by (nonlinear_arith)
        requires
            den > 0,
    ;
}

/// A number without an imaginary part over one is in lowest terms.
proof fn lemma_whole_parts(re: int)
    ensures
        common_divisor(re, 0, 1) == 1,
{
    reveal_with_fuel(gcd, 3);
    let a = gcd(magnitude_of(re), 0);
    assert(a % 1 == 0);
    assert(gcd(a, 1) == gcd(1, 0));
}

/// Halving the numerator and the denominator leaves the scalar as it is.
proof fn lemma_halved_parts(re: int, den: int)
    requires
        den > 0,
    ensures
        from_parts(2 * re, 0, 2 * den) == from_parts(re, 0, den),
{
    reveal_with_fuel(gcd, 2);
    let a = magnitude_of(re);
    assert(gcd(a, 0) == a);
    assert(gcd(2 * a, 0) == 2 * a);
    assert(magnitude_of(2 * re) == 2 * a);
    lemma_gcd_scale(2, a, den as nat);
    let g = gcd(a, den as nat) as int;
    lemma_gcd_positive(a, den as nat);
    assert(common_divisor(re, 0, den) == g);
    assert(common_divisor(2 * re, 0, 2 * den) == 2 * g);
    lemma_gcd_divides(a, den as nat);
    vstd::arithmetic::div_mod::lemma_truncate_middle(a as int, 2, g);
    assert((2 * a) % ((2 * g) as nat) == 0);
    lemma_exact_quotient(re, g);
    lemma_exact_quotient(2 * re, 2 * g);
    vstd::arithmetic::div_mod::lemma_div_multiples_vanish_quotient(2, a as int, g);
    vstd::arithmetic::div_mod::lemma_div_multiples_vanish_quotient(2, den, g);
    vstd::arithmetic::div_mod::lemma_div_multiples_vanish_quotient(2, 0, g);
}

/// An odd number that divides a power of two is one.
proof fn lemma_odd_divisor(g: nat, k: nat)
    requires
        g % 2 == 1,
        pow2(k) % g == 0,
    ensures
        g == 1,
    decreases k,
{
    if k == 0 {
        if g > 1 {
            vstd::arithmetic::div_mod::lemma_small_mod(1, g);
        }
    } else {
        let half = pow2((k - 1) as nat);
        let q = (2 * half) / g;
        vstd::arithmetic::div_mod::lemma_fundamental_div_mod((2 * half) as int, g as int);
        assert(2 * half == g * q);
        let c = g / 2;
        let d = q / 2;
        if q % 2 == 1 {
            assert(g * q == 2 * (2 * c * d + c + d) + 1) by (nonlinear_arith)
                requires
                    g == 2 * c + 1,
                    q == 2 * d + 1,
            ;
        }
        assert(half == g * d) by (nonlinear_arith)
            requires
                2 * half == g * q,
                q == 2 * d,
        ;
        vstd::arithmetic::div_mod::lemma_mod_multiples_basic((q / 2) as int, g as int);
        assert(g * (q / 2) == (q / 2) * g) by (nonlinear_arith);
        lemma_odd_divisor(g, (k - 1) as nat);
    }
}

/// An odd number over the sixty-third power of two, or a greater one, cannot be held.
proof fn lemma_odd_over_power(re: int, k: nat)
    requires
        re % 2 == 1,
        k >= 63,
    ensures
        from_parts(re, 0, pow2(k) as int) is None,
{
    reveal_with_fuel(gcd, 2);
    lemma_pow2_grows(63, k);
    let a = magnitude_of(re);
    assert(a % 2 == 1);
    assert(gcd(a, 0) == a);
    let g = gcd(a, pow2(k));
    lemma_gcd_divides(a, pow2(k));
    assert(g % 2 == 1) by {
        vstd::arithmetic::div_mod::lemma_fundamental_div_mod(a as int, g as int);
        let q = a / g;
        assert(a == g * q);
        if g % 2 == 0 {
            let c = g / 2;
            assert(a == 2 * (c * q)) by (nonlinear_arith)
                requires
                    a == g * q,
                    g == 2 * c,
            ;
        }
    }
    lemma_odd_divisor(g, k);
    assert(common_divisor(re, 0, pow2(k) as int) == 1);
}

fn gcd_of(a: u128, b: u128) -> (r: u128)
    ensures
        r == gcd(a as nat, b as nat),
{
    let mut x = a;
    let mut y = b;
    while y != 0
        invariant
            gcd(x as nat, y as nat) == gcd(a as nat, b as nat),
        decreases y,
    {
        let rest = x % y;
        x = y;
        y = rest;
    }
    x
}

fn narrow(re: (bool, u128), im: (bool, u128), den: u128) -> (r: Option<Scalar>)
    ensures
        r == from_parts(signed_value(re), signed_value(im), den as int),
        r matches Some(s) ==> s.well_formed(),
{
    if den == 0 {
        return None;
    }
    let g = gcd_of(gcd_of(re.1, im.1), den);
    proof {
        lemma_common_divisor(signed_value(re), signed_value(im), den as int);
        assert(g == common_divisor(signed_value(re), signed_value(im), den as int));
        lemma_exact_quotient(signed_value(re), g as int);
        lemma_exact_quotient(signed_value(im), g as int);
        lemma_exact_quotient(den as int, g as int);
        vstd::arithmetic::div_mod::lemma_fundamental_div_mod(den as int, g as int);
        assert((den as int) / (g as int) > 0) by (nonlinear_arith)
            requires
                den as int == (g as int) * ((den as int) / (g as int)) + 0,
                den > 0,
                g > 0,
        ;
    }
    let r = re.1 / g;
    let i = im.1 / g;
    let d = den / g;
    let re_part = match place(re.0, r) {
        None => {
            return None;
        },
        Some(v) => v,
    };
    let im_part = match place(im.0, i) {
        None => {
            return None;
        },
        Some(v) => v,
    };
    if d > 0x7fff_ffff_ffff_ffff {
        return None;
    }
    Some(Scalar { re: re_part, im: im_part, den: d as i64 })
}

/// The integer with the given sign and magnitude, if it can be held.
fn place(negative: bool, m: u128) -> (r: Option<i64>)
    ensures
        r.is_some() == fits(signed_value((negative, m))),
        r matches Some(v) ==> v == signed_value((negative, m)),
{
    if negative {
        if m > 0x8000_0000_0000_0000 {
            None
        } else {
            let wide: i128 = -(m as i128);
            Some(wide as i64)
        }
    } else {
        if m > 0x7fff_ffff_ffff_ffff {
            None
        } else {
            Some(m as i64)
        }
    }
}

} // verus!
