//! Rational numbers are used for designating times on the song level, e.g. note lengths.
use vstd::prelude::*;
use vstd::arithmetic::div_mod::{lemma_fundamental_div_mod_converse, lemma_small_mod};
use vstd::arithmetic::power::{pow, lemma_pow_adds, lemma_pow0, lemma_pow1};
use crate::text::{
    chars_of, parse_i64, parse_i64_spec, push_decimal, push_str, push_char, decimal, is_digit, lemma_parse_decimal,
    IntErrorKind,
};
use crate::arith::{
    abs_int, sign_int, gcd_nat, reduced, lemma_reduce, lemma_reduced_unique, lemma_reduced_minimal,
    lemma_pow_abs_mono, lemma_pow_nonzero,
};

verus! {

/// `x` is representable as an `i64`.
pub open spec fn fits_i64(x: int) -> bool {
    i64::MIN <= x <= i64::MAX
}

/// `x` is representable as an `i64` and has an absolute value that is representable too.
pub open spec fn in_i64(x: int) -> bool {
    i64::MIN < x <= i64::MAX
}

/// Integer division rounding towards zero.
pub open spec fn tdiv(a: int, b: int) -> int {
    let q = abs_int(a) / abs_int(b);
    if (a < 0) != (b < 0) { -q } else { q }
}

/// Remainder of the division rounding towards zero; it has the sign of `a`.
pub open spec fn trem(a: int, b: int) -> int {
    if a >= 0 { a % b } else { -((-a) % b) }
}

/// A rational number, fully normalized by every constructor.
///
/// The numerator carries the sign, the denominator is positive, and the two
/// share no common factor.
#[derive(Debug, Clone, Copy, PartialEq, Eq, Structural)]
pub struct Rational {
    num: i64,
    denom: i64,
}

fn abs_i64(x: i64) -> (r: i64)
    requires
        x != i64::MIN,
    ensures
        r == abs_int(x as int),
{
    if x < 0 { -x } else { x }
}

/// The absolute value, which always fits in a `u64`.
fn unsigned_abs(x: i64) -> (r: u64)
    ensures
        r == abs_int(x as int),
{
    if x < 0 {
        if x == i64::MIN {
            0x8000_0000_0000_0000u64
        } else {
            (-x) as u64
        }
    } else {
        x as u64
    }
}

/// Computes the greatest common divisor of two numbers using Euclid's algorithm.
pub fn gcd(a: i64, b: i64) -> (g: i64)
    requires
        a != i64::MIN,
        b != i64::MIN,
    ensures
        g as int == gcd_nat(abs_int(a as int) as nat, abs_int(b as int) as nat),
{
    let mut a = abs_i64(a);
    let mut b = abs_i64(b);
    let ghost target = gcd_nat(a as nat, b as nat);
    if a < b {
        proof {
            lemma_small_mod(a as nat, b as nat);
        }
        let t = a;
        a = b;
        b = t;
    }
    while b != 0
        invariant
            0 <= a,
            0 <= b,
            gcd_nat(a as nat, b as nat) == target,
        decreases b,
    {
        let t = b;
        b = a % b;
        a = t;
    }
    a
}

impl Rational {
    /// The numerator.
    pub closed spec fn n(self) -> int {
        self.num as int
    }

    /// The denominator.
    pub closed spec fn d(self) -> int {
        self.denom as int
    }

    /// Numerator and denominator are machine integers.
    pub broadcast proof fn lemma_range(self)
        ensures
            i64::MIN <= #[trigger] self.n() <= i64::MAX,
            i64::MIN <= self.d() <= i64::MAX,
    {
    }

    /// The fraction is fully normalized.
    pub open spec fn wf(self) -> bool {
        reduced(self.n(), self.d())
    }

    /// `self` and the fraction `x / y` are the same number.
    pub open spec fn denotes(self, x: int, y: int) -> bool {
        self.n() * y == x * self.d()
    }

    /// `self` is less than `other`, comparing the cross products as the
    /// ordering of the type does.
    pub open spec fn less(self, other: Rational) -> bool {
        self.n() * other.d() < other.n() * self.d()
    }

    /// `self` is the normalized sum of `a` and `b`.
    pub open spec fn is_sum(self, a: Rational, b: Rational) -> bool {
        self.wf() && self.denotes(a.n() * b.d() + a.d() * b.n(), a.d() * b.d())
    }

    /// `self` is the normalized difference of `a` and `b`.
    pub open spec fn is_difference(self, a: Rational, b: Rational) -> bool {
        self.wf() && self.denotes(a.n() * b.d() - a.d() * b.n(), a.d() * b.d())
    }

    /// `self` is the normalized product of `a` and `b`.
    pub open spec fn is_product(self, a: Rational, b: Rational) -> bool {
        self.wf() && self.denotes(a.n() * b.n(), a.d() * b.d())
    }

    /// `self` is the normalized quotient of `a` and `b`.
    pub open spec fn is_quotient(self, a: Rational, b: Rational) -> bool {
        self.wf() && self.denotes(a.n() * b.d(), a.d() * b.n())
    }

    /// A normalized rational is determined by its value.
    pub proof fn lemma_normal_form_unique(a: Rational, b: Rational)
        requires
            a.wf(),
            b.wf(),
            a.denotes(b.n(), b.d()),
        ensures
            a == b,
    {
        lemma_reduced_unique(a.n(), a.d(), b.n(), b.d());
    }

    /// Create a new rational from a potentially unnormalized fraction.
    pub fn new(num: i64, denom: i64) -> (r: Rational)
        requires
            denom != 0,
            num != i64::MIN,
            denom != i64::MIN,
        ensures
            r.wf(),
            r.denotes(num as int, denom as int),
    {
        let div = gcd(num, denom);
        let anum = abs_i64(num);
        let aden = abs_i64(denom);
        let ghost g = div as int;
        proof {
            let (kx, ky) = lemma_reduce(anum as nat, aden as nat);
            lemma_fundamental_div_mod_converse(anum as int, g, kx as int, 0);
            lemma_fundamental_div_mod_converse(aden as int, g, ky as int, 0);
        }
        let n = anum / div;
        let d = aden / div;
        let signed = if (num < 0) != (denom < 0) { -n } else { n };
        proof {
            assert(abs_int(num as int) == g * n);
            assert(abs_int(denom as int) == g * d);
            assert(signed * denom == num * d) by (nonlinear_arith)
                requires
                    abs_int(num as int) == g * n,
                    abs_int(denom as int) == g * d,
                    signed == (if (num < 0) != (denom < 0) { -(n as int) } else { n as int }),
            {
                if num < 0 {
                    if denom < 0 {
                    } else {
                    }
                } else {
                    if denom < 0 {
                    } else {
                    }
                }
            }
            assert(abs_int(signed as int) == n);
        }
        Rational { num: signed, denom: d }
    }

    /// The integer `int` as a rational.
    pub fn integer(value: i64) -> (r: Rational)
        ensures
            r.wf(),
            r.n() == value,
            r.d() == 1,
    {
        proof {
            assert(gcd_nat(abs_int(value as int) as nat, 1) == gcd_nat(1, 0));
        }
        Rational { num: value, denom: 1 }
    }

    /// Zero, as the value that `zero` returns.
    pub closed spec fn zero_value() -> Rational {
        Rational { num: 0, denom: 1 }
    }

    /// Zero is written `0/1`, which is normalized.
    pub proof fn lemma_zero_value()
        ensures
            Rational::zero_value().wf(),
            Rational::zero_value().n() == 0,
            Rational::zero_value().d() == 1,
    {
        assert(gcd_nat(0, 1) == gcd_nat(1, 0));
    }

    /// Zero.
    pub fn zero() -> (r: Rational)
        ensures
            r.wf(),
            r.n() == 0,
            r.d() == 1,
            r == Rational::zero_value(),
    {
        Rational::integer(0)
    }

    /// One.
    pub fn one() -> (r: Rational)
        ensures
            r.wf(),
            r.n() == 1,
            r.d() == 1,
    {
        Rational::integer(1)
    }

    /// The fraction `1 / n`.
    pub fn nth(n: i64) -> (r: Rational)
        requires
            n != 0,
            n != i64::MIN,
        ensures
            r.wf(),
            r.denotes(1, n as int),
    {
        Rational::new(1, n)
    }

    /// The reciprocal `1 / self`, normalized.
    pub fn recip(self) -> (r: Rational)
        requires
            self.n() != 0,
            self.n() != i64::MIN,
            self.d() != i64::MIN,
        ensures
            r.wf(),
            r.denotes(self.d(), self.n()),
    {
        Rational::new(self.denom, self.num)
    }

    /// Numerator and denominator swapped, as the powers of a reciprocal are
    /// computed from; normalizing is left to the products that follow.
    fn flip(self) -> (r: Rational)
        ensures
            r.n() == self.d(),
            r.d() == self.n(),
    {
        Rational { num: self.denom, denom: self.num }
    }

    /// Round towards zero.
    pub fn truncate(self) -> (r: i64)
        requires
            self.d() != 0,
            !(self.n() == i64::MIN && self.d() == -1),
        ensures
            r == tdiv(self.n(), self.d()),
    {
        let a = unsigned_abs(self.num);
        let b = unsigned_abs(self.denom);
        let q = a / b;
        proof {
            assert(q <= a) by (nonlinear_arith) requires q == a / b, b >= 1;
            if q == a && a == 0x8000_0000_0000_0000u64 {
                assert(b == 1) by (nonlinear_arith) requires q == a / b, b >= 1, q == a, a > 0;
            }
        }
        if (self.num < 0) != (self.denom < 0) {
            if q == 0x8000_0000_0000_0000u64 {
                i64::MIN
            } else {
                -(q as i64)
            }
        } else {
            q as i64
        }
    }

    /// Whether the number is zero.
    pub fn is_zero(self) -> (r: bool)
        ensures
            r == (self.n() == 0),
    {
        self.num == 0
    }

    /// The numerator; it carries the sign.
    pub fn numerator(self) -> (r: i64)
        ensures
            r == self.n(),
    {
        self.num
    }

    /// The denominator; it is positive for a normalized rational.
    pub fn denominator(self) -> (r: i64)
        ensures
            r == self.d(),
    {
        self.denom
    }

    /// Negation.
    pub fn neg(self) -> (r: Rational)
        requires
            self.n() != i64::MIN,
        ensures
            r.n() == -self.n(),
            r.d() == self.d(),
    {
        Rational { num: -self.num, denom: self.denom }
    }

    /// Product.
    pub fn mul(self, rhs: Rational) -> (r: Rational)
        requires
            in_i64(self.n() * rhs.n()),
            in_i64(self.d() * rhs.d()),
            self.d() * rhs.d() != 0,
        ensures
            r.is_product(self, rhs),
    {
        Rational::new(self.num * rhs.num, self.denom * rhs.denom)
    }

    /// Sum.
    pub fn add(self, rhs: Rational) -> (r: Rational)
        requires
            fits_i64(self.n() * rhs.d()),
            fits_i64(self.d() * rhs.n()),
            in_i64(self.n() * rhs.d() + self.d() * rhs.n()),
            in_i64(self.d() * rhs.d()),
            self.d() * rhs.d() != 0,
        ensures
            r.is_sum(self, rhs),
    {
        Rational::new(self.num * rhs.denom + self.denom * rhs.num, self.denom * rhs.denom)
    }

    /// Difference.
    pub fn sub(self, rhs: Rational) -> (r: Rational)
        requires
            rhs.n() != i64::MIN,
            fits_i64(self.n() * rhs.d()),
            in_i64(self.d() * rhs.n()),
            in_i64(self.n() * rhs.d() - self.d() * rhs.n()),
            in_i64(self.d() * rhs.d()),
            self.d() * rhs.d() != 0,
        ensures
            r.is_difference(self, rhs),
    {
        let neg = rhs.neg();
        proof {
            assert(self.d() * neg.n() == -(self.d() * rhs.n())) by (nonlinear_arith)
                requires neg.n() == -rhs.n();
        }
        self.add(neg)
    }

    /// Quotient.
    pub fn div(self, rhs: Rational) -> (r: Rational)
        requires
            in_i64(self.n() * rhs.d()),
            in_i64(self.d() * rhs.n()),
            self.d() * rhs.n() != 0,
        ensures
            r.is_quotient(self, rhs),
    {
        Rational::new(self.num * rhs.denom, self.denom * rhs.num)
    }

    /// Remainder of the division truncated towards zero, with the sign of `self`.
    pub fn rem(self, rhs: Rational) -> (r: Rational)
        requires
            fits_i64(self.n() * rhs.d()),
            fits_i64(rhs.n() * self.d()),
            rhs.n() * self.d() != 0,
            !(self.n() * rhs.d() == i64::MIN && rhs.n() * self.d() == -1),
            in_i64(self.d() * rhs.d()),
            self.d() * rhs.d() != 0,
        ensures
            r.wf(),
            r.denotes(trem(self.n() * rhs.d(), rhs.n() * self.d()), self.d() * rhs.d()),
    {
        let common_denom = self.denom * rhs.denom;
        let self_num = self.num * rhs.denom;
        let rhs_num = rhs.num * self.denom;
        let m = self_num % rhs_num;
        proof {
            let a = self_num as int;
            let b = rhs_num as int;
            if a >= 0 {
                assert(0 <= a % b < abs_int(b));
            } else {
                assert(0 <= (-a) % b < abs_int(b));
            }
        }
        Rational::new(m, common_denom)
    }

    /// Product with an integer.
    pub fn mul_int(self, rhs: i64) -> (r: Rational)
        requires
            in_i64(self.n() * rhs),
            self.d() != 0,
            self.d() != i64::MIN,
        ensures
            r.wf(),
            r.denotes(self.n() * rhs, self.d()),
    {
        Rational::new(self.num * rhs, self.denom)
    }

    /// Quotient by an integer.
    pub fn div_int(self, rhs: i64) -> (r: Rational)
        requires
            self.n() != i64::MIN,
            in_i64(self.d() * rhs),
            self.d() * rhs != 0,
        ensures
            r.wf(),
            r.denotes(self.n(), self.d() * rhs),
    {
        Rational::new(self.num, self.denom * rhs)
    }
}

/// Multiplying fractions respects the value they denote.
pub proof fn lemma_denotes_mul(r: Rational, a: Rational, b: Rational, p1: int, q1: int, p2: int, q2: int)
    requires
        r.denotes(a.n() * b.n(), a.d() * b.d()),
        a.denotes(p1, q1),
        b.denotes(p2, q2),
        a.d() != 0,
        b.d() != 0,
    ensures
        r.denotes(p1 * p2, q1 * q2),
{
    let (rn, rd, an, ad, bn, bd) = (r.n(), r.d(), a.n(), a.d(), b.n(), b.d());
    assert(rn * (q1 * q2) * (ad * bd) == (rn * (ad * bd)) * (q1 * q2)) by (nonlinear_arith);
    assert((an * bn) * rd * (q1 * q2) == (an * q1) * (bn * q2) * rd) by (nonlinear_arith);
    assert((p1 * ad) * (p2 * bd) * rd == p1 * p2 * rd * (ad * bd)) by (nonlinear_arith);
    assert(rn * (q1 * q2) * (ad * bd) == p1 * p2 * rd * (ad * bd));
    assert(ad * bd != 0) by (nonlinear_arith) requires ad != 0, bd != 0;
    assert(rn * (q1 * q2) == p1 * p2 * rd) by (nonlinear_arith)
        requires
            rn * (q1 * q2) * (ad * bd) == p1 * p2 * rd * (ad * bd),
            ad * bd != 0,
    ;
}

/// Base numerator of an integer power: the numerator for a positive exponent,
/// the denominator for a negative one.
pub open spec fn pow_base_num(x: Rational, power: int) -> int {
    if power > 0 { x.n() } else { x.d() }
}

/// Base denominator of an integer power.
pub open spec fn pow_base_den(x: Rational, power: int) -> int {
    if power > 0 { x.d() } else { x.n() }
}

/// The power `x ^ power` can be computed without overflow: both parts of
/// the unreduced result fit in an `i64`.
pub open spec fn powi_fits(x: Rational, power: int) -> bool {
    power != i64::MIN && (power != 0 ==> {
        &&& pow_base_den(x, power) != 0
        &&& abs_int(pow(pow_base_num(x, power), abs_int(power) as nat)) <= i64::MAX
        &&& abs_int(pow(pow_base_den(x, power), abs_int(power) as nat)) <= i64::MAX
    })
}

/// `r` is `x ^ power`, in lowest terms.
pub open spec fn is_powi(r: Rational, x: Rational, power: int) -> bool {
    &&& r.wf()
    &&& r.denotes(
        pow(pow_base_num(x, power), abs_int(power) as nat),
        pow(pow_base_den(x, power), abs_int(power) as nat),
    )
}

impl Rational {
    /// Compute an integer power of the rational by repeated squaring.
    pub fn powi(self, power: i64) -> (r: Rational)
        requires
            powi_fits(self, power as int),
        ensures
            is_powi(r, self, power as int),
    {
        if power == 0 {
            proof {
                lemma_pow0(pow_base_num(self, 0));
                lemma_pow0(pow_base_den(self, 0));
            }
            return Self::one();
        }
        let ghost bn = pow_base_num(self, power as int);
        let ghost bd = pow_base_den(self, power as int);
        let ghost p: nat = abs_int(power as int) as nat;
        let mut accum = if power > 0 { self } else { self.flip() };
        let mut correction = Rational::one();
        let mut remaining_power = abs_i64(power);
        let ghost mut e: nat = 1;
        let ghost mut c: nat = 0;
        proof {
            lemma_pow1(bn);
            lemma_pow1(bd);
            lemma_pow0(bn);
            lemma_pow0(bd);
            assert(e * remaining_power + c == p);
        }
        while remaining_power > 1
            invariant
                1 <= remaining_power,
                e >= 1,
                e * remaining_power + c == p,
                bd != 0,
                abs_int(pow(bn, p)) <= i64::MAX,
                abs_int(pow(bd, p)) <= i64::MAX,
                accum.d() != 0,
                correction.d() != 0,
                accum.denotes(pow(bn, e), pow(bd, e)),
                correction.denotes(pow(bn, c), pow(bd, c)),
                abs_int(accum.n()) <= abs_int(pow(bn, e)),
                abs_int(accum.d()) <= abs_int(pow(bd, e)),
                abs_int(correction.n()) <= abs_int(pow(bn, c)),
                abs_int(correction.d()) <= abs_int(pow(bd, c)),
            decreases remaining_power,
        {
            if remaining_power % 2 == 1 {
                proof {
                    assert(c + e <= p) by (nonlinear_arith)
                        requires e * remaining_power + c == p, remaining_power > 1, e >= 1;
                    self.lemma_pow_step(correction, accum, bn, bd, c, e, p);
                }
                let next = correction.mul(accum);
                proof {
                    lemma_denotes_mul(next, correction, accum, pow(bn, c), pow(bd, c), pow(bn, e), pow(bd, e));
                    lemma_pow_adds(bn, c, e);
                    lemma_pow_adds(bd, c, e);
                    lemma_pow_nonzero(bd, c + e);
                    lemma_reduced_minimal(next.n(), next.d(), pow(bn, c + e), pow(bd, c + e));
                }
                correction = next;
                remaining_power = remaining_power - 1;
                proof {
                    c = c + e;
                    assert(e * remaining_power + c == p) by (nonlinear_arith)
                        requires e * (remaining_power + 1) + (c - e) == p;
                }
            }
            proof {
                assert(remaining_power % 2 == 0);
                assert(remaining_power >= 2);
                assert(e + e <= p) by (nonlinear_arith)
                    requires e * remaining_power + c == p, remaining_power >= 2, e >= 1, c >= 0;
                self.lemma_pow_step(accum, accum, bn, bd, e, e, p);
            }
            let squared = accum.mul(accum);
            proof {
                lemma_denotes_mul(squared, accum, accum, pow(bn, e), pow(bd, e), pow(bn, e), pow(bd, e));
                lemma_pow_adds(bn, e, e);
                lemma_pow_adds(bd, e, e);
                lemma_pow_nonzero(bd, e + e);
                lemma_reduced_minimal(squared.n(), squared.d(), pow(bn, e + e), pow(bd, e + e));
            }
            accum = squared;
            let ghost old_rem = remaining_power;
            remaining_power = remaining_power / 2;
            proof {
                e = e + e;
                assert(e * remaining_power + c == p) by (nonlinear_arith)
                    requires
                        (e / 2) * old_rem + c == p,
                        old_rem == 2 * remaining_power,
                        e % 2 == 0,
                        e == 2 * (e / 2),
                ;
            }
        }
        proof {
            assert(e + c == p);
            self.lemma_pow_step(accum, correction, bn, bd, e, c, p);
        }
        let result = accum.mul(correction);
        proof {
            lemma_denotes_mul(result, accum, correction, pow(bn, e), pow(bd, e), pow(bn, c), pow(bd, c));
            lemma_pow_adds(bn, e, c);
            lemma_pow_adds(bd, e, c);
        }
        result
    }

    /// The products formed while computing a power stay within bounds.
    proof fn lemma_pow_step(self, a: Rational, b: Rational, bn: int, bd: int, i: nat, j: nat, p: nat)
        requires
            i + j <= p,
            i + j >= 1,
            bd != 0,
            abs_int(pow(bn, p)) <= i64::MAX,
            abs_int(pow(bd, p)) <= i64::MAX,
            a.d() != 0,
            b.d() != 0,
            abs_int(a.n()) <= abs_int(pow(bn, i)),
            abs_int(a.d()) <= abs_int(pow(bd, i)),
            abs_int(b.n()) <= abs_int(pow(bn, j)),
            abs_int(b.d()) <= abs_int(pow(bd, j)),
        ensures
            in_i64(a.n() * b.n()),
            in_i64(a.d() * b.d()),
            a.d() * b.d() != 0,
    {
        lemma_pow_adds(bn, i, j);
        lemma_pow_adds(bd, i, j);
        lemma_pow_abs_mono(bn, i + j, p);
        lemma_pow_abs_mono(bd, i + j, p);
        let (x1, y1, x2, y2) = (pow(bn, i), pow(bd, i), pow(bn, j), pow(bd, j));
        assert(abs_int(a.n() * b.n()) <= abs_int(x1 * x2)) by (nonlinear_arith)
            requires abs_int(a.n()) <= abs_int(x1), abs_int(b.n()) <= abs_int(x2);
        assert(abs_int(a.d() * b.d()) <= abs_int(y1 * y2)) by (nonlinear_arith)
            requires abs_int(a.d()) <= abs_int(y1), abs_int(b.d()) <= abs_int(y2);
        assert(a.d() * b.d() != 0) by (nonlinear_arith) requires a.d() != 0, b.d() != 0;
    }
}

fn wide_mul(a: i64, b: i64) -> (r: i128)
    ensures
        r == a * b,
{
    proof {
        assert(-0x8000_0000_0000_0000 <= a < 0x8000_0000_0000_0000);
        assert(abs_int(a as int) * abs_int(b as int) <= 0x8000_0000_0000_0000 * 0x8000_0000_0000_0000) by (nonlinear_arith)
            requires
                abs_int(a as int) <= 0x8000_0000_0000_0000,
                abs_int(b as int) <= 0x8000_0000_0000_0000,
        ;
        assert(abs_int(a * b) == abs_int(a as int) * abs_int(b as int)) by (nonlinear_arith);
    }
    (a as i128) * (b as i128)
}

/// The two cross products that decide the order of `a` and `b`.
pub(crate) fn cross_products(a: &Rational, b: &Rational) -> (r: (i128, i128))
    ensures
        r.0 == a.n() * b.d(),
        r.1 == b.n() * a.d(),
{
    (wide_mul(a.num, b.denom), wide_mul(b.num, a.denom))
}

fn tdiv_i64(a: i64, b: i64) -> (r: i64)
    requires
        b != 0,
        a != i64::MIN,
        b != i64::MIN,
    ensures
        r == tdiv(a as int, b as int),
{
    let q = abs_i64(a) / abs_i64(b);
    if (a < 0) != (b < 0) { -q } else { q }
}

/// Adding half the divisor before dividing rounds to the nearest quotient.
proof fn lemma_round_half(m: int, d: int)
    requires
        m >= 0,
        d > 0,
    ensures
        (m + d / 2) / d == (2 * m + d) / (2 * d),
{
    let h = d / 2;
    let q = (m + h) / d;
    let rr = (m + h) % d;
    assert(m + h == d * q + rr && 0 <= rr < d) by {
        vstd::arithmetic::div_mod::lemma_fundamental_div_mod(m + h, d);
    }
    assert(0 <= d - 2 * h <= 1);
    assert(2 * m + d == q * (2 * d) + (2 * rr + (d - 2 * h))) by (nonlinear_arith)
        requires m + h == d * q + rr;
    lemma_fundamental_div_mod_converse(2 * m + d, 2 * d, q, 2 * rr + (d - 2 * h));
}

impl Rational {
    /// Round to the closest integer, halves away from zero.
    pub fn round(self) -> (r: i64)
        requires
            self.d() != 0,
            self.d() != i64::MIN,
            in_i64(self.n() + tdiv(sign_int(self.n()) * self.d(), 2)),
        ensures
            r == tdiv(self.n() + tdiv(sign_int(self.n()) * self.d(), 2), self.d()),
            self.d() > 0 ==> r == sign_int(self.n()) * ((2 * abs_int(self.n()) + self.d()) / (2 * self.d())),
    {
        let sign: i64 = if self.num < 0 { -1 } else if self.num == 0 { 0 } else { 1 };
        let half = tdiv_i64(sign * self.denom, 2);
        let r = tdiv_i64(self.num + half, self.denom);
        proof {
            let n = self.n();
            let d = self.d();
            if d > 0 {
                if n > 0 {
                    assert(half == d / 2);
                    lemma_round_half(n, d);
                } else if n < 0 {
                    assert(half == -(d / 2));
                    lemma_round_half(-n, d);
                    assert(abs_int(n + half) == -n + d / 2);
                }
            }
        }
        r
    }

    /// Sum, or `None` when an intermediate product or the result overflows.
    pub fn checked_add(self, rhs: Rational) -> (r: Option<Rational>)
        requires
            self.d() * rhs.d() != 0,
        ensures
            r is Some <==> (fits_i64(self.n() * rhs.d()) && fits_i64(self.d() * rhs.n())
                && in_i64(self.n() * rhs.d() + self.d() * rhs.n()) && in_i64(self.d() * rhs.d())),
            r matches Some(v) ==> v.is_sum(self, rhs),
    {
        let a = wide_mul(self.num, rhs.denom);
        let b = wide_mul(self.denom, rhs.num);
        let c = wide_mul(self.denom, rhs.denom);
        let lo = i64::MIN as i128;
        let hi = i64::MAX as i128;
        if a < lo || a > hi || b < lo || b > hi {
            return None;
        }
        let s = a + b;
        if s <= lo || s > hi || c <= lo || c > hi {
            return None;
        }
        Some(self.add(rhs))
    }

    /// Product, or `None` when a product overflows.
    pub fn checked_mul(self, rhs: Rational) -> (r: Option<Rational>)
        requires
            self.d() * rhs.d() != 0,
        ensures
            r is Some <==> (in_i64(self.n() * rhs.n()) && in_i64(self.d() * rhs.d())),
            r matches Some(v) ==> v.is_product(self, rhs),
    {
        let a = wide_mul(self.num, rhs.num);
        let c = wide_mul(self.denom, rhs.denom);
        let lo = i64::MIN as i128;
        let hi = i64::MAX as i128;
        if a <= lo || a > hi || c <= lo || c > hi {
            return None;
        }
        Some(self.mul(rhs))
    }

    /// Integer power, or `None` when a product overflows along the way, the
    /// base has a zero denominator, or the power is `i64::MIN`.
    pub fn checked_powi(self, power: i64) -> (r: Option<Rational>)
        ensures
            powi_fits(self, power as int) ==> r is Some,
            r matches Some(v) ==> is_powi(v, self, power as int),
    {
        if power == 0 {
            proof {
                lemma_pow0(pow_base_num(self, 0));
                lemma_pow0(pow_base_den(self, 0));
            }
            return Some(Self::one());
        }
        if power == i64::MIN {
            return None;
        }
        let mut accum = if power > 0 { self } else { self.flip() };
        if accum.denom == 0 {
            return None;
        }
        let ghost fits = powi_fits(self, power as int);
        let ghost bn = pow_base_num(self, power as int);
        let ghost bd = pow_base_den(self, power as int);
        let ghost p: nat = abs_int(power as int) as nat;
        let mut correction = Rational::one();
        let mut remaining_power = abs_i64(power);
        let ghost mut e: nat = 1;
        let ghost mut c: nat = 0;
        proof {
            lemma_pow1(bn);
            lemma_pow1(bd);
            lemma_pow0(bn);
            lemma_pow0(bd);
        }
        while remaining_power > 1
            invariant
                1 <= remaining_power,
                e >= 1,
                e * remaining_power + c == p,
                bd != 0,
                fits == powi_fits(self, power as int),
                fits ==> abs_int(pow(bn, p)) <= i64::MAX,
                fits ==> abs_int(pow(bd, p)) <= i64::MAX,
                accum.d() != 0,
                correction.d() != 0,
                accum.denotes(pow(bn, e), pow(bd, e)),
                correction.denotes(pow(bn, c), pow(bd, c)),
                abs_int(accum.n()) <= abs_int(pow(bn, e)),
                abs_int(accum.d()) <= abs_int(pow(bd, e)),
                abs_int(correction.n()) <= abs_int(pow(bn, c)),
                abs_int(correction.d()) <= abs_int(pow(bd, c)),
            decreases remaining_power,
        {
            if remaining_power % 2 == 1 {
                proof {
                    assert(c + e <= p) by (nonlinear_arith)
                        requires e * remaining_power + c == p, remaining_power > 1, e >= 1;
                    if fits {
                        self.lemma_pow_step(correction, accum, bn, bd, c, e, p);
                    }
                    assert(correction.d() * accum.d() != 0) by (nonlinear_arith)
                        requires correction.d() != 0, accum.d() != 0;
                }
                let next = match correction.checked_mul(accum) {
                    Some(v) => v,
                    None => return None,
                };
                proof {
                    lemma_denotes_mul(next, correction, accum, pow(bn, c), pow(bd, c), pow(bn, e), pow(bd, e));
                    lemma_pow_adds(bn, c, e);
                    lemma_pow_adds(bd, c, e);
                    lemma_pow_nonzero(bd, c + e);
                    lemma_reduced_minimal(next.n(), next.d(), pow(bn, c + e), pow(bd, c + e));
                }
                correction = next;
                remaining_power = remaining_power - 1;
                proof {
                    c = c + e;
                    assert(e * remaining_power + c == p) by (nonlinear_arith)
                        requires e * (remaining_power + 1) + (c - e) == p;
                }
            }
            proof {
                assert(e + e <= p) by (nonlinear_arith)
                    requires e * remaining_power + c == p, remaining_power >= 2, e >= 1, c >= 0;
                if fits {
                    self.lemma_pow_step(accum, accum, bn, bd, e, e, p);
                }
                assert(accum.d() * accum.d() != 0) by (nonlinear_arith) requires accum.d() != 0;
            }
            let squared = match accum.checked_mul(accum) {
                Some(v) => v,
                None => return None,
            };
            proof {
                lemma_denotes_mul(squared, accum, accum, pow(bn, e), pow(bd, e), pow(bn, e), pow(bd, e));
                lemma_pow_adds(bn, e, e);
                lemma_pow_adds(bd, e, e);
                lemma_pow_nonzero(bd, e + e);
                lemma_reduced_minimal(squared.n(), squared.d(), pow(bn, e + e), pow(bd, e + e));
            }
            accum = squared;
            let ghost old_rem = remaining_power;
            remaining_power = remaining_power / 2;
            proof {
                e = e + e;
                assert(e * remaining_power + c == p) by (nonlinear_arith)
                    requires
                        (e / 2) * old_rem + c == p,
                        old_rem == 2 * remaining_power,
                        e == 2 * (e / 2),
                ;
            }
        }
        proof {
            if fits {
                self.lemma_pow_step(accum, correction, bn, bd, e, c, p);
            }
            assert(accum.d() * correction.d() != 0) by (nonlinear_arith)
                requires correction.d() != 0, accum.d() != 0;
        }
        let result = match accum.checked_mul(correction) {
            Some(v) => v,
            None => return None,
        };
        proof {
            lemma_denotes_mul(result, accum, correction, pow(bn, e), pow(bd, e), pow(bn, c), pow(bd, c));
            lemma_pow_adds(bn, e, c);
            lemma_pow_adds(bd, e, c);
        }
        Some(result)
    }

    /// The larger of the two, `other` when they compare equal.
    pub fn max(self, other: Rational) -> (r: Rational)
        requires
            fits_i64(self.n() * other.d()),
            fits_i64(other.n() * self.d()),
        ensures
            r == (if other.less(self) { self } else { other }),
    {
        if other.num * self.denom < self.num * other.denom { self } else { other }
    }
}

/// The kind of error that stops a rational from being parsed.
#[derive(Debug, Copy, Clone, PartialEq, Eq, Hash, Structural)]
pub enum RationalErrorKind {
    /// The numerator or denominator could not be parsed as integer.
    InvalidInt,
    /// The denominator was zero.
    Zero,
    /// The rational was not of the form `<int>` or `<int>/<int>`.
    Malformed,
}

/// An error which can be returned when parsing a rational.
#[derive(Debug, Clone, PartialEq, Eq, Structural)]
pub struct ParseRationalError(RationalErrorKind);

impl ParseRationalError {
    /// The kind of error, as a spec value.
    pub closed spec fn spec_kind(self) -> RationalErrorKind {
        self.0
    }

    /// The kind of error.
    pub fn kind(&self) -> (k: RationalErrorKind)
        ensures
            k == self.spec_kind(),
    {
        self.0
    }

    /// The message describing the error.
    pub fn to_string(&self) -> (s: String)
        ensures
            s@ == rational_error_message(self.spec_kind()),
    {
        let mut s = String::new();
        match self.0 {
            RationalErrorKind::InvalidInt => push_str(&mut s, "invalid integer literal"),
            RationalErrorKind::Zero => push_str(&mut s, "denominator is zero"),
            RationalErrorKind::Malformed => push_str(&mut s, "malformed fraction"),
        }
        proof {
            reveal_strlit("invalid integer literal");
            reveal_strlit("denominator is zero");
            reveal_strlit("malformed fraction");
        }
        s
    }
}

/// The message of a rational parse error.
pub open spec fn rational_error_message(k: RationalErrorKind) -> Seq<char> {
    match k {
        RationalErrorKind::InvalidInt => "invalid integer literal"@,
        RationalErrorKind::Zero => "denominator is zero"@,
        RationalErrorKind::Malformed => "malformed fraction"@,
    }
}

/// Index of the first occurrence of `c` in `s`, or the length of `s`.
pub open spec fn find_char(s: Seq<char>, c: char) -> int
    decreases s.len(),
{
    if s.len() == 0 {
        0
    } else if s[0] == c {
        0
    } else {
        1 + find_char(s.drop_first(), c)
    }
}

/// The numerator and denominator written in `s`, as `<int>` or `<int>/<int>`,
/// or the kind of error that parsing it reports.
pub open spec fn fraction_parts_spec(s: Seq<char>) -> Result<(i64, i64), RationalErrorKind> {
    let p = find_char(s, '/');
    match parse_i64_spec(s.take(p)) {
        Err(_) => Err(RationalErrorKind::InvalidInt),
        Ok(num) => if p == s.len() {
            Ok((num, 1i64))
        } else {
            let rest = s.skip(p + 1);
            let q = find_char(rest, '/');
            match parse_i64_spec(rest.take(q)) {
                Err(_) => Err(RationalErrorKind::InvalidInt),
                Ok(den) => if den == 0 {
                    Err(RationalErrorKind::Zero)
                } else if q < rest.len() {
                    Err(RationalErrorKind::Malformed)
                } else {
                    Ok((num, den))
                },
            }
        },
    }
}

proof fn lemma_find_char(s: Seq<char>, c: char, i: int)
    requires
        0 <= i <= s.len(),
        forall|j: int| 0 <= j < i ==> s[j] != c,
    ensures
        i <= find_char(s, c) <= s.len(),
        i < s.len() && s[i] == c ==> find_char(s, c) == i,
    decreases s.len(),
{
    if s.len() > 0 && i > 0 {
        assert forall|j: int| 0 <= j < i - 1 implies s.drop_first()[j] != c by {
            assert(s.drop_first()[j] == s[j + 1]);
        }
        lemma_find_char(s.drop_first(), c, i - 1);
    } else if s.len() > 0 {
        lemma_find_char(s.drop_first(), c, 0);
    }
}

/// Position of the first `c` in `cs[from..]`, or `cs.len()`.
fn find_from(cs: &Vec<char>, from: usize, c: char) -> (r: usize)
    requires
        from <= cs.len(),
    ensures
        r as int == from + find_char(cs@.skip(from as int), c),
        from <= r <= cs.len(),
{
    let mut i = from;
    while i < cs.len() && cs[i] != c
        invariant
            from <= i <= cs.len(),
            forall|j: int| from <= j < i ==> cs@[j] != c,
        decreases cs.len() - i,
    {
        i = i + 1;
    }
    proof {
        let t = cs@.skip(from as int);
        assert forall|j: int| 0 <= j < i - from implies t[j] != c by {
            assert(t[j] == cs@[from + j]);
        }
        lemma_find_char(t, c, i - from);
    }
    i
}

fn sub_vec(cs: &Vec<char>, start: usize, end: usize) -> (r: Vec<char>)
    requires
        start <= end <= cs.len(),
    ensures
        r@ == cs@.subrange(start as int, end as int),
{
    let mut r: Vec<char> = Vec::new();
    let mut i = start;
    while i < end
        invariant
            start <= i <= end <= cs.len(),
            r@ == cs@.subrange(start as int, i as int),
        decreases end - i,
    {
        r.push(cs[i]);
        proof {
            assert(r@ == cs@.subrange(start as int, i + 1));
        }
        i = i + 1;
    }
    r
}


/// The numerator and denominator written in `cs` as `<int>` or `<int>/<int>`,
/// or the kind of error that reading them reports.
pub fn fraction_parts(cs: &Vec<char>) -> (r: Result<(i64, i64), RationalErrorKind>)
    ensures
        r == fraction_parts_spec(cs@),
{
    let p = find_from(cs, 0, '/');
    proof {
        assert(cs@.skip(0) == cs@);
    }
    let num_text = sub_vec(cs, 0, p);
    proof {
        assert(num_text@ == cs@.take(p as int));
    }
    let numerator = match parse_i64(&num_text) {
        Ok(v) => v,
        Err(_) => return Err(RationalErrorKind::InvalidInt),
    };
    if p == cs.len() {
        return Ok((numerator, 1));
    }
    let q = find_from(cs, p + 1, '/');
    let den_text = sub_vec(cs, p + 1, q);
    proof {
        let rest = cs@.skip(p + 1);
        assert(den_text@ == rest.take(q - (p + 1)));
    }
    let denominator = match parse_i64(&den_text) {
        Ok(v) => v,
        Err(_) => return Err(RationalErrorKind::InvalidInt),
    };
    if denominator == 0 {
        Err(RationalErrorKind::Zero)
    } else if q < cs.len() {
        Err(RationalErrorKind::Malformed)
    } else {
        Ok((numerator, denominator))
    }
}

impl Rational {
    /// The decimal notation of the rational: the numerator, followed by `/` and
    /// the denominator unless the denominator is one.
    pub open spec fn text(self) -> Seq<char> {
        decimal(self.n()) + (if self.d() != 1 { seq!['/'] + decimal(self.d()) } else { seq![] })
    }

    /// The decimal notation of the rational, as `text` describes it.
    pub fn to_string(&self) -> (s: String)
        ensures
            s@ == self.text(),
    {
        let mut s = String::new();
        push_decimal(&mut s, self.num);
        if self.denom != 1 {
            push_char(&mut s, '/');
            push_decimal(&mut s, self.denom);
        }
        proof {
            if self.d() != 1 {
                assert(seq![].push('/') + decimal(self.d()) == seq!['/'] + decimal(self.d()));
            }
        }
        s
    }

    /// Parse a rational written as `<int>` or `<int>/<int>`.
    pub fn from_str(s: &str) -> (r: Result<Rational, ParseRationalError>)
        requires
            fraction_parts_spec(s@) matches Ok((n, d)) ==> n != i64::MIN && d != i64::MIN,
        ensures
            match fraction_parts_spec(s@) {
                Err(k) => r matches Err(e) && e.spec_kind() == k,
                Ok((n, d)) => r matches Ok(v) && v.wf() && v.denotes(n as int, d as int),
            },
    {
        let cs = chars_of(s);
        match fraction_parts(&cs) {
            Err(kind) => Err(ParseRationalError(kind)),
            Ok((numerator, denominator)) => Ok(Rational::new(numerator, denominator)),
        }
    }
}

/// Parsing the text of a normalized rational gives it back: the text splits
/// into its numerator and denominator, and the only normalized rational of
/// that value is the rational itself. (A numerator of `i64::MIN` cannot be
/// parsed back, as normalizing it overflows.)
pub proof fn law_text_roundtrip(r: Rational)
    requires
        r.wf(),
        r.n() != i64::MIN,
    ensures
        fraction_parts_spec(r.text()) == Ok::<(i64, i64), RationalErrorKind>((r.n() as i64, r.d() as i64)),
        forall|v: Rational| v.wf() && v.denotes(r.n(), r.d()) ==> v == r,
{
    let n = decimal(r.n());
    let s = r.text();
    lemma_parse_decimal(r.n());
    assert forall|j: int| 0 <= j < n.len() implies s[j] != '/' by {
        assert(s[j] == n[j]);
        assert(is_digit(n[j]) || n[j] == '-');
    }
    lemma_find_char(s, '/', n.len() as int);
    if r.d() != 1 {
        assert(s[n.len() as int] == '/');
        assert(s.take(n.len() as int) =~= n);
        let rest = s.skip(n.len() as int + 1);
        let d = decimal(r.d());
        assert(rest =~= d);
        lemma_parse_decimal(r.d());
        assert forall|j: int| 0 <= j < d.len() implies rest[j] != '/' by {
            assert(is_digit(d[j]) || d[j] == '-');
        }
        lemma_find_char(rest, '/', d.len() as int);
        assert(rest.take(d.len() as int) =~= d);
    } else {
        assert(s =~= n);
        assert(s.take(n.len() as int) =~= n);
    }
    assert forall|v: Rational| v.wf() && v.denotes(r.n(), r.d()) implies v == r by {
        Rational::lemma_normal_form_unique(v, r);
    }
}

} // verus!
