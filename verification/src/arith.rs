//! Number theory behind normalized fractions: greatest common divisors and
//! the facts that make a reduced fraction unique.
use vstd::prelude::*;
use vstd::arithmetic::div_mod::{lemma_fundamental_div_mod, lemma_fundamental_div_mod_converse};
use vstd::arithmetic::power::{pow, lemma_pow_increases, lemma_pow_positive};

verus! {

/// Absolute value of an integer.
pub open spec fn abs_int(x: int) -> int {
    if x < 0 { -x } else { x }
}

/// Sign of an integer: -1, 0 or 1.
pub open spec fn sign_int(x: int) -> int {
    if x < 0 { -1 } else if x == 0 { 0 } else { 1 }
}

/// Greatest common divisor of two naturals, by Euclid's recurrence.
pub open spec fn gcd_nat(a: nat, b: nat) -> nat
    decreases b,
{
    if b == 0 { a } else { gcd_nat(b, a % b) }
}

/// `d` divides `x`: `x` is a multiple of `d`.
pub open spec fn divides(d: int, x: int) -> bool {
    exists|k: int| x == #[trigger] (d * k)
}

proof fn lemma_mod_step(a: nat, b: nat)
    requires
        b > 0,
    ensures
        a == b * (a / b) + a % b,
        0 <= a % b < b,
        a / b >= 0,
{
    lemma_fundamental_div_mod(a as int, b as int);
}

/// The gcd divides both arguments; the quotients are returned.
pub proof fn lemma_gcd_divides(a: nat, b: nat) -> (r: (nat, nat))
    ensures
        a == gcd_nat(a, b) * r.0,
        b == gcd_nat(a, b) * r.1,
    decreases b,
{
    if b == 0 {
        assert(a == a * 1nat) by (nonlinear_arith);
        assert(0 == a * 0nat) by (nonlinear_arith);
        (1nat, 0nat)
    } else {
        lemma_mod_step(a, b);
        let (x, y) = lemma_gcd_divides(b, a % b);
        let g = gcd_nat(a, b);
        assert(g == gcd_nat(b, a % b));
        let q = a / b;
        // a = b * q + a % b = g * x * q + g * y
        assert(a == g * (x * q + y)) by (nonlinear_arith)
            requires
                a == b * q + a % b,
                b == g * x,
                a % b == g * y,
        ;
        (x * q + y, x)
    }
}

/// Every common divisor of `a` and `b` divides their gcd.
pub proof fn lemma_gcd_greatest(a: nat, b: nat, d: nat, x: nat, y: nat) -> (z: nat)
    requires
        a == d * x,
        b == d * y,
    ensures
        gcd_nat(a, b) == d * z,
    decreases b,
{
    if b == 0 {
        x
    } else {
        lemma_mod_step(a, b);
        let q = a / b;
        let r = a % b;
        // r = a - b * q = d * (x - y * q)
        assert(r == d * (x - y * q)) by (nonlinear_arith)
            requires
                a == b * q + r,
                a == d * x,
                b == d * y,
        ;
        let w: int = x - y * q;
        if d == 0 {
            assert(r == 0) by (nonlinear_arith) requires r == d * w, d == 0;
            lemma_gcd_greatest(b, r, d, y, 0)
        } else {
            assert(w >= 0) by (nonlinear_arith)
                requires
                    r == d * w,
                    d > 0,
                    r >= 0,
            ;
            lemma_gcd_greatest(b, r, d, y, w as nat)
        }
    }
}

/// Scaling both arguments scales the gcd.
pub proof fn lemma_gcd_scale(a: nat, b: nat, k: nat)
    ensures
        gcd_nat(k * a, k * b) == k * gcd_nat(a, b),
    decreases b,
{
    if b == 0 {
        assert(k * b == 0) by (nonlinear_arith) requires b == 0;
    } else if k == 0 {
        assert(k * a == 0 && k * b == 0) by (nonlinear_arith) requires k == 0;
        assert(gcd_nat(0, 0) == 0);
        assert(k * gcd_nat(a, b) == 0) by (nonlinear_arith) requires k == 0;
    } else {
        lemma_mod_step(a, b);
        let q = a / b;
        let r = a % b;
        assert(k * b > 0) by (nonlinear_arith) requires k > 0, b > 0;
        assert(k * a == q * (k * b) + k * r) by (nonlinear_arith)
            requires
                a == b * q + r,
        ;
        assert(0 <= k * r < k * b) by (nonlinear_arith)
            requires
                0 <= r < b,
                k > 0,
        ;
        lemma_fundamental_div_mod_converse((k * a) as int, (k * b) as int, q as int, (k * r) as int);
        assert(((k * a) as nat) % ((k * b) as nat) == k * r);
        lemma_gcd_scale(b, r, k);
    }
}

/// The gcd is symmetric.
pub proof fn lemma_gcd_comm(a: nat, b: nat)
    ensures
        gcd_nat(a, b) == gcd_nat(b, a),
{
    let (x1, y1) = lemma_gcd_divides(a, b);
    let (x2, y2) = lemma_gcd_divides(b, a);
    let g1 = gcd_nat(a, b);
    let g2 = gcd_nat(b, a);
    let z1 = lemma_gcd_greatest(b, a, g1, y1, x1);
    let z2 = lemma_gcd_greatest(a, b, g2, y2, x2);
    assert(g1 == g2) by (nonlinear_arith)
        requires
            g2 == g1 * z1,
            g1 == g2 * z2,
    ;
}

/// The gcd is positive as soon as one argument is.
pub proof fn lemma_gcd_pos(a: nat, b: nat)
    requires
        a > 0 || b > 0,
    ensures
        gcd_nat(a, b) > 0,
{
    let (x, y) = lemma_gcd_divides(a, b);
    if gcd_nat(a, b) == 0 {
        assert(a == 0 && b == 0) by (nonlinear_arith)
            requires
                a == gcd_nat(a, b) * x,
                b == gcd_nat(a, b) * y,
                gcd_nat(a, b) == 0,
        ;
    }
}

/// gcd(0, b) == b
pub proof fn lemma_gcd_zero_left(b: nat)
    ensures
        gcd_nat(0, b) == b,
{
    if b > 0 {
        assert(gcd_nat(0, b) == gcd_nat(b, 0nat % b));
        assert(0nat % b == 0);
    }
}

/// Euclid's lemma: if `d` divides `x * y` and is coprime to `x`, it divides `y`.
pub proof fn lemma_euclid(d: nat, x: nat, y: nat, k: nat) -> (z: nat)
    requires
        x * y == d * k,
        gcd_nat(d, x) == 1,
    ensures
        y == d * z,
{
    lemma_gcd_scale(d, x, y);
    assert(y * d == d * y && y * x == x * y) by (nonlinear_arith);
    assert(gcd_nat(d * y, x * y) == y) by (nonlinear_arith)
        requires
            gcd_nat(y * d, y * x) == y * gcd_nat(d, x),
            gcd_nat(d, x) == 1,
            y * d == d * y,
            y * x == x * y,
    ;
    lemma_gcd_greatest(d * y, x * y, d, y, k)
}

/// A fraction `n / d` with `d > 0` in lowest terms.
pub open spec fn reduced(n: int, d: int) -> bool {
    d > 0 && gcd_nat(abs_int(n) as nat, d as nat) == 1
}

proof fn lemma_abs_mul(a: int, b: int)
    ensures
        abs_int(a * b) == abs_int(a) * abs_int(b),
{
    assert(abs_int(a * b) == abs_int(a) * abs_int(b)) by (nonlinear_arith);
}

/// Two fractions in lowest terms that denote the same value are identical.
pub proof fn lemma_reduced_unique(a: int, b: int, c: int, d: int)
    requires
        reduced(a, b),
        reduced(c, d),
        a * d == c * b,
    ensures
        a == c,
        b == d,
{
    lemma_abs_mul(a, d);
    lemma_abs_mul(c, b);
    let aa = abs_int(a) as nat;
    let cc = abs_int(c) as nat;
    let bb = b as nat;
    let dd = d as nat;
    assert(aa * dd == cc * bb);
    // b divides |a| * d and is coprime to |a|
    lemma_gcd_comm(aa, bb);
    assert(aa * dd == bb * cc) by (nonlinear_arith) requires aa * dd == cc * bb;
    let z1 = lemma_euclid(bb, aa, dd, cc);
    lemma_gcd_comm(cc, dd);
    assert(cc * bb == dd * aa) by (nonlinear_arith) requires aa * dd == cc * bb;
    let z2 = lemma_euclid(dd, cc, bb, aa);
    assert(bb == dd) by (nonlinear_arith)
        requires
            dd == bb * z1,
            bb == dd * z2,
            bb > 0,
            dd > 0,
    ;
    assert(a == c) by (nonlinear_arith)
        requires
            a * d == c * b,
            b == d,
            b > 0,
    ;
}

/// Dividing numerator and denominator by their gcd yields a reduced fraction.
pub proof fn lemma_reduce(x: nat, y: nat) -> (r: (nat, nat))
    requires
        y > 0,
    ensures
        gcd_nat(x, y) > 0,
        x == gcd_nat(x, y) * r.0,
        y == gcd_nat(x, y) * r.1,
        r.1 > 0,
        gcd_nat(r.0, r.1) == 1,
{
    lemma_gcd_pos(x, y);
    let g = gcd_nat(x, y);
    let (kx, ky) = lemma_gcd_divides(x, y);
    lemma_gcd_scale(kx, ky, g);
    assert(gcd_nat(kx, ky) == 1) by (nonlinear_arith)
        requires
            g * gcd_nat(kx, ky) == g,
            g > 0,
    ;
    assert(ky > 0) by (nonlinear_arith) requires y == g * ky, y > 0;
    (kx, ky)
}

/// A fraction in lowest terms has the smallest numerator and denominator
/// of all fractions with its value.
pub proof fn lemma_reduced_minimal(a: int, b: int, x: int, y: int)
    requires
        reduced(a, b),
        y != 0,
        a * y == x * b,
    ensures
        abs_int(a) <= abs_int(x),
        b <= abs_int(y),
{
    let ax = abs_int(x) as nat;
    let ay = abs_int(y) as nat;
    let (kx, ky) = lemma_reduce(ax, ay);
    let g = gcd_nat(ax, ay);
    // (sign * kx, ky) is reduced and has the same value as a / b
    let s: int = sign_int(x) * sign_int(y);
    let c: int = s * kx;
    if x == 0 {
        assert(kx == 0) by (nonlinear_arith) requires ax == g * kx, ax == 0, g > 0;
    }
    assert(abs_int(c) == kx) by (nonlinear_arith)
        requires
            c == s * kx,
            s == sign_int(x) * sign_int(y),
            y != 0,
            x == 0 ==> kx == 0,
            kx >= 0,
    {
        if x == 0 {
        } else {
        }
    }
    assert(c * b == a * ky) by (nonlinear_arith)
        requires
            a * y == x * b,
            c == s * kx,
            s == sign_int(x) * sign_int(y),
            abs_int(x) == g * kx,
            abs_int(y) == g * ky,
            g > 0,
            y != 0,
    {
        if x < 0 && y < 0 {
        } else if x < 0 {
        } else if y < 0 {
        } else {
        }
    }
    lemma_reduced_unique(a, b, c, ky as int);
    assert(kx <= ax && ky <= ay) by (nonlinear_arith)
        requires
            ax == g * kx,
            ay == g * ky,
            g > 0,
    ;
}

/// The absolute value of a power is the power of the absolute value.
pub proof fn lemma_pow_abs(b: int, e: nat)
    ensures
        abs_int(pow(b, e)) == pow(abs_int(b), e),
    decreases e,
{
    reveal(pow);
    if e > 0 {
        lemma_pow_abs(b, (e - 1) as nat);
        lemma_abs_mul(b, pow(b, (e - 1) as nat));
    }
}

/// A power of a nonzero number is nonzero.
pub proof fn lemma_pow_nonzero(b: int, e: nat)
    requires
        b != 0,
    ensures
        pow(b, e) != 0,
{
    lemma_pow_abs(b, e);
    lemma_pow_positive(abs_int(b), e);
}

/// Powers grow in absolute value with the exponent, from exponent one on.
pub proof fn lemma_pow_abs_mono(b: int, k: nat, p: nat)
    requires
        1 <= k <= p,
    ensures
        abs_int(pow(b, k)) <= abs_int(pow(b, p)),
{
    lemma_pow_abs(b, k);
    lemma_pow_abs(b, p);
    if b == 0 {
        reveal(pow);
        assert(pow(0, k) == 0 * pow(0, (k - 1) as nat));
        assert(pow(0, p) == 0 * pow(0, (p - 1) as nat));
    } else {
        lemma_pow_increases(abs_int(b) as nat, k, p);
    }
}

} // verus!
