//! Algebraic laws of the rational numbers, stated over the contracts of
//! their operations.
use vstd::prelude::*;
use vstd::arithmetic::power::{pow, lemma_pow_adds, lemma_pow0};
use vstd::arithmetic::mul::group_mul_properties;
use crate::arith::{gcd_nat, lemma_reduced_unique};
use crate::rational::{Rational, is_powi, pow_base_num, pow_base_den, lemma_denotes_mul};

verus! {

/// Two normalized rationals that denote the same fraction are equal.
pub proof fn lemma_same_value(r1: Rational, r2: Rational, x: int, y: int)
    requires
        r1.wf(),
        r2.wf(),
        r1.denotes(x, y),
        r2.denotes(x, y),
        y != 0,
    ensures
        r1 == r2,
{
    let (a, b, c, d) = (r1.n(), r1.d(), r2.n(), r2.d());
    assert(a * d * y == c * b * y) by (nonlinear_arith)
        requires
            a * y == x * b,
            c * y == x * d,
    ;
    assert(a * d == c * b) by (nonlinear_arith)
        requires
            a * d * y == c * b * y,
            y != 0,
    ;
    Rational::lemma_normal_form_unique(r1, r2);
}

/// Denoting a fraction is preserved by scaling it.
pub proof fn lemma_denotes_scale(r: Rational, x: int, y: int, k: int)
    requires
        r.denotes(x, y),
    ensures
        r.denotes(k * x, k * y),
{
    assert(r.n() * (k * y) == (k * x) * r.d()) by (nonlinear_arith)
        requires r.n() * y == x * r.d();
}

/// Adding fractions respects the value they denote.
pub proof fn lemma_denotes_add(r: Rational, s: Rational, c: Rational, p: int, q: int)
    requires
        r.denotes(s.n() * c.d() + s.d() * c.n(), s.d() * c.d()),
        s.denotes(p, q),
        s.d() != 0,
    ensures
        r.denotes(p * c.d() + q * c.n(), q * c.d()),
{
    let (rn, rd, sn, sd, cn, cd) = (r.n(), r.d(), s.n(), s.d(), c.n(), c.d());
    assert(rn * (q * cd) * sd == (p * cd + q * cn) * rd * sd) by (nonlinear_arith)
        requires
            rn * (sd * cd) == (sn * cd + sd * cn) * rd,
            sn * q == p * sd,
    {
        assert(rn * (q * cd) * sd == q * (rn * (sd * cd))) by (nonlinear_arith);
        assert((p * cd + q * cn) * rd * sd == (p * sd * cd + q * cn * sd) * rd) by (nonlinear_arith);
        assert(p * sd * cd == sn * q * cd) by (nonlinear_arith) requires sn * q == p * sd;
        assert(q * ((sn * cd + sd * cn) * rd) == (sn * q * cd + q * cn * sd) * rd) by {
        broadcast use group_mul_properties;
    }
    }
    assert(rn * (q * cd) == (p * cd + q * cn) * rd) by (nonlinear_arith)
        requires
            rn * (q * cd) * sd == (p * cd + q * cn) * rd * sd,
            sd != 0,
    ;
}

/// Addition is commutative: `a + b == b + a`.
pub proof fn law_add_commutative(a: Rational, b: Rational, r1: Rational, r2: Rational)
    requires
        a.d() != 0,
        b.d() != 0,
        r1.is_sum(a, b),
        r2.is_sum(b, a),
    ensures
        r1 == r2,
{
    assert(b.d() * a.d() == a.d() * b.d()) by (nonlinear_arith);
    assert(b.n() * a.d() + b.d() * a.n() == a.n() * b.d() + a.d() * b.n()) by (nonlinear_arith);
    assert(a.d() * b.d() != 0) by (nonlinear_arith) requires a.d() != 0, b.d() != 0;
    lemma_same_value(r1, r2, a.n() * b.d() + a.d() * b.n(), a.d() * b.d());
}

/// Addition is associative: `(a + b) + c == a + (b + c)`.
pub proof fn law_add_associative(
    a: Rational,
    b: Rational,
    c: Rational,
    ab: Rational,
    bc: Rational,
    r1: Rational,
    r2: Rational,
)
    requires
        a.d() != 0,
        b.d() != 0,
        c.d() != 0,
        ab.is_sum(a, b),
        r1.is_sum(ab, c),
        bc.is_sum(b, c),
        r2.is_sum(a, bc),
    ensures
        r1 == r2,
{
    let (an, ad, bn, bd, cn, cd) = (a.n(), a.d(), b.n(), b.d(), c.n(), c.d());
    assert(ad * bd != 0 && bd * cd != 0 && ad * bd * cd != 0) by (nonlinear_arith)
        requires ad != 0, bd != 0, cd != 0;
    // both denote (a.n b.d c.d + a.d b.n c.d + a.d b.d c.n) / (a.d b.d c.d)
    assert(ab.d() != 0);
    lemma_denotes_add(r1, ab, c, an * bd + ad * bn, ad * bd);
    assert(bc.d() != 0);
    // r2 = a + bc, with bc denoting (bn cd + bd cn) / (bd cd)
    let p = bn * cd + bd * cn;
    let q = bd * cd;
    let (rn, rd, xn, xd) = (r2.n(), r2.d(), bc.n(), bc.d());
    assert(rn * (ad * q) == (an * q + ad * p) * rd) by (nonlinear_arith)
        requires
            rn * (ad * xd) == (an * xd + ad * xn) * rd,
            xn * q == p * xd,
            xd != 0,
    {
        assert(rn * (ad * q) * xd == (an * q + ad * p) * rd * xd) by (nonlinear_arith)
            requires
                rn * (ad * xd) == (an * xd + ad * xn) * rd,
                xn * q == p * xd,
        {
            assert(rn * (ad * q) * xd == q * (rn * (ad * xd))) by (nonlinear_arith);
            assert(q * ((an * xd + ad * xn) * rd) == (an * q * xd + ad * (xn * q)) * rd) by {
        broadcast use group_mul_properties;
    }
            assert((an * q + ad * p) * rd * xd == (an * q * xd + ad * (p * xd)) * rd) by (nonlinear_arith);
        }
    }
    assert((an * bd + ad * bn) * cd + ad * bd * cn == an * (bd * cd) + ad * (bn * cd + bd * cn)) by {
        broadcast use group_mul_properties;
    }
    assert(ad * bd * cd == ad * (bd * cd)) by (nonlinear_arith);
    lemma_same_value(r1, r2, (an * bd + ad * bn) * cd + ad * bd * cn, ad * bd * cd);
}

/// Zero is neutral for addition: `a + 0 == a` for a normalized `a`.
pub proof fn law_add_zero(a: Rational, z: Rational, r: Rational)
    requires
        a.wf(),
        z.n() == 0,
        z.d() == 1,
        r.is_sum(a, z),
    ensures
        r == a,
{
    assert(a.n() * 1 + a.d() * 0 == a.n() && a.d() * 1 == a.d()) by (nonlinear_arith);
    assert(a.denotes(a.n(), a.d()));
    lemma_same_value(r, a, a.n(), a.d());
}

/// A number minus itself is zero.
pub proof fn law_sub_self(a: Rational, r: Rational)
    requires
        a.d() != 0,
        r.is_difference(a, a),
    ensures
        r.n() == 0,
        r.d() == 1,
{
    assert(a.n() * a.d() - a.d() * a.n() == 0) by (nonlinear_arith);
    assert(a.d() * a.d() != 0) by (nonlinear_arith) requires a.d() != 0;
    assert(r.n() == 0) by (nonlinear_arith)
        requires
            r.n() * (a.d() * a.d()) == 0 * r.d(),
            a.d() * a.d() != 0,
    ;
    assert(gcd_nat(0, r.d() as nat) == r.d()) by {
        crate::arith::lemma_gcd_zero_left(r.d() as nat);
    }
}

/// Multiplication is commutative: `a * b == b * a`.
pub proof fn law_mul_commutative(a: Rational, b: Rational, r1: Rational, r2: Rational)
    requires
        a.d() != 0,
        b.d() != 0,
        r1.is_product(a, b),
        r2.is_product(b, a),
    ensures
        r1 == r2,
{
    assert(b.n() * a.n() == a.n() * b.n() && b.d() * a.d() == a.d() * b.d()) by (nonlinear_arith);
    assert(a.d() * b.d() != 0) by (nonlinear_arith) requires a.d() != 0, b.d() != 0;
    lemma_same_value(r1, r2, a.n() * b.n(), a.d() * b.d());
}

/// Multiplication is associative: `(a * b) * c == a * (b * c)`.
pub proof fn law_mul_associative(
    a: Rational,
    b: Rational,
    c: Rational,
    ab: Rational,
    bc: Rational,
    r1: Rational,
    r2: Rational,
)
    requires
        a.d() != 0,
        b.d() != 0,
        c.d() != 0,
        ab.is_product(a, b),
        r1.is_product(ab, c),
        bc.is_product(b, c),
        r2.is_product(a, bc),
    ensures
        r1 == r2,
{
    let (an, ad, bn, bd, cn, cd) = (a.n(), a.d(), b.n(), b.d(), c.n(), c.d());
    assert(ad * bd != 0 && bd * cd != 0) by (nonlinear_arith) requires ad != 0, bd != 0, cd != 0;
    assert(c.denotes(cn, cd));
    assert(a.denotes(an, ad));
    lemma_denotes_mul(r1, ab, c, an * bn, ad * bd, cn, cd);
    lemma_denotes_mul(r2, a, bc, an, ad, bn * cn, bd * cd);
    assert(an * bn * cn == an * (bn * cn) && ad * bd * cd == ad * (bd * cd)) by (nonlinear_arith);
    assert(ad * bd * cd != 0) by (nonlinear_arith) requires ad != 0, bd != 0, cd != 0;
    lemma_same_value(r1, r2, an * bn * cn, ad * bd * cd);
}

/// One is neutral for multiplication: `a * 1 == a` for a normalized `a`.
pub proof fn law_mul_one(a: Rational, one: Rational, r: Rational)
    requires
        a.wf(),
        one.n() == 1,
        one.d() == 1,
        r.is_product(a, one),
    ensures
        r == a,
{
    assert(a.n() * 1 == a.n() && a.d() * 1 == a.d()) by (nonlinear_arith);
    assert(a.denotes(a.n(), a.d()));
    lemma_same_value(r, a, a.n(), a.d());
}

/// Dividing and multiplying back gives the number again: `(a / b) * b == a`.
pub proof fn law_div_mul_inverse(a: Rational, b: Rational, q: Rational, r: Rational)
    requires
        a.wf(),
        b.d() != 0,
        b.n() != 0,
        a.d() != 0,
        q.is_quotient(a, b),
        r.is_product(q, b),
    ensures
        r == a,
{
    let (an, ad, bn, bd) = (a.n(), a.d(), b.n(), b.d());
    assert(q.d() != 0);
    assert(b.denotes(bn, bd));
    lemma_denotes_mul(r, q, b, an * bd, ad * bn, bn, bd);
    // r denotes (an bd bn) / (ad bn bd), the same as an / ad
    assert(bn * bd != 0) by (nonlinear_arith) requires bn != 0, bd != 0;
    assert(r.n() * ad == an * r.d()) by (nonlinear_arith)
        requires
            r.n() * (ad * bn * bd) == an * bd * bn * r.d(),
            bn * bd != 0,
    {
        assert(r.n() * ad * (bn * bd) == an * r.d() * (bn * bd)) by (nonlinear_arith)
            requires r.n() * (ad * bn * bd) == an * bd * bn * r.d();
    }
    assert(a.denotes(an, ad));
    lemma_same_value(r, a, an, ad);
}

/// `less` is irreflexive.
pub proof fn law_less_irreflexive(a: Rational)
    ensures
        !a.less(a),
{
}

/// `less` is transitive on rationals with positive denominators.
pub proof fn law_less_transitive(a: Rational, b: Rational, c: Rational)
    requires
        a.d() > 0,
        b.d() > 0,
        c.d() > 0,
        a.less(b),
        b.less(c),
    ensures
        a.less(c),
{
    let (an, ad, bn, bd, cn, cd) = (a.n(), a.d(), b.n(), b.d(), c.n(), c.d());
    assert(an * bd * cd < bn * ad * cd) by (nonlinear_arith) requires an * bd < bn * ad, cd > 0;
    assert(bn * cd * ad < cn * bd * ad) by (nonlinear_arith) requires bn * cd < cn * bd, ad > 0;
    assert(an * cd * bd < cn * ad * bd) by (nonlinear_arith)
        requires
            an * bd * cd < bn * ad * cd,
            bn * cd * ad < cn * bd * ad,
    ;
    assert(an * cd < cn * ad) by (nonlinear_arith) requires an * cd * bd < cn * ad * bd, bd > 0;
}

/// Normalized rationals are totally ordered by `less`: exactly one of
/// `a < b`, `a == b`, `b < a` holds.
pub proof fn law_less_trichotomy(a: Rational, b: Rational)
    requires
        a.wf(),
        b.wf(),
    ensures
        a.less(b) || a == b || b.less(a),
        !(a.less(b) && b.less(a)),
        a.less(b) ==> a != b,
{
    if !a.less(b) && !b.less(a) {
        Rational::lemma_normal_form_unique(a, b);
    }
}

/// Scaling numerator and denominator by the same nonzero factor does not
/// change the normalized rational: `new(k * x, k * y) == new(x, y)`.
pub proof fn law_new_scaling(r1: Rational, r2: Rational, x: int, y: int, k: int)
    requires
        y != 0,
        k != 0,
        r1.wf(),
        r1.denotes(x, y),
        r2.wf(),
        r2.denotes(k * x, k * y),
    ensures
        r1 == r2,
{
    lemma_denotes_scale(r1, x, y, k);
    assert(k * y != 0) by (nonlinear_arith) requires k != 0, y != 0;
    lemma_same_value(r1, r2, k * x, k * y);
}

/// The part of an integer exponent above zero.
pub open spec fn exponent_above(k: int) -> nat {
    if k > 0 { k as nat } else { 0 }
}

/// The part of an integer exponent below zero, as a natural number.
pub open spec fn exponent_below(k: int) -> nat {
    if k < 0 { (-k) as nat } else { 0 }
}

/// Numerator of `x ^ k` before reduction, for any integer `k`:
/// `n ^ max(k, 0) * d ^ max(-k, 0)` where `x == n / d`.
pub open spec fn power_num(x: Rational, k: int) -> int {
    pow(x.n(), exponent_above(k)) * pow(x.d(), exponent_below(k))
}

/// Denominator of `x ^ k` before reduction, for any integer `k`.
pub open spec fn power_den(x: Rational, k: int) -> int {
    pow(x.d(), exponent_above(k)) * pow(x.n(), exponent_below(k))
}

/// A power denotes the fraction `power_num / power_den`, whatever the sign
/// of its exponent.
pub proof fn lemma_powi_fraction(r: Rational, x: Rational, k: int)
    requires
        is_powi(r, x, k),
    ensures
        r.wf(),
        r.denotes(power_num(x, k), power_den(x, k)),
{
    lemma_pow0(x.n());
    lemma_pow0(x.d());
    if k > 0 {
        assert(power_num(x, k) == pow(x.n(), k as nat));
        assert(power_den(x, k) == pow(x.d(), k as nat));
    } else if k < 0 {
        assert(power_num(x, k) == pow(x.d(), (-k) as nat));
        assert(power_den(x, k) == pow(x.n(), (-k) as nat));
    } else {
        assert(power_num(x, k) == 1);
        assert(power_den(x, k) == 1);
    }
}

/// The unreduced denominator of `x ^ k` is nonzero when `x` is nonzero or
/// the exponent is natural.
pub proof fn lemma_power_den_nonzero(x: Rational, k: int)
    requires
        x.wf(),
        x.n() != 0 || k >= 0,
    ensures
        power_den(x, k) != 0,
{
    lemma_pow0(x.n());
    crate::arith::lemma_pow_nonzero(x.d(), exponent_above(k));
    if x.n() != 0 {
        crate::arith::lemma_pow_nonzero(x.n(), exponent_below(k));
    }
    let p = pow(x.d(), exponent_above(k));
    let q = pow(x.n(), exponent_below(k));
    assert(p * q != 0) by (nonlinear_arith) requires p != 0, q != 0;
}

/// Regrouping of a product of two products, where each pair of factors
/// is known to multiply to `c_i * t_i`.
proof fn lemma_regroup(a1: int, a2: int, b1: int, b2: int, c1: int, c2: int, t1: int, t2: int)
    requires
        a1 * b1 == c1 * t1,
        a2 * b2 == c2 * t2,
    ensures
        (a1 * a2) * (b1 * b2) == (t1 * t2) * (c1 * c2),
{
    assert((a1 * a2) * (b1 * b2) == (a1 * b1) * (a2 * b2)) by (nonlinear_arith);
    assert((c1 * t1) * (c2 * t2) == (t1 * t2) * (c1 * c2)) by (nonlinear_arith);
}

/// Integer powers multiply by adding their exponents:
/// `x ^ a * x ^ b == x ^ (a + b)`, for every nonzero `x` and any exponents,
/// and for `x == 0` with natural exponents.
pub proof fn law_powi_add(x: Rational, a: int, b: int, r1: Rational, r2: Rational, r3: Rational, r: Rational)
    requires
        x.wf(),
        x.n() != 0 || (a >= 0 && b >= 0),
        is_powi(r1, x, a),
        is_powi(r2, x, b),
        is_powi(r3, x, a + b),
        r.is_product(r1, r2),
    ensures
        r == r3,
{
    let (n, d) = (x.n(), x.d());
    lemma_powi_fraction(r1, x, a);
    lemma_powi_fraction(r2, x, b);
    lemma_powi_fraction(r3, x, a + b);
    lemma_power_den_nonzero(x, a);
    lemma_power_den_nonzero(x, b);
    let (ap, am) = (exponent_above(a), exponent_below(a));
    let (bp, bm) = (exponent_above(b), exponent_below(b));
    let (cp, cm) = (exponent_above(a + b), exponent_below(a + b));
    let t: nat = (ap + bp - cp) as nat;
    assert(ap + bp == cp + t && am + bm == cm + t);
    lemma_pow_adds(n, ap, bp);
    lemma_pow_adds(n, cp, t);
    lemma_pow_adds(d, am, bm);
    lemma_pow_adds(d, cm, t);
    lemma_pow_adds(d, ap, bp);
    lemma_pow_adds(d, cp, t);
    lemma_pow_adds(n, am, bm);
    lemma_pow_adds(n, cm, t);
    let k = pow(n, t) * pow(d, t);
    let (na, nb, nc) = (power_num(x, a), power_num(x, b), power_num(x, a + b));
    let (da, db, dc) = (power_den(x, a), power_den(x, b), power_den(x, a + b));
    lemma_regroup(pow(n, ap), pow(d, am), pow(n, bp), pow(d, bm), pow(n, cp), pow(d, cm), pow(n, t), pow(d, t));
    lemma_regroup(pow(d, ap), pow(n, am), pow(d, bp), pow(n, bm), pow(d, cp), pow(n, cm), pow(d, t), pow(n, t));
    assert(pow(d, t) * pow(n, t) == k) by (nonlinear_arith) requires k == pow(n, t) * pow(d, t);
    assert(da * db != 0) by (nonlinear_arith) requires da != 0, db != 0;
    assert(r1.d() != 0 && r2.d() != 0);
    lemma_denotes_mul(r, r1, r2, na, da, nb, db);
    lemma_denotes_scale(r3, nc, dc, k);
    lemma_same_value(r, r3, na * nb, da * db);
}

/// A nonzero rational times its power with the opposite exponent is one:
/// `x ^ -a * x ^ a == 1`.
pub proof fn law_powi_inverse(x: Rational, a: int, r1: Rational, r2: Rational, r: Rational)
    requires
        x.wf(),
        x.n() != 0,
        is_powi(r1, x, -a),
        is_powi(r2, x, a),
        r.is_product(r1, r2),
    ensures
        r.n() == 1,
        r.d() == 1,
{
    let (n, d) = (x.n(), x.d());
    lemma_powi_fraction(r1, x, -a);
    lemma_powi_fraction(r2, x, a);
    lemma_power_den_nonzero(x, -a);
    lemma_power_den_nonzero(x, a);
    let (p, m) = (exponent_above(a), exponent_below(a));
    assert(exponent_above(-a) == m && exponent_below(-a) == p);
    let (n1, d1, n2, d2) = (power_num(x, -a), power_den(x, -a), power_num(x, a), power_den(x, a));
    assert(n1 * n2 == d1 * d2) by (nonlinear_arith)
        requires
            n1 == pow(n, m) * pow(d, p),
            d1 == pow(d, m) * pow(n, p),
            n2 == pow(n, p) * pow(d, m),
            d2 == pow(d, p) * pow(n, m),
    ;
    assert(d1 * d2 != 0) by (nonlinear_arith) requires d1 != 0, d2 != 0;
    assert(r1.d() != 0 && r2.d() != 0);
    lemma_denotes_mul(r, r1, r2, n1, d1, n2, d2);
    assert(r.n() == r.d()) by (nonlinear_arith)
        requires r.n() * (d1 * d2) == (n1 * n2) * r.d(), n1 * n2 == d1 * d2, d1 * d2 != 0;
    assert(gcd_nat(1, 1) == gcd_nat(1, 0));
    lemma_reduced_unique(r.n(), r.d(), 1, 1);
}

/// A nonzero rational times its reciprocal is one: `x.recip() * x == 1`.
pub proof fn law_recip_mul(x: Rational, r: Rational, p: Rational)
    requires
        x.wf(),
        x.n() != 0,
        r.wf(),
        r.denotes(x.d(), x.n()),
        p.is_product(r, x),
    ensures
        p.n() == 1,
        p.d() == 1,
{
    let (n, d) = (x.n(), x.d());
    assert(r.d() != 0);
    assert(x.denotes(n, d));
    lemma_denotes_mul(p, r, x, d, n, n, d);
    assert(d * n != 0) by (nonlinear_arith) requires d > 0, n != 0;
    assert(p.n() == p.d()) by (nonlinear_arith)
        requires p.n() * (n * d) == (d * n) * p.d(), d * n != 0;
    assert(gcd_nat(1, 1) == gcd_nat(1, 0));
    lemma_reduced_unique(p.n(), p.d(), 1, 1);
}

/// The first power of a normalized rational is itself.
pub proof fn law_powi_one(x: Rational, r: Rational)
    requires
        x.wf(),
        is_powi(r, x, 1),
    ensures
        r == x,
{
    lemma_powi_fraction(r, x, 1);
    lemma_pow0(x.n());
    lemma_pow0(x.d());
    vstd::arithmetic::power::lemma_pow1(x.n());
    vstd::arithmetic::power::lemma_pow1(x.d());
    assert(power_num(x, 1) == x.n() && power_den(x, 1) == x.d());
    assert(x.denotes(x.n(), x.d()));
    assert(x.d() != 0);
    lemma_same_value(r, x, x.n(), x.d());
}

/// A power with exponent zero is one.
pub proof fn law_powi_zero(x: Rational, r: Rational)
    requires
        is_powi(r, x, 0),
    ensures
        r.n() == 1,
        r.d() == 1,
{
    lemma_pow0(pow_base_num(x, 0));
    lemma_pow0(pow_base_den(x, 0));
    assert(gcd_nat(1, 1) == gcd_nat(1, 0));
    lemma_reduced_unique(r.n(), r.d(), 1, 1);
}

} // verus!
