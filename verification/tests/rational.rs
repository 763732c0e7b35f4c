use syntxt::rational::{gcd, ParseRationalError, Rational, RationalErrorKind};

#[test]
fn new_normalizes() {
    assert_eq!(Rational::new(10, 5), Rational::new(2, 1));
    assert_eq!(Rational::new(-10, -5), Rational::new(6, 3));
    assert_eq!(Rational::new(-6, 8), Rational::new(3, -4));
    assert_eq!(Rational::new(-6, 8).numerator(), -3);
    assert_eq!(Rational::new(-6, 8).denominator(), 4);
}

#[test]
fn powers() {
    let two = Rational::integer(2);
    assert_eq!(two.powi(0), Rational::integer(1));
    assert_eq!(two.powi(1), Rational::integer(2));
    assert_eq!(two.powi(2), Rational::integer(4));
    assert_eq!(two.powi(3), Rational::integer(8));
    assert_eq!(two.powi(5), Rational::integer(32));
    assert_eq!(two.powi(10), Rational::integer(1024));
    assert_eq!(two.powi(11), Rational::integer(2048));
    assert_eq!(two.powi(-1), Rational::new(1, 2));
    assert_eq!(two.powi(-2), Rational::new(1, 4));
    assert_eq!(two.powi(-3), Rational::new(1, 8));
    assert_eq!(two.powi(-9), Rational::new(1, 512));
}

#[test]
fn truncation() {
    assert_eq!(Rational::new(10, 5).truncate(), 2);
    assert_eq!(Rational::new(-10, 6).truncate(), -1);
    assert_eq!(Rational::new(13, 7).truncate(), 1);
    assert_eq!(Rational::integer(i64::MIN).truncate(), i64::MIN);
}

#[test]
fn rounding() {
    assert_eq!(Rational::new(10, 5).round(), 2);
    assert_eq!(Rational::new(-10, 5).round(), -2);
    assert_eq!(Rational::new(10, 4).round(), 3);
    assert_eq!(Rational::new(-10, 4).round(), -3);
    assert_eq!(Rational::new(3, 7).round(), 0);
    assert_eq!(Rational::new(4, 7).round(), 1);
    assert_eq!(Rational::new(-3, 7).round(), 0);
    assert_eq!(Rational::new(-4, 7).round(), -1);
}

#[test]
fn sums() {
    assert_eq!(Rational::new(1, 2).add(Rational::new(3, 4)), Rational::new(5, 4));
    assert_eq!(Rational::new(3, 4).add(Rational::new(3, 4)), Rational::new(3, 2));
    assert_eq!(Rational::new(3, 4).add(Rational::new(-5, 8)), Rational::new(1, 8));
    assert_eq!(Rational::new(3, 4).sub(Rational::new(5, 8)), Rational::new(1, 8));
}

#[test]
fn products_and_quotients() {
    assert_eq!(Rational::new(2, 3).mul(Rational::new(9, 4)), Rational::new(3, 2));
    assert_eq!(Rational::new(2, 3).div(Rational::new(4, 9)), Rational::new(3, 2));
    assert_eq!(Rational::new(1, 4).div_int(2), Rational::new(1, 8));
    assert_eq!(Rational::new(9, 13).div_int(3), Rational::new(3, 13));
    assert_eq!(Rational::new(3, 4).mul_int(2), Rational::new(3, 2));
}

#[test]
fn remainders() {
    assert_eq!(Rational::new(5, 1).rem(Rational::new(3, 1)), Rational::new(2, 1));
    assert_eq!(Rational::new(-5, 1).rem(Rational::new(3, 1)), Rational::new(-2, 1));
    assert_eq!(Rational::new(7, 3).rem(Rational::new(1, 4)), Rational::new(1, 12));
    assert_eq!(Rational::new(-7, 3).rem(Rational::new(1, 4)), Rational::new(-1, 12));
}

#[test]
fn ordering() {
    assert!(Rational::new(3, 4) < Rational::new(3, 2));
    assert!(!(Rational::new(3, 2) < Rational::new(3, 4)));
    assert_eq!(Rational::new(3, 4).max(Rational::new(3, 2)), Rational::new(3, 2));
}

#[test]
fn gcds() {
    assert_eq!(gcd(20, 15), 5);
    assert_eq!(gcd(20, 19), 1);
    assert_eq!(gcd(10, 0), 10);
    assert_eq!(gcd(0, 10), 10);
    assert_eq!(gcd(0, 0), 0);
    assert_eq!(gcd(10, -10), 10);
}

#[test]
fn small_values() {
    assert!(Rational::zero().is_zero());
    assert!(!Rational::one().is_zero());
    assert_eq!(Rational::nth(4), Rational::new(1, 4));
    assert_eq!(Rational::new(3, 4).recip(), Rational::new(4, 3));
    assert_eq!(Rational::new(-1, 2).recip(), Rational::integer(-2));
    assert_eq!(Rational::new(-1, 2).recip().denominator(), 1);
    assert_eq!(Rational::new(3, 4).neg(), Rational::new(-3, 4));
}

#[test]
fn checked_arithmetic() {
    assert_eq!(Rational::new(1, 2).checked_add(Rational::new(1, 3)), Some(Rational::new(5, 6)));
    assert_eq!(Rational::integer(i64::MAX).checked_add(Rational::one()), None);
    assert_eq!(Rational::integer(2).checked_powi(62), Some(Rational::integer(1 << 62)));
    assert_eq!(Rational::integer(2).checked_powi(63), None);
    assert_eq!(Rational::integer(1 << 32).checked_mul(Rational::integer(1 << 32)), None);
}

#[test]
fn printing() {
    assert_eq!(Rational::new(-6, 8).to_string(), "-3/4");
    assert_eq!(Rational::new(6, 3).to_string(), "2");
}

#[test]
fn parsing() {
    assert_eq!(Rational::from_str("-6/8"), Ok(Rational::new(-3, 4)));
    assert_eq!(Rational::from_str("7"), Ok(Rational::integer(7)));
    let kind = |s: &str| Rational::from_str(s).unwrap_err().kind();
    assert_eq!(kind("1/0"), RationalErrorKind::Zero);
    assert_eq!(kind("x/2"), RationalErrorKind::InvalidInt);
    assert_eq!(kind("1/2/3"), RationalErrorKind::Malformed);
    let e: ParseRationalError = Rational::from_str("1/0").unwrap_err();
    assert_eq!(e.to_string(), "denominator is zero");
}

#[test]
fn printing_and_parsing_round_trip() {
    for (n, d) in [(1, 2), (-3, 4), (6, 3), (0, 5), (12, -18), (i64::MAX, 7)] {
        let r = Rational::new(n, d);
        assert_eq!(Rational::from_str(&r.to_string()), Ok(r));
    }
}

#[test]
fn powers_add_their_exponents() {
    let x = Rational::new(-2, 3);
    assert_eq!(x.powi(3).mul(x.powi(-1)), x.powi(2));
    assert_eq!(x.powi(-2).mul(x.powi(2)), Rational::integer(1));
    assert_eq!(x.powi(-3).mul(x.powi(1)), x.powi(-2));
    assert_eq!(x.powi(1), x);
    assert_eq!(x.powi(-1), Rational::new(-3, 2));
    assert_eq!(x.powi(-1).denominator(), 2);
}

#[test]
fn reciprocal_times_value_is_one() {
    let x = Rational::new(-3, 7);
    assert_eq!(x.recip().mul(x), Rational::one());
    assert_eq!(Rational::new(5, 2).recip().mul(Rational::new(5, 2)), Rational::one());
}
