use templates::ratio::{gcd, simplify, Ratio};

#[test]
fn test_ratio() {
    type Ratio64 = Ratio;
    let x = Ratio64::new(3, 4);
    let y = Ratio64::new(4, 5);
    assert_eq!(x + y, Ratio64::new(31, 20));
    assert_eq!(x - y, Ratio64::new(-1, 20));
    assert_eq!(x * y, Ratio64::new(3, 5));
    assert_eq!(x + 2.into(), Ratio64::new(11, 4));
    assert_eq!(x / y, Ratio64::new(15, 16));
    assert_eq!(x / 2.into(), Ratio64::new(3, 8));
    assert_eq!(-x, Ratio64::new(-3, 4));
    assert!(x < y);
}

#[test]
fn ratio_canonical_form() {
    assert_eq!(Ratio::new(6, -4), Ratio::new(-3, 2));
    assert_eq!(Ratio::new(-6, -4), Ratio::new(3, 2));
    assert_eq!(Ratio::new(0, -7), Ratio::new(0, 1));
    assert_eq!(Ratio::new(0, 5), Ratio::default());
    assert_eq!(Ratio::new(i64::MIN, 2), Ratio::new(i64::MIN / 2, 1));
    assert_eq!(Ratio::new(4, i64::MIN), Ratio::new(-1, -(i64::MIN / 4)));
}

#[test]
fn ratio_round_trip() {
    let a = Ratio::new(-7, 9);
    let b = Ratio::new(5, -3);
    assert_eq!((a / b) * b, a);
    let mut c = a;
    c /= b;
    c *= b;
    assert_eq!(c, a);
    c += b;
    c -= b;
    assert_eq!(c, a);
}

#[test]
fn ratio_ordering() {
    assert!(Ratio::new(3, 4) < Ratio::new(4, 5));
    assert!(Ratio::new(-1, 2) < Ratio::new(-1, 3));
    assert!(Ratio::new(2, 4) <= Ratio::new(1, 2));
    assert!(Ratio::new(i64::MAX, 1) > Ratio::new(i64::MAX - 1, 1));
}

#[test]
fn ratio_wide_intermediates() {
    let big = Ratio::new(i64::MAX, 2);
    assert_eq!(big - big, Ratio::new(0, 1));
    assert_eq!(big / big, Ratio::new(1, 1));
}

#[test]
fn ratio_gcd_and_simplify() {
    assert_eq!(gcd(12, 18), 6);
    assert_eq!(gcd(-12, 18), 6);
    assert_eq!(gcd(0, -5), -5);
    assert_eq!(gcd(-4, 0), -4);
    assert_eq!(gcd(-12, -18), -6);
    assert_eq!(gcd(i64::MIN, 0), i64::MIN);
    assert_eq!(gcd(i64::MIN, -1), -1);
    assert_eq!(gcd(0, 0), 0);
    assert_eq!(simplify(0, 9), (0, 1));
    assert_eq!(simplify(6, -4), (3, -2));
    assert_eq!(simplify(-10, 4), (5, -2));
    assert_eq!(simplify(i64::MIN, 2), (i64::MIN / 2, 1));
}

#[test]
fn ratio_to_string() {
    assert_eq!(Ratio::new(-6, 4).to_string(), "-3/2");
    assert_eq!(Ratio::new(10, -20).to_string(), "-1/2");
    assert_eq!(Ratio::new(0, 5).to_string(), "0/1");
    assert_eq!(Ratio::new(i64::MIN, 1).to_string(), "-9223372036854775808/1");
    assert_eq!(Ratio::new(1, i64::MAX).to_string(), "1/9223372036854775807");
}

#[test]
fn ratio_addition_laws() {
    let a = Ratio::new(-7, 9);
    let b = Ratio::new(5, 6);
    let c = Ratio::new(1, -4);
    assert_eq!(a + b, b + a);
    assert_eq!((a + b) + c, a + (b + c));
    assert_eq!(a + Ratio::default(), a);
    assert_eq!(a + (-a), Ratio::default());
    assert_eq!(-(-a), a);
}
