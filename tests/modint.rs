use templates::modint::{mint1000000007, qpow, ModInt};

#[test]
fn modint_test_qpow() {
    #[allow(non_camel_case_types)]
    type mint = ModInt<31>;
    let mut x: mint = 10.into();
    let y: mint = 12.into();
    assert_eq!(x + y, 22.into());
    assert_eq!(x * y, 27.into());
    assert_eq!(x - y, 29.into());
    assert_eq!(x.inv(), 28.into());
    assert_eq!(mint::new(10).pow(2), 7.into());
    x += y;
    assert_eq!(x, 22.into());
    let z: mint = 10_i64.into();
    let a = mint::new(1e16 as i64);
    assert_eq!(z, 10.into());
    assert_eq!(a, 10.into());
}

#[test]
fn modint_pow_scenario() {
    assert_eq!(ModInt::<31>::new(10).pow(2), ModInt::new(7));
    assert_eq!(ModInt::<31>::new(10).pow(2).to_i64(), 7);
}

#[test]
fn modint_pow_zero_is_one() {
    assert_eq!(ModInt::<31>::new(0).pow(0), ModInt::new(1));
    assert_eq!(ModInt::<1>::new(5).pow(0).to_i64(), 0);
}

#[test]
fn modint_pow_exponent_not_reduced() {
    assert_eq!(ModInt::<31>::new(5).pow(31), ModInt::new(5));
    assert_eq!(ModInt::<31>::new(5).pow(30), ModInt::new(1));
    assert_eq!(ModInt::<3>::new(2).pow(3), ModInt::new(2));
    assert_eq!(ModInt::<998244353>::new(3).pow(u64::MAX), ModInt::new(3).pow(u64::MAX % 998244352));
}

#[test]
fn modint_new_reduces_negatives() {
    assert_eq!(ModInt::<31>::new(-1).to_i64(), 30);
    assert_eq!(ModInt::<31>::new(-31).to_i64(), 0);
    assert_eq!(ModInt::<31>::new(-32).to_i64(), 30);
    assert_eq!(ModInt::<31>::new(i64::MIN).to_i64(), (i64::MIN % 31 + 31) % 31);
    assert_eq!(ModInt::<31>::new(i64::MAX).to_i64(), i64::MAX % 31);
    assert_eq!(ModInt::<0>::new(12345).to_i64(), 0);
}

#[test]
fn modint_ring_laws_on_values() {
    type M = ModInt<998244353>;
    let a = M::new(123456789);
    let b = M::new(987654321);
    let c = M::new(-5);
    assert_eq!((a + b) + c, a + (b + c));
    assert_eq!(a * (b + c), a * b + a * c);
    assert_eq!(a + (-a), M::new(0));
    assert_eq!(-M::new(0), M::new(0));
    assert_eq!(a * a.inv(), M::new(1));
    assert_eq!((a + b).to_i64(), (123456789 + 987654321) % 998244353);
}

#[test]
fn modint_wide_modulus_does_not_wrap() {
    type Big = ModInt<4611686018427387903>;
    let a = Big::new(4611686018427387902);
    assert_eq!(a * a, Big::new(1));
    assert_eq!(a + a, Big::new(4611686018427387901));
    type Huge = ModInt<18446744073709551557>;
    let h = Huge::new(-1);
    assert_eq!(h * h, Huge::new(1));
    assert_eq!(h + h, Huge::new(-2));
    assert_eq!(h - h, Huge::new(0));
}

#[test]
fn modint_compound_assignment() {
    let mut x = mint1000000007::new(1_000_000_006);
    x += mint1000000007::new(2);
    assert_eq!(x, mint1000000007::new(1));
    x -= mint1000000007::new(3);
    assert_eq!(x.to_i64(), 1_000_000_005);
    x *= mint1000000007::new(2);
    assert_eq!(x.to_i64(), 1_000_000_003);
}

#[test]
fn modint_ordering_and_default() {
    assert!(ModInt::<31>::new(3) < ModInt::<31>::new(30));
    assert!(ModInt::<31>::new(33) < ModInt::<31>::new(3));
    assert_eq!(ModInt::<31>::default(), ModInt::new(0));
}

#[test]
fn modint_free_qpow() {
    assert_eq!(qpow(10, 2, 31), 7);
    assert_eq!(qpow(3, 0, 1), 1);
    assert_eq!(qpow(2_000_000_000, 2, 2_147_483_647), 211_137_950);
}

#[test]
fn modint_to_string() {
    assert_eq!(ModInt::<31>::new(-1).to_string(), "30");
    assert_eq!(ModInt::<31>::new(62).to_string(), "0");
    assert_eq!(mint1000000007::new(-1).to_string(), "1000000006");
}

#[test]
fn modint_free_qpow_negative_base() {
    assert_eq!(qpow(-3, 3, 7), -6);
    assert_eq!(qpow(-3, 2, 7), 2);
    assert_eq!(qpow(i32::MIN, 1, 10), -8);
}
