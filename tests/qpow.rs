use templates::qpow::qpow;

#[test]
fn qpow_test_qpow() {
    let result = qpow(2, 3, 5);
    assert_eq!(result, 3);

    let result = qpow(5, 0, 10);
    assert_eq!(result, 1);
}

#[test]
fn qpow_large_modulus() {
    let p: i64 = 1_000_000_007;
    assert_eq!(qpow(2, 30, p), 73_741_817);
    assert_eq!(qpow(p - 1, 2, p), 1);
    assert_eq!(qpow(i64::MAX - 1, 2, i64::MAX), 1);
}

#[test]
fn qpow_modulus_one() {
    assert_eq!(qpow(7, 3, 1), 0);
    assert_eq!(qpow(7, 0, 1), 1);
}

#[test]
fn qpow_negative_base() {
    assert_eq!(qpow(-2, 3, 5), -3);
    assert_eq!(qpow(-2, 2, 5), 4);
    assert_eq!(qpow(-7, 5, 7), 0);
    assert_eq!(qpow(-1_000_000_000, 3, 1_000_000_007), -999_999_664);
}
