use templates::fenwick::Fenwick;
use templates::modint::{mint998244353, ModInt};

#[test]
fn test_fenwick() {
    let mut fen = Fenwick::<i64>::new(10);
    for i in 1..=10 {
        fen.add(i, i as i64);
    }

    assert_eq!(fen.get_range(1, 10), 55);
    assert_eq!(fen.get_range(3, 8), 33);

    let mut fen = Fenwick::<mint998244353>::new(10);
    for i in 1..=10 {
        fen.add(i, (i as i64).into());
    }

    assert_eq!(fen.get_range(1, 10), 55.into());
    assert_eq!(fen.get_range(3, 8), 33.into());
}

#[test]
fn fenwick_prefix_sums() {
    let mut fen = Fenwick::<i64>::new(8);
    fen.add(3, 5);
    fen.add(5, -2);
    fen.add(8, 7);
    assert_eq!(fen.get(0), 0);
    assert_eq!(fen.get(2), 0);
    assert_eq!(fen.get(3), 5);
    assert_eq!(fen.get(4), 5);
    assert_eq!(fen.get(7), 3);
    assert_eq!(fen.get(8), 10);
    assert_eq!(fen.get_range(4, 8), 5);
    assert_eq!(fen.get_range(5, 5), -2);
}

#[test]
fn fenwick_add_past_end_is_ignored() {
    let mut fen = Fenwick::<i64>::new(4);
    fen.add(5, 100);
    fen.add(4, 1);
    assert_eq!(fen.get(4), 1);
}

#[test]
fn fenwick_empty_tree() {
    let fen = Fenwick::<i64>::new(0);
    assert_eq!(fen.get(0), 0);
}

#[test]
fn fenwick_range_updates_give_point_values() {
    let mut fen = Fenwick::<i64>::new(10);
    fen.add_range(2, 5, 3);
    fen.add_range(4, 10, 2);
    fen.add_range(10, 10, 1);
    let expected = [0, 3, 3, 5, 5, 2, 2, 2, 2, 3];
    for x in 1..=10 {
        assert_eq!(fen.get(x), expected[x - 1]);
    }
}

#[test]
fn fenwick_modular_sums_wrap() {
    let mut fen = Fenwick::<ModInt<7>>::new(5);
    for i in 1..=5 {
        fen.add(i, ModInt::new(i as i64));
    }
    assert_eq!(fen.get(5), ModInt::new(15));
    assert_eq!(fen.get(5), ModInt::new(1));
    assert_eq!(fen.get_range(2, 4), ModInt::new(2));
}

#[test]
fn fenwick_wrapping_integers() {
    let mut fen = Fenwick::<i64>::new(2);
    fen.add(1, i64::MAX);
    fen.add(2, 1);
    assert_eq!(fen.get(2), i64::MIN);
    assert_eq!(fen.get_range(2, 2), 1);
}
