use vstd::arithmetic::div_mod::{
    lemma_fundamental_div_mod, lemma_mod_multiples_basic, lemma_small_mod,
};
use vstd::arithmetic::power::{lemma_pow0, lemma_pow1, lemma_pow_adds, pow};
use vstd::prelude::*;

use crate::ratio::{divides, gcd_nat, lemma_common_divisor, lemma_gcd_divides, lemma_gcd_scale};

verus! {

/// `p` is a prime number.
pub open spec fn is_prime(p: int) -> bool {
    p >= 2 && forall|d: int| 2 <= d < p ==> #[trigger] (p % d) != 0
}

/// The binomial coefficient `n choose k`, by Pascal's rule.
pub open spec fn binom(n: nat, k: nat) -> nat
    decreases n,
{
    if k == 0 {
        1
    } else if n == 0 {
        0
    } else {
        binom((n - 1) as nat, (k - 1) as nat) + binom((n - 1) as nat, k)
    }
}

/// `sum of binom(n, j) * a^j for j in 0..=k`.
pub open spec fn binom_sum(a: int, n: nat, k: nat) -> int
    decreases k,
{
    if k == 0 {
        1
    } else {
        binom_sum(a, n, (k - 1) as nat) + binom(n, k) * pow(a, k)
    }
}

proof fn lemma_binom_above(n: nat, k: nat)
    requires
        k > n,
    ensures
        binom(n, k) == 0,
    decreases n,
{
    if n > 0 {
        lemma_binom_above((n - 1) as nat, (k - 1) as nat);
        lemma_binom_above((n - 1) as nat, k);
    }
}

proof fn lemma_binom_diag(n: nat)
    ensures
        binom(n, n) == 1,
    decreases n,
{
    if n > 0 {
        lemma_binom_diag((n - 1) as nat);
        lemma_binom_above((n - 1) as nat, n);
    }
}

proof fn lemma_pow_succ(a: int, k: nat)
    requires
        k >= 1,
    ensures
        pow(a, k) == a * pow(a, (k - 1) as nat),
{
    lemma_pow_adds(a, 1, (k - 1) as nat);
    lemma_pow1(a);
}

/// Pascal's rule, summed.
proof fn lemma_binom_sum_step(a: int, n: nat, k: nat)
    requires
        k >= 1,
    ensures
        binom_sum(a, n + 1, k) == binom_sum(a, n, k) + a * binom_sum(a, n, (k - 1) as nat),
    decreases k,
{
    lemma_pow_succ(a, k);
    if k == 1 {
        lemma_pow0(a);
        assert(binom((n + 1) as nat, 1) == binom(n, 0) + binom(n, 1));
        assert(binom_sum(a, (n + 1) as nat, 0) == 1);
        assert(binom_sum(a, n, 0) == 1);
        assert(binom_sum(a, (n + 1) as nat, 1) == 1 + binom((n + 1) as nat, 1) * pow(a, 1));
        assert((binom(n, 0) + binom(n, 1)) * pow(a, 1) == pow(a, 1) + binom(n, 1) * pow(a, 1))
            by (nonlinear_arith)
            requires
                binom(n, 0) == 1,
        ;
    } else {
        lemma_binom_sum_step(a, n, (k - 1) as nat);
        let c0 = binom(n, (k - 1) as nat);
        let c1 = binom(n, k);
        let pk = pow(a, k);
        let pk1 = pow(a, (k - 1) as nat);
        assert(binom((n + 1) as nat, k) == c0 + c1);
        assert((c0 + c1) * pk == c1 * pk + a * (c0 * pk1)) by (nonlinear_arith)
            requires
                pk == a * pk1,
        ;
        assert(a * binom_sum(a, n, (k - 1) as nat) == a * binom_sum(a, n, (k - 2) as nat) + a * (c0
            * pk1)) by (nonlinear_arith)
            requires
                binom_sum(a, n, (k - 1) as nat) == binom_sum(a, n, (k - 2) as nat) + c0 * pk1,
        ;
    }
}

/// The binomial theorem for `(a + 1)^n`.
proof fn lemma_binomial(a: int, n: nat)
    ensures
        binom_sum(a, n, n) == pow(a + 1, n),
    decreases n,
{
    if n == 0 {
        lemma_pow0(a + 1);
    } else {
        let m = (n - 1) as nat;
        lemma_binomial(a, m);
        lemma_binom_sum_step(a, m, n);
        lemma_binom_above(m, n);
        assert(binom_sum(a, m, n) == binom_sum(a, m, m));
        lemma_pow_succ(a + 1, n);
        assert(pow(a + 1, n) == (a + 1) * pow(a + 1, m));
        assert((a + 1) * pow(a + 1, m) == pow(a + 1, m) + a * pow(a + 1, m)) by (nonlinear_arith);
    }
}

/// `k * binom(n, k) == n * binom(n - 1, k - 1)`.
proof fn lemma_binom_absorb(n: nat, k: nat)
    requires
        n >= 1,
        k >= 1,
    ensures
        k * binom(n, k) == n * binom((n - 1) as nat, (k - 1) as nat),
    decreases n,
{
    let m = (n - 1) as nat;
    if m == 0 {
        if k > 1 {
            lemma_binom_above(0, (k - 1) as nat);
            lemma_binom_above(1, k);
            assert(k * binom(n, k) == n * binom(m, (k - 1) as nat)) by (nonlinear_arith)
                requires
                    binom(n, k) == 0,
                    binom(m, (k - 1) as nat) == 0,
            ;
        } else {
            assert(binom(0, 1) == 0);
            assert(binom(0, 0) == 1);
            assert(binom(1, 1) == 1);
            assert(k * binom(n, k) == n * binom(m, (k - 1) as nat)) by (nonlinear_arith)
                requires
                    k == 1,
                    n == 1,
                    binom(n, k) == 1,
                    binom(m, (k - 1) as nat) == 1,
            ;
        }
    } else {
        assert(binom(n, k) == binom(m, (k - 1) as nat) + binom(m, k));
        lemma_binom_absorb(m, k);
        if k >= 2 {
            lemma_binom_absorb(m, (k - 1) as nat);
            assert(binom(m, (k - 1) as nat) == binom((m - 1) as nat, (k - 2) as nat) + binom(
                (m - 1) as nat,
                (k - 1) as nat,
            ));
            let a = binom(m, (k - 1) as nat);
            let b = binom(m, k);
            let c = binom((m - 1) as nat, (k - 1) as nat);
            let d = binom((m - 1) as nat, (k - 2) as nat);
            assert(k * (a + b) == n * a) by (nonlinear_arith)
                requires
                    k * b == m * c,
                    (k - 1) * a == m * d,
                    a == d + c,
                    n == m + 1,
            ;
            assert(k * binom(n, k) == k * (a + b));
        } else {
            assert(binom(m, 0) == 1);
            assert(binom(n, 1) == 1 + binom(m, 1));
            assert(binom((m - 1) as nat, 0) == 1);
            assert(1 * binom(m, 1) == m * 1);
            assert(binom(m, 1) == m) by (nonlinear_arith)
                requires
                    1 * binom(m, 1) == m * 1,
            ;
            assert(n == m + 1);
            assert(binom(n, 1) == n);
            assert(binom(m, 0) == 1);
            assert(k * binom(n, k) == n * binom(m, 0)) by (nonlinear_arith)
                requires
                    k == 1,
                    binom(n, 1) == n,
                    binom(m, 0) == 1,
            ;
        }
    }
}

/// Euclid's lemma: a prime dividing a product divides one of its factors.
pub proof fn lemma_euclid(p: int, x: nat, y: nat)
    requires
        is_prime(p),
        (x * y) as int % p == 0,
        x as int % p != 0,
    ensures
        y as int % p == 0,
{
    lemma_gcd_divides(p as nat, x);
    let g = gcd_nat(p as nat, x) as int;
    lemma_fundamental_div_mod(p, g);
    assert(g <= p) by (nonlinear_arith)
        requires
            p == g * (p / g),
            g > 0,
            p > 0,
    ;
    if g != 1 {
        assert(p % g == 0);
        assert(g == p);
    }
    assert(g == 1);
    if y > 0 {
        lemma_mod_multiples_basic(y as int, p);
        assert(divides(p, (y * p) as int));
        assert(y * x == x * y) by (nonlinear_arith);
        assert(divides(p, (y * x) as int));
        lemma_common_divisor(p, y * p as nat, y * x);
        lemma_gcd_scale(y, p as nat, x);
        assert(y * 1 == y);
    } else {
        lemma_small_mod(0, p as nat);
    }
}

/// A prime divides every binomial coefficient strictly inside its row.
proof fn lemma_prime_divides_binom(p: int, k: nat)
    requires
        is_prime(p),
        0 < k < p,
    ensures
        binom(p as nat, k) as int % p == 0,
{
    lemma_binom_absorb(p as nat, k);
    let c = binom((p - 1) as nat, (k - 1) as nat);
    lemma_mod_multiples_basic(c as int, p);
    assert(k * binom(p as nat, k) == c * p) by (nonlinear_arith)
        requires
            k * binom(p as nat, k) == p * c,
    ;
    lemma_small_mod(k, p as nat);
    lemma_euclid(p, k, binom(p as nat, k));
}

/// Below the last term, the binomial sum of a prime row is `1` modulo the prime.
proof fn lemma_binom_sum_mod(a: int, p: int, k: nat)
    requires
        is_prime(p),
        k < p,
    ensures
        binom_sum(a, p as nat, k) % p == 1,
    decreases k,
{
    if k == 0 {
        lemma_small_mod(1, p as nat);
    } else {
        lemma_binom_sum_mod(a, p, (k - 1) as nat);
        lemma_prime_divides_binom(p, k);
        let c = binom(p as nat, k) as int;
        lemma_fundamental_div_mod(c, p);
        let t = c * pow(a, k);
        assert(t == p * ((c / p) * pow(a, k))) by (nonlinear_arith)
            requires
                c == p * (c / p),
                t == c * pow(a, k),
        ;
        vstd::arithmetic::div_mod::lemma_mod_multiples_vanish(
            (c / p) * pow(a, k),
            binom_sum(a, p as nat, (k - 1) as nat),
            p,
        );
    }
}

/// Fermat's little theorem: `a^p == a` modulo a prime `p`.
pub proof fn lemma_fermat(a: nat, p: int)
    requires
        is_prime(p),
    ensures
        pow(a as int, p as nat) % p == a as int % p,
    decreases a,
{
    if a == 0 {
        vstd::arithmetic::power::lemma0_pow(p as nat);
    } else {
        let b = (a - 1) as nat;
        lemma_fermat(b, p);
        lemma_binomial(b as int, p as nat);
        lemma_binom_diag(p as nat);
        lemma_binom_sum_mod(b as int, p, (p - 1) as nat);
        let s = binom_sum(b as int, p as nat, (p - 1) as nat);
        let bp = pow(b as int, p as nat);
        assert(pow(a as int, p as nat) == s + bp);
        vstd::arithmetic::div_mod::lemma_add_mod_noop(s, bp, p);
        vstd::arithmetic::div_mod::lemma_add_mod_noop(1, b as int, p);
        lemma_small_mod(1, p as nat);
    }
}

/// For a prime `p` and `a` not a multiple of it, `a^(p-2)` is the inverse
/// of `a`: `a * a^(p-2) == 1` modulo `p`.
pub proof fn lemma_fermat_inverse(a: nat, p: int)
    requires
        is_prime(p),
        a as int % p != 0,
    ensures
        (a * pow(a as int, (p - 2) as nat)) % p == 1,
{
    lemma_fermat(a, p);
    lemma_small_mod(0, p as nat);
    assert(a > 0);
    let e = (p - 2) as nat;
    let t = a * pow(a as int, e);
    vstd::arithmetic::power::lemma_pow_positive(a as int, e);
    lemma_pow_adds(a as int, 2, e);
    vstd::arithmetic::power::lemma_square_is_pow2(a as int);
    assert(pow(a as int, p as nat) == a * t) by (nonlinear_arith)
        requires
            pow(a as int, p as nat) == pow(a as int, 2) * pow(a as int, e),
            pow(a as int, 2) == a * a,
            t == a * pow(a as int, e),
    ;
    assert(t >= 1) by (nonlinear_arith)
        requires
            a > 0,
            pow(a as int, e) > 0,
            t == a * pow(a as int, e),
    ;
    let u = (t - 1) as nat;
    assert(a * u == a * t - a) by (nonlinear_arith)
        requires
            u == t - 1,
    ;
    vstd::arithmetic::div_mod::lemma_sub_mod_noop(a * t, a as int, p);
    vstd::arithmetic::div_mod::lemma_mod_self_0(p);
    lemma_small_mod(0, p as nat);
    assert((a * u) as int % p == 0);
    lemma_euclid(p, a, u);
    vstd::arithmetic::div_mod::lemma_add_mod_noop(u as int, 1, p);
    lemma_small_mod(1, p as nat);
}

} // verus!
