use vstd::arithmetic::div_mod::{
    lemma_fundamental_div_mod, lemma_mod_multiples_basic, lemma_truncate_middle,
};
use vstd::prelude::*;
use vstd::string::StringExecFns;

use crate::decimal::{decimal, signed_decimal, write_decimal, write_signed_decimal};

verus! {

/// Greatest common divisor by Euclid's algorithm; `gcd_nat(0, 0) == 0`.
pub open spec fn gcd_nat(a: nat, b: nat) -> nat
    decreases b,
{
    if b == 0 {
        a
    } else {
        gcd_nat(b, a % b)
    }
}

/// The absolute value.
pub open spec fn abs(x: int) -> nat {
    if x < 0 {
        (-x) as nat
    } else {
        x as nat
    }
}

/// `d` is positive and divides `a`.
pub open spec fn divides(d: int, a: int) -> bool {
    d > 0 && a % d == 0
}

/// A multiple of a multiple of `d` plus a multiple of `d` is a multiple of `d`.
proof fn lemma_divides_combination(d: int, x: int, y: int, q: int)
    requires
        divides(d, x),
        divides(d, y),
    ensures
        divides(d, x * q + y),
        divides(d, y - x * q),
{
    lemma_fundamental_div_mod(x, d);
    lemma_fundamental_div_mod(y, d);
    let kx = x / d;
    let ky = y / d;
    assert(x * q + y == (kx * q + ky) * d) by (nonlinear_arith)
        requires
            x == d * kx,
            y == d * ky,
    ;
    assert(y - x * q == (ky - kx * q) * d) by (nonlinear_arith)
        requires
            x == d * kx,
            y == d * ky,
    ;
    lemma_mod_multiples_basic(kx * q + ky, d);
    lemma_mod_multiples_basic(ky - kx * q, d);
}

/// The gcd divides both arguments, and is positive unless both are zero.
pub proof fn lemma_gcd_divides(a: nat, b: nat)
    ensures
        (a > 0 || b > 0) ==> gcd_nat(a, b) > 0,
        gcd_nat(a, b) > 0 ==> divides(gcd_nat(a, b) as int, a as int) && divides(
            gcd_nat(a, b) as int,
            b as int,
        ),
    decreases b,
{
    if b == 0 {
        if a > 0 {
            lemma_mod_multiples_basic(1, a as int);
            lemma_mod_multiples_basic(0, a as int);
        }
    } else {
        let r = a % b;
        lemma_gcd_divides(b, r);
        let g = gcd_nat(a, b) as int;
        if g > 0 {
            lemma_fundamental_div_mod(a as int, b as int);
            lemma_divides_combination(g, b as int, r as int, (a / b) as int);
            assert(a as int == b as int * (a / b) as int + r as int);
        }
    }
}

/// Every common divisor of `a` and `b` divides their gcd.
pub proof fn lemma_common_divisor(d: int, a: nat, b: nat)
    requires
        divides(d, a as int),
        divides(d, b as int),
    ensures
        divides(d, gcd_nat(a, b) as int),
    decreases b,
{
    if b > 0 {
        lemma_fundamental_div_mod(a as int, b as int);
        lemma_divides_combination(d, b as int, a as int, (a / b) as int);
        assert((a % b) as int == a as int - b as int * (a / b) as int);
        lemma_common_divisor(d, b, a % b);
    }
}

/// Scaling both arguments scales the gcd.
pub proof fn lemma_gcd_scale(k: nat, a: nat, b: nat)
    requires
        k > 0,
    ensures
        gcd_nat(k * a, k * b) == k * gcd_nat(a, b),
    decreases b,
{
    if b == 0 {
        assert(k * b == 0);
    } else {
        assert(k * b > 0) by (nonlinear_arith)
            requires
                k > 0,
                b > 0,
        ;
        lemma_truncate_middle(a as int, k as int, b as int);
        assert((k * a) % (k * b) == k * (a % b));
        lemma_gcd_scale(k, b, a % b);
    }
}

/// Dividing both arguments by their gcd leaves coprime numbers.
pub proof fn lemma_gcd_reduced(a: nat, b: nat)
    requires
        a > 0 || b > 0,
    ensures
        gcd_nat(a, b) > 0,
        gcd_nat(a / gcd_nat(a, b), b / gcd_nat(a, b)) == 1,
{
    lemma_gcd_divides(a, b);
    let g = gcd_nat(a, b);
    lemma_fundamental_div_mod(a as int, g as int);
    lemma_fundamental_div_mod(b as int, g as int);
    lemma_gcd_scale(g, a / g, b / g);
    assert(g * (a / g) == a);
    assert(g * (b / g) == b);
    assert(g * gcd_nat(a / g, b / g) == g * 1);
    assert(gcd_nat(a / g, b / g) == 1) by (nonlinear_arith)
        requires
            g * gcd_nat(a / g, b / g) == g * 1,
            g > 0,
    ;
}

/// Two positive numbers that divide each other are equal.
proof fn lemma_divides_antisym(x: int, y: int)
    requires
        divides(x, y),
        divides(y, x),
    ensures
        x == y,
{
    lemma_fundamental_div_mod(y, x);
    lemma_fundamental_div_mod(x, y);
    let p = y / x;
    let q = x / y;
    assert(x == y) by (nonlinear_arith)
        requires
            y == x * p,
            x == y * q,
            x > 0,
            y > 0,
    ;
}

/// A fraction in lowest terms with a positive denominator is the only such
/// representation of its value.
pub proof fn lemma_lowest_terms_unique(n1: int, d1: int, n2: int, d2: int)
    requires
        d1 > 0,
        d2 > 0,
        gcd_nat(abs(n1), d1 as nat) == 1,
        gcd_nat(abs(n2), d2 as nat) == 1,
        n1 * d2 == n2 * d1,
    ensures
        n1 == n2,
        d1 == d2,
{
    assert(abs(n1) * d2 == abs(n2) * d1) by (nonlinear_arith)
        requires
            n1 * d2 == n2 * d1,
            d1 > 0,
            d2 > 0,
    ;
    lemma_divides_product(d1, d2, abs(n1), abs(n2));
    lemma_divides_product(d2, d1, abs(n2), abs(n1));
    lemma_divides_antisym(d1, d2);
    assert(n1 == n2) by (nonlinear_arith)
        requires
            n1 * d2 == n2 * d1,
            d1 == d2,
            d1 > 0,
    ;
}

/// If `d1` is coprime to `n1` and `n1 * d2 == n2 * d1`, then `d1` divides `d2`.
proof fn lemma_divides_product(d1: int, d2: int, n1: nat, n2: nat)
    requires
        d1 > 0,
        d2 > 0,
        gcd_nat(n1, d1 as nat) == 1,
        n1 * d2 == n2 * d1,
    ensures
        divides(d1, d2),
{
    lemma_mod_multiples_basic(n2 as int, d1);
    lemma_mod_multiples_basic(d2, d1);
    assert(d2 * n1 == n1 * d2) by (nonlinear_arith);
    assert(d2 * d1 == d1 * d2) by (nonlinear_arith);
    assert(d2 * n1 >= 0) by (nonlinear_arith)
        requires
            d2 > 0,
    ;
    assert(d2 * d1 > 0) by (nonlinear_arith)
        requires
            d2 > 0,
            d1 > 0,
    ;
    lemma_common_divisor(d1, (d2 * n1) as nat, (d2 * d1) as nat);
    lemma_gcd_scale(d2 as nat, n1, d1 as nat);
}

/// Numerator of `n / d` in lowest terms with a positive denominator.
pub open spec fn lowest_num(n: int, d: int) -> int {
    let q = abs(n) as int / gcd_nat(abs(n), abs(d)) as int;
    if (n < 0) != (d < 0) {
        -q
    } else {
        q
    }
}

/// Denominator of `n / d` in lowest terms with a positive denominator.
pub open spec fn lowest_den(n: int, d: int) -> int {
    abs(d) as int / gcd_nat(abs(n), abs(d)) as int
}

/// `n / d` is in lowest terms with a positive denominator.
pub open spec fn is_lowest(n: int, d: int) -> bool {
    d > 0 && gcd_nat(abs(n), d as nat) == 1
}

/// `x` is representable as an `i64`.
pub open spec fn fits_i64(x: int) -> bool {
    i64::MIN <= x <= i64::MAX
}

/// The lowest-terms form of `n / d` is in lowest terms and has the same value.
pub proof fn lemma_lowest(n: int, d: int)
    requires
        d != 0,
    ensures
        is_lowest(lowest_num(n, d), lowest_den(n, d)),
        lowest_num(n, d) * d == n * lowest_den(n, d),
        n == 0 ==> lowest_num(n, d) == 0 && lowest_den(n, d) == 1,
{
    let an = abs(n);
    let ad = abs(d);
    lemma_gcd_reduced(an, ad);
    lemma_gcd_divides(an, ad);
    let g = gcd_nat(an, ad);
    lemma_fundamental_div_mod(an as int, g as int);
    lemma_fundamental_div_mod(ad as int, g as int);
    let qn = an / g;
    let qd = ad / g;
    assert(an == g * qn);
    assert(ad == g * qd);
    assert(qd > 0) by (nonlinear_arith)
        requires
            ad == g * qd,
            ad > 0,
            g > 0,
    ;
    assert(abs(lowest_num(n, d)) == qn);
    assert(lowest_num(n, d) * d == n * lowest_den(n, d)) by (nonlinear_arith)
        requires
            an == g * qn,
            ad == g * qd,
            an == abs(n),
            ad == abs(d),
            lowest_num(n, d) == (if (n < 0) != (d < 0) { -qn } else { qn as int }),
            lowest_den(n, d) == qd,
    ;
    if n == 0 {
        assert(0nat % ad == 0);
        assert(gcd_nat(ad, 0) == ad);
        assert(g == ad);
        vstd::arithmetic::div_mod::lemma_div_by_self(ad as int);
    }
}

/// Euclid's algorithm on machine words.
fn gcd_u128(a: u128, b: u128) -> (r: u128)
    ensures
        r as nat == gcd_nat(a as nat, b as nat),
    decreases b,
{
    if b == 0 {
        a
    } else {
        gcd_u128(b, a % b)
    }
}

/// The absolute value of `x` as an unsigned word.
fn magnitude(x: i128) -> (r: u128)
    requires
        x > i128::MIN,
    ensures
        r as nat == abs(x as int),
{
    if x < 0 {
        (-x) as u128
    } else {
        x as u128
    }
}

/// The remainder of `x / y` truncated toward zero: it has the sign of `x`.
pub open spec fn trunc_rem(x: int, y: int) -> int {
    if x < 0 {
        -((abs(x) % abs(y)) as int)
    } else {
        (abs(x) % abs(y)) as int
    }
}

/// Euclid's algorithm on signed integers with truncated remainders:
/// `euclid_gcd(x, 0) == x`, otherwise `euclid_gcd(y, x rem y)`. Its magnitude
/// is the greatest common divisor; its sign is that of the last non-zero
/// remainder.
pub open spec fn euclid_gcd(x: int, y: int) -> int
    decreases abs(y),
{
    if y == 0 {
        x
    } else {
        euclid_gcd(y, trunc_rem(x, y))
    }
}

/// `euclid_gcd` has the gcd of the magnitudes as its magnitude, and is one of
/// its arguments or smaller than the second.
pub proof fn lemma_euclid_gcd(x: int, y: int)
    ensures
        abs(euclid_gcd(x, y)) == gcd_nat(abs(x), abs(y)),
        euclid_gcd(x, y) == x || euclid_gcd(x, y) == y || abs(euclid_gcd(x, y)) < abs(y),
    decreases abs(y),
{
    if y != 0 {
        let t = trunc_rem(x, y);
        assert(abs(t) == abs(x) % abs(y));
        lemma_euclid_gcd(y, t);
    }
}

/// Signed Euclid on 64-bit values held in 128 bits.
fn euclid_i128(x: i128, y: i128) -> (r: i128)
    requires
        abs(x as int) <= 0x8000_0000_0000_0000,
        abs(y as int) <= 0x8000_0000_0000_0000,
    ensures
        r as int == euclid_gcd(x as int, y as int),
    decreases abs(y as int),
{
    if y == 0 {
        x
    } else {
        let m = magnitude(x) % magnitude(y);
        let t: i128 = if x < 0 { -(m as i128) } else { m as i128 };
        assert(t as int == trunc_rem(x as int, y as int));
        euclid_i128(y, t)
    }
}

/// The greatest common divisor by Euclid's algorithm with truncated
/// remainders: its magnitude is the gcd of `|x|` and `|y|`, its sign follows
/// the remainders (`gcd(x, 0) == x`, so `gcd(-4, 0) == -4`).
pub fn gcd(x: i64, y: i64) -> (r: i64)
    ensures
        r as int == euclid_gcd(x as int, y as int),
        abs(r as int) == gcd_nat(abs(x as int), abs(y as int)),
        y == 0 ==> r == x,
{
    proof {
        lemma_euclid_gcd(x as int, y as int);
    }
    euclid_i128(x as i128, y as i128) as i64
}

/// `n / d` reduced to lowest terms with a positive denominator, computed in
/// 128 bits.
fn lowest_terms(n: i128, d: i128) -> (r: (i128, i128))
    requires
        d != 0,
        n > i128::MIN,
        d > i128::MIN,
    ensures
        r.0 == lowest_num(n as int, d as int),
        r.1 == lowest_den(n as int, d as int),
{
    let mn = magnitude(n);
    let md = magnitude(d);
    let g = gcd_u128(mn, md);
    proof {
        lemma_gcd_divides(mn as nat, md as nat);
        vstd::arithmetic::div_mod::lemma_div_is_ordered_by_denominator(mn as int, 1, g as int);
        vstd::arithmetic::div_mod::lemma_div_is_ordered_by_denominator(md as int, 1, g as int);
    }
    let qn = (mn / g) as i128;
    let qd = (md / g) as i128;
    if (n < 0) != (d < 0) {
        (-qn, qd)
    } else {
        (qn, qd)
    }
}

/// `simplify(x, y)` has both quotients in 64 bits: always, unless the gcd
/// is `-1` and a term is `i64::MIN`.
pub open spec fn simplify_fits(x: int, y: int) -> bool {
    x == 0 || (x > i64::MIN && y > i64::MIN) || euclid_gcd(x, y) != -1
}

/// Divides `x` and `y` by their signed gcd (see [`gcd`]); `(0, 1)` when `x`
/// is zero.
pub fn simplify(x: i64, y: i64) -> (r: (i64, i64))
    requires
        simplify_fits(x as int, y as int),
    ensures
        x == 0 ==> r == (0i64, 1i64),
        x != 0 ==> r.0 as int * euclid_gcd(x as int, y as int) == x as int && r.1 as int
            * euclid_gcd(x as int, y as int) == y as int,
{
    if x == 0 {
        return (0, 1);
    }
    let g = gcd(x, y);
    let mx = magnitude(x as i128);
    let my = magnitude(y as i128);
    let mg = magnitude(g as i128);
    proof {
        lemma_gcd_divides(mx as nat, my as nat);
        lemma_fundamental_div_mod(mx as int, mg as int);
        lemma_fundamental_div_mod(my as int, mg as int);
        vstd::arithmetic::div_mod::lemma_div_is_ordered_by_denominator(mx as int, 1, mg as int);
        vstd::arithmetic::div_mod::lemma_div_is_ordered_by_denominator(my as int, 1, mg as int);
    }
    let qx = (mx / mg) as i128;
    let qy = (my / mg) as i128;
    let rx = if (x < 0) != (g < 0) { -qx } else { qx };
    let ry = if (y < 0) != (g < 0) { -qy } else { qy };
    proof {
        assert(rx * g == x) by (nonlinear_arith)
            requires
                mx == mg * qx,
                mx as int == abs(x as int),
                mg as int == abs(g as int),
                rx == (if (x < 0) != (g < 0) { -qx } else { qx as int }),
        ;
        assert(ry * g == y) by (nonlinear_arith)
            requires
                my == mg * qy,
                my as int == abs(y as int),
                mg as int == abs(g as int),
                ry == (if (y < 0) != (g < 0) { -qy } else { qy as int }),
        ;
        assert(-0x8000_0000_0000_0000 <= rx <= 0x7fff_ffff_ffff_ffff) by (nonlinear_arith)
            requires
                rx * g == x,
                g != 0,
                g != -1 || x > -0x8000_0000_0000_0000,
                -0x8000_0000_0000_0000 <= x <= 0x7fff_ffff_ffff_ffff,
        ;
        assert(-0x8000_0000_0000_0000 <= ry <= 0x7fff_ffff_ffff_ffff) by (nonlinear_arith)
            requires
                ry * g == y,
                g != 0,
                g != -1 || y > -0x8000_0000_0000_0000,
                -0x8000_0000_0000_0000 <= y <= 0x7fff_ffff_ffff_ffff,
        ;
    }
    (rx as i64, ry as i64)
}

/// An exact rational number, always held in lowest terms with a positive
/// denominator.
#[derive(Clone, Copy, PartialEq, Eq, Structural, Debug)]
pub struct Ratio {
    num: i64,
    den: i64,
}

/// Both terms of the lowest-terms form of `n / d` fit in an `i64`.
pub open spec fn lowest_fits(n: int, d: int) -> bool {
    fits_i64(lowest_num(n, d)) && fits_i64(lowest_den(n, d))
}

/// `n / d` can be held by a [`Ratio`]: its lowest-terms form fits in 64
/// bits, as it always does when `|n|` and `|d|` fit.
pub open spec fn representable(n: int, d: int) -> bool {
    (abs(n) <= i64::MAX && abs(d) <= i64::MAX) || lowest_fits(n, d)
}

/// Reducing a fraction never enlarges its terms.
proof fn lemma_representable(n: int, d: int)
    requires
        d != 0,
        representable(n, d),
    ensures
        lowest_fits(n, d),
{
    lemma_gcd_divides(abs(n), abs(d));
    let g = gcd_nat(abs(n), abs(d)) as int;
    vstd::arithmetic::div_mod::lemma_div_is_ordered_by_denominator(abs(n) as int, 1, g);
    vstd::arithmetic::div_mod::lemma_div_is_ordered_by_denominator(abs(d) as int, 1, g);
    vstd::arithmetic::div_mod::lemma_div_pos_is_pos(abs(n) as int, g);
    vstd::arithmetic::div_mod::lemma_div_pos_is_pos(abs(d) as int, g);
}

/// The ratio with numerator `n` and denominator `d`, as they are.
pub closed spec fn terms_ratio(n: int, d: int) -> Ratio {
    Ratio { num: n as i64, den: d as i64 }
}

/// The ratio holding the lowest-terms form of `n / d`.
pub open spec fn lowest_ratio(n: int, d: int) -> Ratio {
    terms_ratio(lowest_num(n, d), lowest_den(n, d))
}

impl Ratio {
    /// The numerator.
    pub closed spec fn num(self) -> int {
        self.num as int
    }

    /// The denominator.
    pub closed spec fn den(self) -> int {
        self.den as int
    }

    /// Numerator and denominator are coprime and the denominator is positive.
    pub open spec fn wf(self) -> bool {
        is_lowest(self.num(), self.den())
    }

    #[verifier::type_invariant]
    closed spec fn canonical(self) -> bool {
        is_lowest(self.num as int, self.den as int)
    }

    /// Both terms are 64-bit integers.
    pub proof fn lemma_terms_fit(self)
        ensures
            fits_i64(self.num()),
            fits_i64(self.den()),
    {
    }

    /// Two ratios with the same numerator and denominator are equal.
    pub proof fn lemma_parts_eq(self, other: Ratio)
        requires
            self.num() == other.num(),
            self.den() == other.den(),
        ensures
            self == other,
    {
    }

    /// The stored numerator and denominator.
    fn parts(self) -> (r: (i64, i64))
        ensures
            r.0 as int == self.num(),
            r.1 as int == self.den(),
            self.wf(),
    {
        proof {
            use_type_invariant(self);
        }
        (self.num, self.den)
    }

    /// `n / d` in lowest terms, for a 128-bit fraction whose reduced form
    /// fits in 64 bits.
    fn from_wide(n: i128, d: i128) -> (r: Self)
        requires
            d != 0,
            n > i128::MIN,
            d > i128::MIN,
            representable(n as int, d as int),
        ensures
            r.num() == lowest_num(n as int, d as int),
            r.den() == lowest_den(n as int, d as int),
            r.wf(),
    {
        proof {
            lemma_lowest(n as int, d as int);
            lemma_representable(n as int, d as int);
        }
        let (a, b) = lowest_terms(n, d);
        Ratio { num: a as i64, den: b as i64 }
    }

    /// The ratio written as `num/den`, in lowest terms.
    pub fn to_string(&self) -> (r: String)
        ensures
            r@ == signed_decimal(self.num()) + seq!['/'] + decimal(self.den() as nat),
    {
        let (a, b) = self.parts();
        let mut s = String::new();
        write_signed_decimal(&mut s, a);
        proof {
            reveal_strlit("/");
        }
        s.append("/");
        write_decimal(&mut s, b as u64);
        proof {
            assert(s@ =~= signed_decimal(self.num()) + seq!['/'] + decimal(self.den() as nat));
        }
        s
    }

    /// The ratio `num / den` in lowest terms with a positive denominator.
    /// `den` must not be zero, and the reduced form must fit in 64 bits
    /// (it does unless it would have a term `2^63`).
    pub fn new(num: i64, den: i64) -> (r: Self)
        requires
            den != 0,
            representable(num as int, den as int),
        ensures
            r.num() == lowest_num(num as int, den as int),
            r.den() == lowest_den(num as int, den as int),
            r.wf(),
    {
        Self::from_wide(num as i128, den as i128)
    }
}

/// The cross products of two ratios stay within 126 bits.
proof fn lemma_cross_bounds(a: int, b: int, c: int, d: int)
    requires
        fits_i64(a),
        fits_i64(c),
        0 < b <= i64::MAX,
        0 < d <= i64::MAX,
    ensures
        -0x4000_0000_0000_0000_0000_0000_0000_0000 < a * d < 0x4000_0000_0000_0000_0000_0000_0000_0000,
        -0x4000_0000_0000_0000_0000_0000_0000_0000 < c * b < 0x4000_0000_0000_0000_0000_0000_0000_0000,
        0 < b * d < 0x4000_0000_0000_0000_0000_0000_0000_0000,
        -0x4000_0000_0000_0000_0000_0000_0000_0000 < a * c <= 0x4000_0000_0000_0000_0000_0000_0000_0000,
{
    assert(-0x4000_0000_0000_0000_0000_0000_0000_0000 < a * d < 0x4000_0000_0000_0000_0000_0000_0000_0000) by (nonlinear_arith)
        requires fits_i64(a), 0 < d <= i64::MAX;
    assert(-0x4000_0000_0000_0000_0000_0000_0000_0000 < c * b < 0x4000_0000_0000_0000_0000_0000_0000_0000) by (nonlinear_arith)
        requires fits_i64(c), 0 < b <= i64::MAX;
    assert(0 < b * d < 0x4000_0000_0000_0000_0000_0000_0000_0000) by (nonlinear_arith)
        requires 0 < b <= i64::MAX, 0 < d <= i64::MAX;
    assert(-0x4000_0000_0000_0000_0000_0000_0000_0000 < a * c <= 0x4000_0000_0000_0000_0000_0000_0000_0000) by (nonlinear_arith)
        requires fits_i64(a), fits_i64(c);
}

/// Numerator of `a + b` before reduction.
pub open spec fn sum_num(a: Ratio, b: Ratio) -> int {
    a.num() * b.den() + b.num() * a.den()
}

/// Numerator of `a - b` before reduction.
pub open spec fn diff_num(a: Ratio, b: Ratio) -> int {
    a.num() * b.den() - b.num() * a.den()
}

impl core::ops::Add for Ratio {
    type Output = Ratio;

    fn add(self, rhs: Self) -> (r: Self)
        ensures
            r.num() == lowest_num(sum_num(self, rhs), self.den() * rhs.den()),
            r.den() == lowest_den(sum_num(self, rhs), self.den() * rhs.den()),
            r.wf(),
    {
        let (a, b) = self.parts();
        let (c, d) = rhs.parts();
        proof {
            lemma_cross_bounds(a as int, b as int, c as int, d as int);
        }
        Ratio::from_wide(a as i128 * d as i128 + c as i128 * b as i128, b as i128 * d as i128)
    }
}

impl vstd::std_specs::ops::AddSpecImpl for Ratio {
    open spec fn obeys_add_spec() -> bool {
        true
    }

    open spec fn add_req(self, rhs: Self) -> bool {
        representable(sum_num(self, rhs), self.den() * rhs.den())
    }

    open spec fn add_spec(self, rhs: Self) -> Self {
        lowest_ratio(sum_num(self, rhs), self.den() * rhs.den())
    }
}

impl core::ops::AddAssign for Ratio {
    fn add_assign(&mut self, rhs: Self)
        requires
            representable(sum_num(*old(self), rhs), old(self).den() * rhs.den()),
        ensures
            final(self).num() == lowest_num(sum_num(*old(self), rhs), old(self).den() * rhs.den()),
            final(self).den() == lowest_den(sum_num(*old(self), rhs), old(self).den() * rhs.den()),
    {
        *self = *self + rhs;
    }
}

impl core::ops::Sub for Ratio {
    type Output = Ratio;

    fn sub(self, rhs: Self) -> (r: Self)
        ensures
            r.num() == lowest_num(diff_num(self, rhs), self.den() * rhs.den()),
            r.den() == lowest_den(diff_num(self, rhs), self.den() * rhs.den()),
            r.wf(),
    {
        let (a, b) = self.parts();
        let (c, d) = rhs.parts();
        proof {
            lemma_cross_bounds(a as int, b as int, c as int, d as int);
        }
        Ratio::from_wide(a as i128 * d as i128 - c as i128 * b as i128, b as i128 * d as i128)
    }
}

impl vstd::std_specs::ops::SubSpecImpl for Ratio {
    open spec fn obeys_sub_spec() -> bool {
        true
    }

    open spec fn sub_req(self, rhs: Self) -> bool {
        representable(diff_num(self, rhs), self.den() * rhs.den())
    }

    open spec fn sub_spec(self, rhs: Self) -> Self {
        lowest_ratio(diff_num(self, rhs), self.den() * rhs.den())
    }
}

impl core::ops::SubAssign for Ratio {
    fn sub_assign(&mut self, rhs: Self)
        requires
            representable(diff_num(*old(self), rhs), old(self).den() * rhs.den()),
        ensures
            final(self).num() == lowest_num(diff_num(*old(self), rhs), old(self).den() * rhs.den()),
            final(self).den() == lowest_den(diff_num(*old(self), rhs), old(self).den() * rhs.den()),
    {
        *self = *self - rhs;
    }
}

impl core::ops::Mul for Ratio {
    type Output = Ratio;

    fn mul(self, rhs: Self) -> (r: Self)
        ensures
            r.num() == lowest_num(self.num() * rhs.num(), self.den() * rhs.den()),
            r.den() == lowest_den(self.num() * rhs.num(), self.den() * rhs.den()),
            r.wf(),
    {
        let (a, b) = self.parts();
        let (c, d) = rhs.parts();
        proof {
            lemma_cross_bounds(a as int, b as int, c as int, d as int);
        }
        Ratio::from_wide(a as i128 * c as i128, b as i128 * d as i128)
    }
}

impl vstd::std_specs::ops::MulSpecImpl for Ratio {
    open spec fn obeys_mul_spec() -> bool {
        true
    }

    open spec fn mul_req(self, rhs: Self) -> bool {
        representable(self.num() * rhs.num(), self.den() * rhs.den())
    }

    open spec fn mul_spec(self, rhs: Self) -> Self {
        lowest_ratio(self.num() * rhs.num(), self.den() * rhs.den())
    }
}

impl core::ops::MulAssign for Ratio {
    fn mul_assign(&mut self, rhs: Self)
        requires
            representable(old(self).num() * rhs.num(), old(self).den() * rhs.den()),
        ensures
            final(self).num() == lowest_num(old(self).num() * rhs.num(), old(self).den() * rhs.den()),
            final(self).den() == lowest_den(old(self).num() * rhs.num(), old(self).den() * rhs.den()),
    {
        *self = *self * rhs;
    }
}

impl core::ops::Div for Ratio {
    type Output = Ratio;

    /// Division by a ratio whose numerator is zero is not allowed.
    fn div(self, rhs: Self) -> (r: Self)
        ensures
            r.num() == lowest_num(self.num() * rhs.den(), self.den() * rhs.num()),
            r.den() == lowest_den(self.num() * rhs.den(), self.den() * rhs.num()),
            r.wf(),
    {
        let (a, b) = self.parts();
        let (c, d) = rhs.parts();
        proof {
            lemma_cross_bounds(a as int, b as int, c as int, d as int);
            assert(b * c != 0) by (nonlinear_arith)
                requires
                    b > 0,
                    c != 0,
            ;
        }
        Ratio::from_wide(a as i128 * d as i128, b as i128 * c as i128)
    }
}

impl vstd::std_specs::ops::DivSpecImpl for Ratio {
    open spec fn obeys_div_spec() -> bool {
        true
    }

    open spec fn div_req(self, rhs: Self) -> bool {
        rhs.num() != 0 && representable(self.num() * rhs.den(), self.den() * rhs.num())
    }

    open spec fn div_spec(self, rhs: Self) -> Self {
        lowest_ratio(self.num() * rhs.den(), self.den() * rhs.num())
    }
}

impl core::ops::DivAssign for Ratio {
    fn div_assign(&mut self, rhs: Self)
        requires
            rhs.num() != 0,
            representable(old(self).num() * rhs.den(), old(self).den() * rhs.num()),
        ensures
            final(self).num() == lowest_num(old(self).num() * rhs.den(), old(self).den() * rhs.num()),
            final(self).den() == lowest_den(old(self).num() * rhs.den(), old(self).den() * rhs.num()),
    {
        *self = *self / rhs;
    }
}

impl core::ops::Neg for Ratio {
    type Output = Ratio;

    fn neg(self) -> (r: Self)
        ensures
            r.num() == -self.num(),
            r.den() == self.den(),
            r.wf(),
    {
        let (a, b) = self.parts();
        proof {
            assert(abs(-a) == abs(a as int));
        }
        Ratio { num: -a, den: b }
    }
}

impl vstd::std_specs::ops::NegSpecImpl for Ratio {
    open spec fn obeys_neg_spec() -> bool {
        true
    }

    open spec fn neg_req(self) -> bool {
        self.num() > i64::MIN
    }

    open spec fn neg_spec(self) -> Self {
        terms_ratio(-self.num(), self.den())
    }
}

impl From<i64> for Ratio {
    /// The integer `value` as the ratio `value / 1`.
    fn from(value: i64) -> (r: Self)
        ensures
            r.num() == value as int,
            r.den() == 1,
            r.wf(),
    {
        proof {
            lemma_lowest(value as int, 1);
            assert(gcd_nat(abs(value as int), 1) == 1) by {
                assert(abs(value as int) % 1 == 0);
                assert(gcd_nat(1, 0) == 1);
            }
        }
        Ratio::new(value, 1)
    }
}

impl vstd::std_specs::convert::FromSpecImpl<i64> for Ratio {
    open spec fn obeys_from_spec() -> bool {
        true
    }

    open spec fn from_spec(v: i64) -> Self {
        lowest_ratio(v as int, 1)
    }
}

impl Default for Ratio {
    /// Zero, as `0 / 1`.
    fn default() -> (r: Self)
        ensures
            r.num() == 0,
            r.den() == 1,
            r.wf(),
    {
        proof {
            assert(gcd_nat(0, 1) == 1) by {
                assert(0nat % 1 == 0);
                assert(gcd_nat(1, 0) == 1);
            }
        }
        Ratio { num: 0, den: 1 }
    }
}

impl PartialOrd for Ratio {
    /// Compares `a / b` with `c / d` by comparing `a * d` with `c * b`.
    fn partial_cmp(&self, other: &Self) -> (r: Option<core::cmp::Ordering>) {
        let (a, b) = self.parts();
        let (c, d) = other.parts();
        proof {
            lemma_cross_bounds(a as int, b as int, c as int, d as int);
        }
        let lhs = a as i128 * d as i128;
        let rhs = c as i128 * b as i128;
        if lhs < rhs {
            Some(core::cmp::Ordering::Less)
        } else if lhs > rhs {
            Some(core::cmp::Ordering::Greater)
        } else {
            Some(core::cmp::Ordering::Equal)
        }
    }
}

impl vstd::std_specs::cmp::PartialOrdSpecImpl for Ratio {
    open spec fn obeys_partial_cmp_spec() -> bool {
        true
    }

    open spec fn partial_cmp_spec(&self, other: &Self) -> Option<core::cmp::Ordering> {
        let lhs = self.num() * other.den();
        let rhs = other.num() * self.den();
        if lhs < rhs {
            Some(core::cmp::Ordering::Less)
        } else if lhs > rhs {
            Some(core::cmp::Ordering::Greater)
        } else {
            Some(core::cmp::Ordering::Equal)
        }
    }
}

/// Dividing by a non-zero ratio and multiplying back gives the ratio again:
/// `(a / b) * b == a`, term by term in lowest form.
pub proof fn lemma_div_mul_round_trip(a: Ratio, b: Ratio)
    requires
        a.wf(),
        b.wf(),
        b.num() != 0,
    ensures
        ({
            let qn = lowest_num(a.num() * b.den(), a.den() * b.num());
            let qd = lowest_den(a.num() * b.den(), a.den() * b.num());
            lowest_num(qn * b.num(), qd * b.den()) == a.num() && lowest_den(
                qn * b.num(),
                qd * b.den(),
            ) == a.den()
        }),
{
    let (an, ad, bn, bd) = (a.num(), a.den(), b.num(), b.den());
    let n1 = an * bd;
    let d1 = ad * bn;
    assert(d1 != 0) by (nonlinear_arith)
        requires
            ad > 0,
            bn != 0,
            d1 == ad * bn,
    ;
    lemma_lowest(n1, d1);
    let qn = lowest_num(n1, d1);
    let qd = lowest_den(n1, d1);
    let n2 = qn * bn;
    let d2 = qd * bd;
    assert(d2 != 0) by (nonlinear_arith)
        requires
            qd > 0,
            bd > 0,
            d2 == qd * bd,
    ;
    lemma_lowest(n2, d2);
    let rn = lowest_num(n2, d2);
    let rd = lowest_den(n2, d2);
    assert(rn * ad == an * rd) by (nonlinear_arith)
        requires
            rn * d2 == n2 * rd,
            qn * d1 == n1 * qd,
            n1 == an * bd,
            d1 == ad * bn,
            n2 == qn * bn,
            d2 == qd * bd,
            qd > 0,
            bd > 0,
            bn != 0,
    ;
    lemma_lowest_terms_unique(rn, rd, an, ad);
}

/// `(x + y) * k == x * k + y * k`.
proof fn lemma_distrib(x: int, y: int, k: int)
    ensures
        (x + y) * k == x * k + y * k,
{
    assert((x + y) * k == x * k + y * k) by (nonlinear_arith);
}

/// Fractions with the same value have the same lowest terms.
pub proof fn lemma_lowest_same_value(n1: int, d1: int, n2: int, d2: int)
    requires
        d1 != 0,
        d2 != 0,
        n1 * d2 == n2 * d1,
    ensures
        lowest_num(n1, d1) == lowest_num(n2, d2),
        lowest_den(n1, d1) == lowest_den(n2, d2),
{
    lemma_lowest(n1, d1);
    lemma_lowest(n2, d2);
    let (l1, m1, l2, m2) = (lowest_num(n1, d1), lowest_den(n1, d1), lowest_num(n2, d2), lowest_den(
        n2,
        d2,
    ));
    assert((l1 * m2) * (d1 * d2) == (l1 * d1) * (m2 * d2)) by (nonlinear_arith);
    assert((n1 * m1) * (m2 * d2) == (n1 * d2) * (m1 * m2)) by (nonlinear_arith);
    assert((n2 * d1) * (m1 * m2) == (n2 * m2) * (d1 * m1)) by (nonlinear_arith);
    assert((l2 * d2) * (d1 * m1) == (l2 * m1) * (d1 * d2)) by (nonlinear_arith);
    assert((l1 * m2) * (d1 * d2) == (l2 * m1) * (d1 * d2));
    assert(d1 * d2 != 0) by (nonlinear_arith)
        requires
            d1 != 0,
            d2 != 0,
    ;
    assert(l1 * m2 == l2 * m1) by (nonlinear_arith)
        requires
            (l1 * m2) * (d1 * d2) == (l2 * m1) * (d1 * d2),
            d1 * d2 != 0,
    ;
    lemma_lowest_terms_unique(l1, m1, l2, m2);
}

/// Addition is commutative: `a + b == b + a`.
pub proof fn lemma_add_commutative(a: Ratio, b: Ratio)
    ensures
        lowest_num(sum_num(a, b), a.den() * b.den()) == lowest_num(sum_num(b, a), b.den() * a.den()),
        lowest_den(sum_num(a, b), a.den() * b.den()) == lowest_den(sum_num(b, a), b.den() * a.den()),
{
    assert(a.den() * b.den() == b.den() * a.den()) by (nonlinear_arith);
}

/// Zero is the identity of addition: `a + 0 == a`, where `z` is zero as
/// `Ratio::default()` gives it.
pub proof fn lemma_add_zero(a: Ratio, z: Ratio)
    requires
        a.wf(),
        z.num() == 0,
        z.den() == 1,
    ensures
        lowest_num(sum_num(a, z), a.den() * z.den()) == a.num(),
        lowest_den(sum_num(a, z), a.den() * z.den()) == a.den(),
{
    assert(sum_num(a, z) == a.num());
    lemma_lowest(a.num(), a.den());
    lemma_lowest_terms_unique(lowest_num(a.num(), a.den()), lowest_den(a.num(), a.den()), a.num(), a.den());
}

/// A ratio plus its negation is zero: `a + (-a) == 0`, where `n` is `-a` as
/// negation gives it.
pub proof fn lemma_add_negation(a: Ratio, n: Ratio)
    requires
        a.wf(),
        n.num() == -a.num(),
        n.den() == a.den(),
    ensures
        lowest_num(sum_num(a, n), a.den() * n.den()) == 0,
        lowest_den(sum_num(a, n), a.den() * n.den()) == 1,
{
    assert(sum_num(a, n) == 0) by (nonlinear_arith)
        requires
            sum_num(a, n) == a.num() * n.den() + n.num() * a.den(),
            n.num() == -a.num(),
            n.den() == a.den(),
    ;
    assert(a.den() * n.den() != 0) by (nonlinear_arith)
        requires
            a.den() > 0,
            n.den() == a.den(),
    ;
    lemma_lowest(0, a.den() * n.den());
}

/// Addition is associative: `(a + b) + c == a + (b + c)`, each sum taken in
/// lowest terms as the operator gives it.
pub proof fn lemma_add_associative(a: Ratio, b: Ratio, c: Ratio)
    requires
        a.wf(),
        b.wf(),
        c.wf(),
    ensures
        ({
            let pn = lowest_num(sum_num(a, b), a.den() * b.den());
            let pd = lowest_den(sum_num(a, b), a.den() * b.den());
            let qn = lowest_num(sum_num(b, c), b.den() * c.den());
            let qd = lowest_den(sum_num(b, c), b.den() * c.den());
            lowest_num(pn * c.den() + c.num() * pd, pd * c.den()) == lowest_num(
                a.num() * qd + qn * a.den(),
                a.den() * qd,
            ) && lowest_den(pn * c.den() + c.num() * pd, pd * c.den()) == lowest_den(
                a.num() * qd + qn * a.den(),
                a.den() * qd,
            )
        }),
{
    let (an, ad, bn, bd, cn, cd) = (a.num(), a.den(), b.num(), b.den(), c.num(), c.den());
    assert(ad * bd > 0 && bd * cd > 0 && ad * bd * cd > 0) by (nonlinear_arith)
        requires
            ad > 0,
            bd > 0,
            cd > 0,
    ;
    lemma_lowest(sum_num(a, b), ad * bd);
    lemma_lowest(sum_num(b, c), bd * cd);
    let pn = lowest_num(sum_num(a, b), ad * bd);
    let pd = lowest_den(sum_num(a, b), ad * bd);
    let qn = lowest_num(sum_num(b, c), bd * cd);
    let qd = lowest_den(sum_num(b, c), bd * cd);
    let n = an * bd * cd + bn * ad * cd + cn * ad * bd;
    let d = ad * bd * cd;
    assert(pd * cd > 0 && ad * qd > 0) by (nonlinear_arith)
        requires
            pd > 0,
            qd > 0,
            ad > 0,
            cd > 0,
    ;
    // (pn*cd + cn*pd) * d == n * (pd*cd), using pn*(ad*bd) == (an*bd + bn*ad)*pd.
    lemma_distrib(pn * cd, cn * pd, d);
    assert((pn * cd) * d == (pn * (ad * bd)) * (cd * cd)) by (nonlinear_arith)
        requires
            d == ad * bd * cd,
    ;
    lemma_distrib(an * bd, bn * ad, pd);
    lemma_distrib((an * bd) * pd, (bn * ad) * pd, cd * cd);
    lemma_distrib(an * bd * cd + bn * ad * cd, cn * ad * bd, pd * cd);
    lemma_distrib(an * bd * cd, bn * ad * cd, pd * cd);
    assert((an * bd * cd) * (pd * cd) == ((an * bd) * pd) * (cd * cd)) by (nonlinear_arith);
    assert((bn * ad * cd) * (pd * cd) == ((bn * ad) * pd) * (cd * cd)) by (nonlinear_arith);
    assert((cn * ad * bd) * (pd * cd) == (cn * pd) * d) by (nonlinear_arith)
        requires
            d == ad * bd * cd,
    ;
    assert((pn * cd + cn * pd) * d == n * (pd * cd));
    // (an*qd + qn*ad) * d == n * (ad*qd), using qn*(bd*cd) == (bn*cd + cn*bd)*qd.
    lemma_distrib(an * qd, qn * ad, d);
    assert((qn * ad) * d == (qn * (bd * cd)) * (ad * ad)) by (nonlinear_arith)
        requires
            d == ad * bd * cd,
    ;
    lemma_distrib(bn * cd, cn * bd, qd);
    lemma_distrib((bn * cd) * qd, (cn * bd) * qd, ad * ad);
    lemma_distrib(an * bd * cd, bn * ad * cd + cn * ad * bd, ad * qd);
    lemma_distrib(bn * ad * cd, cn * ad * bd, ad * qd);
    assert((an * bd * cd) * (ad * qd) == (an * qd) * d) by (nonlinear_arith)
        requires
            d == ad * bd * cd,
    ;
    assert((bn * ad * cd) * (ad * qd) == ((bn * cd) * qd) * (ad * ad)) by (nonlinear_arith);
    assert((cn * ad * bd) * (ad * qd) == ((cn * bd) * qd) * (ad * ad)) by (nonlinear_arith);
    assert(an * bd * cd + bn * ad * cd + cn * ad * bd == an * bd * cd + (bn * ad * cd + cn * ad
        * bd));
    assert((an * qd + qn * ad) * d == n * (ad * qd));
    lemma_lowest_same_value(pn * cd + cn * pd, pd * cd, n, d);
    lemma_lowest_same_value(an * qd + qn * ad, ad * qd, n, d);
}

/// Negating twice gives the ratio back: `-(-a) == a`, where `n` is `-a` and
/// `m` is `-n` as negation gives them.
pub proof fn lemma_double_negation(a: Ratio, n: Ratio, m: Ratio)
    requires
        n.num() == -a.num(),
        n.den() == a.den(),
        m.num() == -n.num(),
        m.den() == n.den(),
    ensures
        m == a,
{
    m.lemma_parts_eq(a);
}

} // verus!
