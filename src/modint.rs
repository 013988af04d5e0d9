use vstd::arithmetic::div_mod::{
    lemma_fundamental_div_mod, lemma_fundamental_div_mod_converse, lemma_mod_bound,
    lemma_mul_mod_noop_general, lemma_small_mod,
};
use vstd::arithmetic::power::{
    lemma_pow0, lemma_pow1, lemma_pow_adds, lemma_pow_mod_noop, lemma_pow_multiplies,
    lemma_square_is_pow2, pow,
};
use vstd::prelude::*;

use crate::decimal::{decimal, write_decimal};
use crate::fermat::{is_prime, lemma_fermat_inverse};
use crate::group::GroupValue;
use crate::ratio::{abs, trunc_rem};

verus! {

/// An integer modulo the constant `P`, stored as its least non-negative
/// representative.
///
/// A modulus of `0` admits no residues; `ModInt<0>` is treated as the
/// one-element ring, whose only value is `0` (see [`ModInt::modulus`]).
#[derive(Clone, Copy, Debug, Ord)]
pub struct ModInt<const P: u64> {
    value: u64,
}

/// Residues modulo the prime 998244353.
#[allow(non_camel_case_types)]
pub type mint998244353 = ModInt<998244353>;

/// Residues modulo the prime 1000000007.
#[allow(non_camel_case_types)]
pub type mint1000000007 = ModInt<1000000007>;

/// The modulus as a machine word: `P`, or `1` when `P` is `0`.
fn modulus_u64<const P: u64>() -> (m: u64)
    ensures
        m as int == ModInt::<P>::modulus(),
{
    if P == 0 {
        1
    } else {
        P
    }
}

impl<const P: u64> ModInt<P> {
    /// The modulus the residues are taken with.
    pub open spec fn modulus() -> int {
        if P == 0 {
            1
        } else {
            P as int
        }
    }

    /// The residue as an integer in `[0, modulus)`.
    pub closed spec fn val(self) -> int {
        self.value as int % Self::modulus()
    }

    #[verifier::type_invariant]
    closed spec fn reduced(self) -> bool {
        (self.value as int) < Self::modulus()
    }

    /// The residue of `v`.
    pub closed spec fn of_residue(v: int) -> Self {
        ModInt { value: (v % Self::modulus()) as u64 }
    }

    /// Every value lies in `[0, modulus)`.
    pub proof fn lemma_val_range(self)
        ensures
            0 <= self.val() < Self::modulus(),
    {
        lemma_mod_bound(self.value as int, Self::modulus());
    }

    /// Wraps a word already in `[0, modulus)`.
    fn from_reduced(v: u64) -> (r: Self)
        requires
            (v as int) < Self::modulus(),
        ensures
            r.val() == v as int,
            r.value == v,
    {
        proof {
            lemma_small_mod(v as nat, Self::modulus() as nat);
        }
        ModInt { value: v }
    }

    /// The stored word, which is the residue.
    fn word(self) -> (v: u64)
        ensures
            v as int == self.val(),
            (v as int) < Self::modulus(),
    {
        proof {
            use_type_invariant(self);
            lemma_small_mod(self.value as nat, Self::modulus() as nat);
        }
        self.value
    }

    /// Reduces `value` modulo the modulus into `[0, modulus)`.
    pub fn new(value: i64) -> (r: Self)
        ensures
            r.val() == value as int % Self::modulus(),
            r.valid(),
    {
        let m = modulus_u64::<P>();
        if value >= 0 {
            Self::from_reduced((value as u64) % m)
        } else {
            let a: u64 = (-(value + 1)) as u64;
            let rem: u64 = a % m;
            proof {
                let mi = m as int;
                lemma_fundamental_div_mod(a as int, mi);
                let q = a as int / mi;
                assert(value as int == (-q - 1) * mi + (mi - 1 - rem as int)) by (nonlinear_arith)
                    requires
                        a as int == mi * q + rem as int,
                        value as int == -(a as int) - 1,
                ;
                lemma_fundamental_div_mod_converse(value as int, mi, -q - 1, mi - 1 - rem as int);
            }
            Self::from_reduced(m - 1 - rem)
        }
    }

    /// `self` raised to the power `exponent`: `val^exponent mod P`; a zero
    /// exponent gives `1` (when `P > 1`).
    pub fn pow(self, exponent: u64) -> (r: Self)
        ensures
            r.val() == pow(self.val(), exponent as nat) % Self::modulus(),
            r.valid(),
    {
        let m = modulus_u64::<P>();
        Self::from_reduced(pow_mod(self.word(), exponent, m))
    }

    /// The multiplicative inverse by Fermat's little theorem: `val^(P-2) mod P`.
    /// It is the inverse only when `P` is prime and `self` is not zero.
    pub fn inv(self) -> (r: Self)
        requires
            P >= 2,
        ensures
            r.val() == pow(self.val(), (P - 2) as nat) % Self::modulus(),
            r.valid(),
    {
        Self::from_reduced(pow_mod(self.word(), P - 2, P))
    }

    /// The residue written in decimal.
    pub fn to_string(&self) -> (r: String)
        ensures
            r@ == decimal(self.val() as nat),
    {
        let mut s = String::new();
        write_decimal(&mut s, self.word());
        proof {
            assert(s@ =~= decimal(self.val() as nat));
        }
        s
    }

    /// The representative as a signed integer.
    pub fn to_i64(self) -> (r: i64)
        requires
            P <= i64::MAX,
        ensures
            r as int == self.val(),
    {
        self.word() as i64
    }
}

/// The group operations of residues, stated over their values: the identity
/// is `0`, and sums and negations are taken modulo the modulus.
pub proof fn lemma_group_spec<const P: u64>(a: ModInt<P>, b: ModInt<P>)
    requires
        a.valid(),
        b.valid(),
    ensures
        <ModInt<P> as GroupValue>::zero_spec().val() == 0,
        a.plus_spec(b).val() == (a.val() + b.val()) % ModInt::<P>::modulus(),
        a.negate_spec().val() == (-a.val()) % ModInt::<P>::modulus(),
{
    let m = ModInt::<P>::modulus();
    lemma_small_mod(0, m as nat);
    lemma_small_mod(a.value as nat, m as nat);
    lemma_small_mod(b.value as nat, m as nat);
    lemma_mod_bound(a.value + b.value, m);
    vstd::arithmetic::div_mod::lemma_mod_twice(a.value + b.value, m);
    if a.value != 0 {
        lemma_fundamental_div_mod_converse(-(a.value as int), m, -1, m - a.value);
        lemma_small_mod((m - a.value) as nat, m as nat);
    }
}

/// Two valid residues with the same value are the same.
pub proof fn lemma_eq_by_val<const P: u64>(a: ModInt<P>, b: ModInt<P>)
    requires
        a.valid(),
        b.valid(),
        a.val() == b.val(),
    ensures
        a == b,
{
    lemma_small_mod(a.value as nat, ModInt::<P>::modulus() as nat);
    lemma_small_mod(b.value as nat, ModInt::<P>::modulus() as nat);
}

/// `x^y mod p` by repeated squaring, for a non-negative exponent and a
/// positive modulus; an exponent of `0` gives `1` whatever `p` is. The
/// remainder is truncated toward zero, so a negative base raised to an odd
/// power gives a result in `(-p, 0]`.
pub fn qpow(x: i32, y: i32, p: i32) -> (r: i32)
    requires
        y >= 0,
        p >= 1,
    ensures
        r as int == if y == 0 {
            1
        } else {
            trunc_rem(pow(x as int, y as nat), p as int)
        },
{
    if y == 0 {
        return 1;
    }
    signed_pow_mod(x as i64, y as u64, p as u64) as i32
}

/// A negated base changes the sign of odd powers only.
pub proof fn lemma_pow_negated_base(a: int, e: nat)
    ensures
        pow(-a, e) == if e % 2 == 0 {
            pow(a, e)
        } else {
            -pow(a, e)
        },
    decreases e,
{
    if e == 0 {
        lemma_pow0(a);
        lemma_pow0(-a);
    } else {
        lemma_pow_negated_base(a, (e - 1) as nat);
        lemma_pow_adds(a, 1, (e - 1) as nat);
        lemma_pow_adds(-a, 1, (e - 1) as nat);
        lemma_pow1(a);
        lemma_pow1(-a);
        let q = pow(a, (e - 1) as nat);
        if e % 2 == 0 {
            assert(-a * -q == a * q) by (nonlinear_arith);
        } else {
            assert(-a * q == -(a * q)) by (nonlinear_arith);
        }
    }
}

/// `x^y` reduced modulo `p` with a remainder truncated toward zero.
pub(crate) fn signed_pow_mod(x: i64, y: u64, p: u64) -> (r: i64)
    requires
        1 <= p <= i64::MAX,
        y >= 1,
    ensures
        r as int == trunc_rem(pow(x as int, y as nat), p as int),
        -(p as int) < r < p as int,
{
    let mag: u64 = if x < 0 { (-(x as i128)) as u64 } else { x as u64 };
    let m = pow_mod(mag, y, p);
    proof {
        if mag > 0 {
            vstd::arithmetic::power::lemma_pow_positive(mag as int, y as nat);
        } else {
            vstd::arithmetic::power::lemma0_pow(y as nat);
        }
        let pm = pow(mag as int, y as nat);
        if x < 0 {
            lemma_pow_negated_base(mag as int, y as nat);
            assert(-(mag as int) == x as int);
            if y % 2 == 1 {
                if pm > 0 {
                    assert(abs(-pm) == pm);
                } else {
                    assert(pm == 0);
                    lemma_small_mod(0, p as nat);
                }
            } else {
                assert(pow(x as int, y as nat) == pm);
            }
        } else {
            assert(pow(x as int, y as nat) == pm);
        }
    }
    if x < 0 && y % 2 == 1 {
        -(m as i64)
    } else {
        m as i64
    }
}

impl<const P: u64> PartialEq for ModInt<P> {
    fn eq(&self, other: &Self) -> (r: bool)
        ensures
            r == (self.val() == other.val()),
    {
        self.word() == other.word()
    }
}

impl<const P: u64> vstd::std_specs::cmp::PartialEqSpecImpl for ModInt<P> {
    open spec fn obeys_eq_spec() -> bool {
        true
    }

    open spec fn eq_spec(&self, other: &Self) -> bool {
        self.val() == other.val()
    }
}

impl<const P: u64> Eq for ModInt<P> {
}

impl<const P: u64> PartialOrd for ModInt<P> {
    fn partial_cmp(&self, other: &Self) -> (r: Option<core::cmp::Ordering>) {
        let a = self.word();
        let b = other.word();
        if a < b {
            Some(core::cmp::Ordering::Less)
        } else if a > b {
            Some(core::cmp::Ordering::Greater)
        } else {
            Some(core::cmp::Ordering::Equal)
        }
    }
}

impl<const P: u64> vstd::std_specs::cmp::PartialOrdSpecImpl for ModInt<P> {
    open spec fn obeys_partial_cmp_spec() -> bool {
        true
    }

    open spec fn partial_cmp_spec(&self, other: &Self) -> Option<core::cmp::Ordering> {
        if self.val() < other.val() {
            Some(core::cmp::Ordering::Less)
        } else if self.val() > other.val() {
            Some(core::cmp::Ordering::Greater)
        } else {
            Some(core::cmp::Ordering::Equal)
        }
    }
}

impl<const P: u64> Default for ModInt<P> {
    fn default() -> (r: Self)
        ensures
            r.val() == 0,
            r.valid(),
    {
        Self::from_reduced(0)
    }
}

impl<const P: u64> From<i64> for ModInt<P> {
    fn from(value: i64) -> (r: Self)
        ensures
            r.val() == value as int % Self::modulus(),
            r.valid(),
    {
        let r = Self::new(value);
        proof {
            use_type_invariant(r);
            lemma_small_mod(r.value as nat, Self::modulus() as nat);
        }
        r
    }
}

impl<const P: u64> vstd::std_specs::convert::FromSpecImpl<i64> for ModInt<P> {
    open spec fn obeys_from_spec() -> bool {
        true
    }

    open spec fn from_spec(v: i64) -> Self {
        Self::of_residue(v as int)
    }
}

impl<const P: u64> From<i32> for ModInt<P> {
    fn from(value: i32) -> (r: Self)
        ensures
            r.val() == value as int % Self::modulus(),
            r.valid(),
    {
        let r = Self::new(value as i64);
        proof {
            use_type_invariant(r);
            lemma_small_mod(r.value as nat, Self::modulus() as nat);
        }
        r
    }
}

impl<const P: u64> vstd::std_specs::convert::FromSpecImpl<i32> for ModInt<P> {
    open spec fn obeys_from_spec() -> bool {
        true
    }

    open spec fn from_spec(v: i32) -> Self {
        Self::of_residue(v as int)
    }
}

impl<const P: u64> core::ops::Add for ModInt<P> {
    type Output = ModInt<P>;

    fn add(self, rhs: Self) -> (r: Self)
        ensures
            r.val() == (self.val() + rhs.val()) % Self::modulus(),
            r.valid(),
    {
        let m = modulus_u64::<P>();
        let a = self.word();
        let b = rhs.word();
        if a >= m - b {
            proof {
                lemma_fundamental_div_mod_converse(a + b, m as int, 1, a + b - m);
            }
            Self::from_reduced(a - (m - b))
        } else {
            proof {
                lemma_small_mod((a + b) as nat, m as nat);
            }
            Self::from_reduced(a + b)
        }
    }
}

impl<const P: u64> vstd::std_specs::ops::AddSpecImpl for ModInt<P> {
    open spec fn obeys_add_spec() -> bool {
        true
    }

    open spec fn add_req(self, rhs: Self) -> bool {
        true
    }

    open spec fn add_spec(self, rhs: Self) -> Self {
        Self::of_residue(self.val() + rhs.val())
    }
}

impl<const P: u64> core::ops::AddAssign for ModInt<P> {
    fn add_assign(&mut self, rhs: Self)
        ensures
            final(self).val() == (old(self).val() + rhs.val()) % Self::modulus(),
    {
        *self = *self + rhs;
    }
}

impl<const P: u64> core::ops::Sub for ModInt<P> {
    type Output = ModInt<P>;

    fn sub(self, rhs: Self) -> (r: Self)
        ensures
            r.val() == (self.val() - rhs.val()) % Self::modulus(),
            r.valid(),
    {
        let m = modulus_u64::<P>();
        let a = self.word();
        let b = rhs.word();
        if a >= b {
            proof {
                lemma_small_mod((a - b) as nat, m as nat);
            }
            Self::from_reduced(a - b)
        } else {
            proof {
                lemma_fundamental_div_mod_converse(a - b, m as int, -1, a - b + m);
            }
            Self::from_reduced(a + (m - b))
        }
    }
}

impl<const P: u64> vstd::std_specs::ops::SubSpecImpl for ModInt<P> {
    open spec fn obeys_sub_spec() -> bool {
        true
    }

    open spec fn sub_req(self, rhs: Self) -> bool {
        true
    }

    open spec fn sub_spec(self, rhs: Self) -> Self {
        Self::of_residue(self.val() - rhs.val())
    }
}

impl<const P: u64> core::ops::SubAssign for ModInt<P> {
    fn sub_assign(&mut self, rhs: Self)
        ensures
            final(self).val() == (old(self).val() - rhs.val()) % Self::modulus(),
    {
        *self = *self - rhs;
    }
}

impl<const P: u64> core::ops::Neg for ModInt<P> {
    type Output = ModInt<P>;

    fn neg(self) -> (r: Self)
        ensures
            r.val() == (-self.val()) % Self::modulus(),
            r.valid(),
    {
        let m = modulus_u64::<P>();
        let a = self.word();
        if a == 0 {
            proof {
                lemma_small_mod(0, m as nat);
            }
            Self::from_reduced(0)
        } else {
            proof {
                lemma_fundamental_div_mod_converse(-a, m as int, -1, m - a);
            }
            Self::from_reduced(m - a)
        }
    }
}

impl<const P: u64> vstd::std_specs::ops::NegSpecImpl for ModInt<P> {
    open spec fn obeys_neg_spec() -> bool {
        true
    }

    open spec fn neg_req(self) -> bool {
        true
    }

    open spec fn neg_spec(self) -> Self {
        Self::of_residue(-self.val())
    }
}

impl<const P: u64> core::ops::Mul for ModInt<P> {
    type Output = ModInt<P>;

    fn mul(self, rhs: Self) -> (r: Self)
        ensures
            r.val() == (self.val() * rhs.val()) % Self::modulus(),
            r.valid(),
    {
        let m = modulus_u64::<P>();
        Self::from_reduced(mul_mod(self.word(), rhs.word(), m))
    }
}

impl<const P: u64> vstd::std_specs::ops::MulSpecImpl for ModInt<P> {
    open spec fn obeys_mul_spec() -> bool {
        true
    }

    open spec fn mul_req(self, rhs: Self) -> bool {
        true
    }

    open spec fn mul_spec(self, rhs: Self) -> Self {
        Self::of_residue(self.val() * rhs.val())
    }
}

impl<const P: u64> core::ops::MulAssign for ModInt<P> {
    fn mul_assign(&mut self, rhs: Self)
        ensures
            final(self).val() == (old(self).val() * rhs.val()) % Self::modulus(),
    {
        *self = *self * rhs;
    }
}

/// Sums and products of residues are residues again.
pub proof fn lemma_closed<const P: u64>(a: ModInt<P>, b: ModInt<P>)
    ensures
        0 <= (a.val() + b.val()) % ModInt::<P>::modulus() < ModInt::<P>::modulus(),
        0 <= (a.val() * b.val()) % ModInt::<P>::modulus() < ModInt::<P>::modulus(),
{
    lemma_mod_bound(a.val() + b.val(), ModInt::<P>::modulus());
    lemma_mod_bound(a.val() * b.val(), ModInt::<P>::modulus());
}

/// Addition is associative: `(a + b) + c == a + (b + c)`.
pub proof fn lemma_add_assoc<const P: u64>(a: ModInt<P>, b: ModInt<P>, c: ModInt<P>)
    ensures
        ((a.val() + b.val()) % ModInt::<P>::modulus() + c.val()) % ModInt::<P>::modulus() == (
        a.val() + (b.val() + c.val()) % ModInt::<P>::modulus()) % ModInt::<P>::modulus(),
{
    let m = ModInt::<P>::modulus();
    vstd::arithmetic::div_mod::lemma_add_mod_noop(a.val() + b.val(), c.val(), m);
    vstd::arithmetic::div_mod::lemma_add_mod_noop(a.val(), b.val() + c.val(), m);
    a.lemma_val_range();
    c.lemma_val_range();
    lemma_small_mod(a.val() as nat, m as nat);
    lemma_small_mod(c.val() as nat, m as nat);
    assert(a.val() + b.val() + c.val() == a.val() + (b.val() + c.val()));
}

/// Multiplication distributes over addition: `a * (b + c) == a * b + a * c`.
pub proof fn lemma_mul_distributes<const P: u64>(a: ModInt<P>, b: ModInt<P>, c: ModInt<P>)
    ensures
        (a.val() * ((b.val() + c.val()) % ModInt::<P>::modulus())) % ModInt::<P>::modulus() == (
        (a.val() * b.val()) % ModInt::<P>::modulus() + (a.val() * c.val())
            % ModInt::<P>::modulus()) % ModInt::<P>::modulus(),
{
    let m = ModInt::<P>::modulus();
    let (x, y, z) = (a.val(), b.val(), c.val());
    lemma_mul_mod_noop_general(x, y + z, m);
    vstd::arithmetic::div_mod::lemma_add_mod_noop(x * y, x * z, m);
    assert(x * (y + z) == x * y + x * z) by (nonlinear_arith);
}

/// Every residue plus its negation is zero: `a + (-a) == 0`.
pub proof fn lemma_add_neg<const P: u64>(a: ModInt<P>)
    ensures
        (a.val() + (-a.val()) % ModInt::<P>::modulus()) % ModInt::<P>::modulus() == 0,
{
    let m = ModInt::<P>::modulus();
    vstd::arithmetic::div_mod::lemma_add_mod_noop(a.val(), -a.val(), m);
    a.lemma_val_range();
    lemma_small_mod(a.val() as nat, m as nat);
    lemma_small_mod(0, m as nat);
}

/// For a prime modulus, a non-zero residue times its `inv` is one:
/// `a * a.inv() == 1`.
pub proof fn lemma_mul_inv<const P: u64>(a: ModInt<P>)
    requires
        is_prime(P as int),
        a.val() != 0,
    ensures
        (a.val() * (pow(a.val(), (P - 2) as nat) % ModInt::<P>::modulus())) % ModInt::<P>::modulus()
            == 1,
{
    let m = ModInt::<P>::modulus();
    a.lemma_val_range();
    lemma_small_mod(a.val() as nat, m as nat);
    lemma_fermat_inverse(a.val() as nat, m);
    lemma_mul_mod_noop_general(a.val(), pow(a.val(), (P - 2) as nat), m);
}

/// Residues form a group under modular addition.
impl<const P: u64> GroupValue for ModInt<P> {
    closed spec fn valid(self) -> bool {
        (self.value as int) < Self::modulus()
    }

    closed spec fn zero_spec() -> Self {
        ModInt { value: 0 }
    }

    closed spec fn plus_spec(self, rhs: Self) -> Self {
        ModInt { value: ((self.value + rhs.value) % Self::modulus()) as u64 }
    }

    closed spec fn negate_spec(self) -> Self {
        ModInt { value: (if self.value == 0 { 0 } else { Self::modulus() - self.value }) as u64 }
    }

    proof fn lemma_zero_valid() {
    }

    proof fn lemma_group_laws(a: Self, b: Self, c: Self) {
        let m = Self::modulus();
        let (x, y, z) = (a.value as int, b.value as int, c.value as int);
        lemma_mod_bound(x + y, m);
        lemma_mod_bound(y + z, m);
        vstd::arithmetic::div_mod::lemma_add_mod_noop(x + y, z, m);
        vstd::arithmetic::div_mod::lemma_add_mod_noop(x, y + z, m);
        lemma_small_mod(x as nat, m as nat);
        lemma_small_mod(z as nat, m as nat);
        lemma_small_mod(0, m as nat);
        assert((x + y + z) == x + (y + z));
        if x != 0 {
            lemma_fundamental_div_mod_converse(m, m, 1, 0);
        }
    }

    fn zero() -> (r: Self) {
        Self::from_reduced(0)
    }

    fn plus(self, rhs: Self) -> (r: Self) {
        proof {
            use_type_invariant(self);
            use_type_invariant(rhs);
        }
        let r = self + rhs;
        proof {
            use_type_invariant(r);
            lemma_small_mod(r.value as nat, Self::modulus() as nat);
            lemma_small_mod(self.value as nat, Self::modulus() as nat);
            lemma_small_mod(rhs.value as nat, Self::modulus() as nat);
        }
        r
    }

    fn negate(self) -> (r: Self) {
        proof {
            use_type_invariant(self);
            lemma_small_mod(self.value as nat, Self::modulus() as nat);
        }
        let r = core::ops::Neg::neg(self);
        proof {
            use_type_invariant(r);
            lemma_small_mod(r.value as nat, Self::modulus() as nat);
            if self.value != 0 {
                lemma_fundamental_div_mod_converse(
                    -(self.value as int),
                    Self::modulus(),
                    -1,
                    Self::modulus() - self.value,
                );
            } else {
                lemma_small_mod(0, Self::modulus() as nat);
            }
        }
        r
    }
}

/// `x^y mod p`, by repeated squaring with products taken in 128 bits.
pub(crate) fn pow_mod(x: u64, y: u64, p: u64) -> (r: u64)
    requires
        p >= 1,
    ensures
        r as int == pow(x as int, y as nat) % (p as int),
        r < p,
{
    let mut base: u64 = x % p;
    let mut e: u64 = y;
    let mut ans: u64 = 1 % p;
    proof {
        lemma_pow_mod_noop(x as int, y as nat, p as int);
        lemma_mul_mod_noop_general(1, pow(base as int, y as nat), p as int);
    }
    while e != 0
        invariant
            p >= 1,
            base < p,
            ans < p,
            (ans as int * pow(base as int, e as nat)) % (p as int) == pow(x as int, y as nat) % (p as int),
        decreases e,
    {
        proof {
            lemma_square_step(ans as int, base as int, e as nat, p as int);
        }
        assert((e & 1 == 1) == (e % 2 == 1)) by (bit_vector);
        if e & 1 == 1 {
            ans = mul_mod(ans, base, p);
        }
        base = mul_mod(base, base, p);
        assert(e >> 1 == e / 2) by (bit_vector);
        e = e >> 1;
    }
    proof {
        lemma_pow0(base as int);
        lemma_small_mod(ans as nat, p as nat);
    }
    ans
}

/// One step of repeated squaring keeps `ans * base^e` fixed modulo `p`.
proof fn lemma_square_step(ans: int, base: int, e: nat, p: int)
    requires
        p > 0,
    ensures
        e % 2 == 1 ==> (((ans * base) % p) * pow((base * base) % p, e / 2)) % p
            == (ans * pow(base, e)) % p,
        e % 2 == 0 ==> (ans * pow((base * base) % p, e / 2)) % p == (ans * pow(base, e)) % p,
{
    let k: nat = e / 2;
    let sq = pow((base * base) % p, k);
    lemma_pow_adds(base, e % 2, 2 * k);
    lemma_pow_multiplies(base, 2, k);
    lemma_square_is_pow2(base);
    lemma_pow_mod_noop(base * base, k, p);
    lemma_mul_mod_noop_general(ans, sq, p);
    lemma_mul_mod_noop_general(ans, pow(base * base, k), p);
    assert(e == e % 2 + 2 * k);
    if e % 2 == 1 {
        lemma_pow1(base);
        lemma_mul_mod_noop_general(ans * base, sq, p);
        lemma_mul_mod_noop_general(ans * base, pow(base * base, k), p);
        assert((ans * base) * pow(base * base, k) == ans * (base * pow(base * base, k)))
            by (nonlinear_arith);
    } else {
        lemma_pow0(base);
    }
}

/// `a * b mod p`, with the product taken in 128 bits.
fn mul_mod(a: u64, b: u64, p: u64) -> (r: u64)
    requires
        p >= 1,
    ensures
        r as int == (a as int * b as int) % (p as int),
        r < p,
{
    assert((a as int) * (b as int) <= 0xffff_ffff_ffff_ffff * 0xffff_ffff_ffff_ffff)
        by (nonlinear_arith)
        requires
            a <= 0xffff_ffff_ffff_ffff,
            b <= 0xffff_ffff_ffff_ffff,
    ;
    let prod: u128 = a as u128 * b as u128;
    proof {
        lemma_mod_bound(prod as int, p as int);
    }
    (prod % (p as u128)) as u64
}

} // verus!
