use vstd::arithmetic::power::pow;
use vstd::prelude::*;

use crate::modint::signed_pow_mod;
use crate::ratio::trunc_rem;

verus! {

/// `x^y mod p` by repeated squaring, for a non-negative exponent and a
/// positive modulus; an exponent of `0` gives `1` whatever `p` is. The
/// remainder is truncated toward zero, so a negative base raised to an odd
/// power gives a result in `(-p, 0]`. Intermediate products are taken in
/// 128 bits, so no modulus overflows.
pub fn qpow(x: i64, y: i64, p: i64) -> (r: i64)
    requires
        y >= 0,
        p >= 1,
    ensures
        r as int == if y == 0 {
            1
        } else {
            trunc_rem(pow(x as int, y as nat), p as int)
        },
{
    if y == 0 {
        return 1;
    }
    signed_pow_mod(x, y as u64, p as u64)
}

} // verus!
