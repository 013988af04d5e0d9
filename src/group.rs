use vstd::prelude::*;

verus! {

/// Values that form a commutative group under addition: what a prefix-sum
/// tree needs of its elements.
///
/// `valid` marks the values the laws speak of; every value an implementing
/// type can hold at run time is valid, and the executable operations show it
/// for their arguments.
pub trait GroupValue: Copy + Sized {
    /// The value is a well-formed element of the group.
    spec fn valid(self) -> bool;

    /// The additive identity.
    spec fn zero_spec() -> Self;

    /// The group operation.
    spec fn plus_spec(self, rhs: Self) -> Self;

    /// The additive inverse.
    spec fn negate_spec(self) -> Self;

    /// The identity is a valid value.
    proof fn lemma_zero_valid()
        ensures
            Self::zero_spec().valid(),
    ;

    /// Closure, associativity, commutativity, identity and inverses.
    proof fn lemma_group_laws(a: Self, b: Self, c: Self)
        requires
            a.valid(),
            b.valid(),
            c.valid(),
        ensures
            a.plus_spec(b).valid(),
            a.negate_spec().valid(),
            a.plus_spec(b).plus_spec(c) == a.plus_spec(b.plus_spec(c)),
            a.plus_spec(b) == b.plus_spec(a),
            a.plus_spec(Self::zero_spec()) == a,
            a.plus_spec(a.negate_spec()) == Self::zero_spec(),
    ;

    /// The additive identity.
    fn zero() -> (r: Self)
        ensures
            r == Self::zero_spec(),
            r.valid(),
    ;

    /// The sum of `self` and `rhs`.
    fn plus(self, rhs: Self) -> (r: Self)
        ensures
            self.valid(),
            rhs.valid(),
            r == self.plus_spec(rhs),
    ;

    /// The additive inverse of `self`.
    fn negate(self) -> (r: Self)
        ensures
            self.valid(),
            r == self.negate_spec(),
    ;
}

/// Machine integers form a group under wrapping addition; where no sum
/// overflows it is ordinary addition.
impl GroupValue for i64 {
    open spec fn valid(self) -> bool {
        true
    }

    open spec fn zero_spec() -> Self {
        0
    }

    open spec fn plus_spec(self, rhs: Self) -> Self {
        self.wrapping_add(rhs)
    }

    open spec fn negate_spec(self) -> Self {
        0i64.wrapping_sub(self)
    }

    proof fn lemma_zero_valid() {
    }

    proof fn lemma_group_laws(a: Self, b: Self, c: Self) {
    }

    fn zero() -> (r: Self) {
        0
    }

    fn plus(self, rhs: Self) -> (r: Self) {
        self.wrapping_add(rhs)
    }

    fn negate(self) -> (r: Self) {
        0i64.wrapping_sub(self)
    }
}

} // verus!
