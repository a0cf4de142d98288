//! The BabyBear prime field, of order `2^31 - 2^27 + 1`.

use vstd::prelude::*;
use vstd::arithmetic::div_mod::*;
use p3_field::{AbstractField, PrimeField32};
use crate::field::Field;
use crate::ring;
use crate::ring::Ring;

verus! {

/// The BabyBear prime.
pub const P: u32 = 0x7800_0001;

/// An element of the BabyBear field, held as an integer that stands for its residue
/// modulo [`P`].
#[derive(Clone, Copy, PartialEq, Eq, Structural, Debug, Hash)]
pub struct Felt {
    pub value: u32,
}

/// The element that stands for the residue of `n`.
pub open spec fn felt(n: int) -> Felt {
    Felt { value: (n % (P as int)) as u32 }
}

impl Ring for Felt {
    open spec fn zero_spec() -> Self {
        Felt { value: 0 }
    }

    open spec fn one_spec() -> Self {
        Felt { value: 1 }
    }

    open spec fn plus(self, other: Self) -> Self {
        felt(self.value + other.value)
    }

    open spec fn times(self, other: Self) -> Self {
        felt(self.value * other.value)
    }

    open spec fn negated(self) -> Self {
        felt(-(self.value as int))
    }

    proof fn law_add_comm(a: Self, b: Self) {
    }

    proof fn law_add_assoc(a: Self, b: Self, c: Self) {
    }

    proof fn law_add_reduced(a: Self, b: Self) {
    }

    proof fn law_neg(a: Self) {
    }

    proof fn law_mul_comm(a: Self, b: Self) {
        assert(a.value * b.value == b.value * a.value) by (nonlinear_arith);
    }

    proof fn law_mul_assoc(a: Self, b: Self, c: Self) {
        let p = P as int;
        lemma_mul_mod_noop(a.value * b.value, c.value as int, p);
        lemma_mul_mod_noop(a.value as int, b.value * c.value, p);
        lemma_mul_mod_noop_left(a.value * b.value, c.value as int, p);
        lemma_mul_mod_noop_right(a.value as int, b.value * c.value, p);
        assert((a.value * b.value) * c.value == a.value * (b.value * c.value))
            by (nonlinear_arith);
    }

    proof fn law_mul_reduced(a: Self, b: Self) {
    }

    proof fn law_mul_one(a: Self) {
    }

    proof fn law_distrib(a: Self, b: Self, c: Self) {
        let p = P as int;
        lemma_mul_mod_noop_right(a.value as int, b.value + c.value, p);
        lemma_add_mod_noop(a.value * b.value, a.value * c.value, p);
        assert(a.value * (b.value + c.value) == a.value * b.value + a.value * c.value)
            by (nonlinear_arith);
    }

    proof fn law_constants() {
    }
}

impl Field for Felt {
    fn zero() -> (r: Self) {
        Felt { value: 0 }
    }

    fn one() -> (r: Self) {
        Felt { value: 1 }
    }

    fn add(self, other: Self) -> (r: Self) {
        Felt { value: ((self.value as u64 + other.value as u64) % (P as u64)) as u32 }
    }

    fn mul(self, other: Self) -> (r: Self) {
        assert(0 <= self.value * other.value <= 0xffff_ffff * 0xffff_ffff) by (nonlinear_arith)
            requires
                0 <= self.value <= 0xffff_ffff,
                0 <= other.value <= 0xffff_ffff,
        ;
        Felt { value: ((self.value as u64 * other.value as u64) % (P as u64)) as u32 }
    }

    fn neg(self) -> (r: Self) {
        Felt { value: ((P - self.value % P) % P) as u32 }
    }

    fn sub(self, other: Self) -> (r: Self) {
        self.add(other.neg())
    }

    fn inverse(self) -> (r: Self) {
        felt_inverse(self)
    }

    fn equals(self, other: Self) -> (r: bool) {
        self.value % P == other.value % P
    }
}

/// Calls `inverse` of `p3_field::Field` on a `BabyBear` that is not zero: the product of the
/// argument and the result is one. The result is handed back in canonical form.
#[verifier::external_body]
fn felt_inverse(a: Felt) -> (r: Felt)
    requires
        ring::reduced(a) != Felt::zero_spec(),
    ensures
        a.times(r) == Felt::one_spec(),
        r.value < P,
{
    let x = p3_baby_bear::BabyBear::from_wrapped_u32(a.value);
    Felt { value: p3_field::Field::inverse(&x).as_canonical_u32() }
}

} // verus!
