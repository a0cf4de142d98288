//! Executable ring operations.

use vstd::prelude::*;
use vstd::arithmetic::power2::*;
use crate::ring;
use crate::ring::Ring;

verus! {

/// A ring with executable operations, in which every value but zero has an inverse.
pub trait Field: Ring {
    fn zero() -> (r: Self)
        ensures
            r == Self::zero_spec(),
    ;

    fn one() -> (r: Self)
        ensures
            r == Self::one_spec(),
    ;

    fn add(self, other: Self) -> (r: Self)
        ensures
            r == self.plus(other),
    ;

    fn mul(self, other: Self) -> (r: Self)
        ensures
            r == self.times(other),
    ;

    fn neg(self) -> (r: Self)
        ensures
            r == self.negated(),
    ;

    fn sub(self, other: Self) -> (r: Self)
        ensures
            r == ring::minus(self, other),
    ;

    /// The multiplicative inverse of a value that is not zero.
    fn inverse(self) -> (r: Self)
        requires
            ring::reduced(self) != Self::zero_spec(),
        ensures
            self.times(r) == Self::one_spec(),
            ring::reduced(r) == r,
    ;

    /// Whether two values are the same element.
    fn equals(self, other: Self) -> (r: bool)
        ensures
            r == (ring::reduced(self) == ring::reduced(other)),
    ;
}

/// `x` to the power `2^k`.
pub fn exp_power_of_2<F: Field>(x: F, k: usize) -> (r: F)
    ensures
        r == ring::pow(x, pow2(k as nat)),
{
    let mut r: F = x.add(F::zero());
    let mut i: usize = 0;
    proof {
        lemma2_to64();
        ring::lemma_pow_one(x);
    }
    while i < k
        invariant
            i <= k,
            r == ring::pow(x, pow2(i as nat)),
        decreases k - i,
    {
        proof {
            lemma_pow2_unfold((i + 1) as nat);
            ring::lemma_pow_add(x, pow2(i as nat), pow2(i as nat));
        }
        r = r.mul(r);
        i = i + 1;
    }
    r
}

/// `x` to the power `n`.
pub fn exp_u64<F: Field>(x: F, n: u64) -> (r: F)
    ensures
        r == ring::pow(x, n as nat),
{
    let mut result: F = F::one();
    let mut base: F = x;
    let mut left: u64 = n;
    proof {
        F::law_constants();
        ring::lemma_mul_one(ring::pow(x, n as nat));
        ring::lemma_pow_reduced(x, n as nat);
    }
    while left > 0
        invariant
            result.times(ring::pow(base, left as nat)) == ring::pow(x, n as nat),
            ring::reduced(result) == result,
        decreases left,
    {
        let ghost b = base;
        let ghost h = (left / 2) as nat;
        proof {
            // base^left is base^(left mod 2) times (base^2)^(left / 2)
            ring::lemma_pow_mul(b, b, h);
            ring::lemma_pow_add(b, h, h);
            let w = ring::pow(b.times(b), h);
            if left % 2 == 1 {
                assert(left as nat == h + h + 1);
                F::law_mul_assoc(result, b, w);
                F::law_mul_comm(b, w);
            } else {
                assert(left as nat == h + h);
            }
        }
        if left % 2 == 1 {
            proof {
                ring::lemma_mul_reduced(result, base);
            }
            result = result.mul(base);
        }
        base = base.mul(base);
        left = left / 2;
    }
    proof {
        ring::lemma_mul_one(result);
    }
    result
}

} // verus!
