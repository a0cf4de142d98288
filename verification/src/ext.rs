//! The degree-four extension of BabyBear by a root of `X^4 - 11`.

use vstd::prelude::*;
use vstd::arithmetic::div_mod::*;
use vstd::arithmetic::mul::*;
use p3_field::{AbstractExtensionField, AbstractField, PrimeField32};
use crate::babybear;
use crate::babybear::{Felt, P};
use crate::field::Field;
use crate::ring;
use crate::ring::Ring;

verus! {

/// An element `c0 + c1 X + c2 X^2 + c3 X^3` of the extension field, where `X^4 = 11`.
#[derive(Clone, Copy, PartialEq, Eq, Structural, Debug, Hash)]
pub struct Ext {
    pub c0: Felt,
    pub c1: Felt,
    pub c2: Felt,
    pub c3: Felt,
}

/// The extension element whose coordinates stand for the residues of four integers.
pub open spec fn ext(c0: int, c1: int, c2: int, c3: int) -> Ext {
    Ext {
        c0: babybear::felt(c0),
        c1: babybear::felt(c1),
        c2: babybear::felt(c2),
        c3: babybear::felt(c3),
    }
}

/// The constant coordinate of a product, before reduction modulo the prime.
#[verifier::inline]
pub open spec fn product0(a0: int, a1: int, a2: int, a3: int, b0: int, b1: int, b2: int, b3: int) -> int {
    a0 * b0 + 11 * (a1 * b3 + a2 * b2 + a3 * b1)
}

/// The coordinate of `X` of a product, before reduction modulo the prime.
#[verifier::inline]
pub open spec fn product1(a0: int, a1: int, a2: int, a3: int, b0: int, b1: int, b2: int, b3: int) -> int {
    a0 * b1 + a1 * b0 + 11 * (a2 * b3 + a3 * b2)
}

/// The coordinate of `X^2` of a product, before reduction modulo the prime.
#[verifier::inline]
pub open spec fn product2(a0: int, a1: int, a2: int, a3: int, b0: int, b1: int, b2: int, b3: int) -> int {
    a0 * b2 + a1 * b1 + a2 * b0 + 11 * (a3 * b3)
}

/// The coordinate of `X^3` of a product, before reduction modulo the prime.
#[verifier::inline]
pub open spec fn product3(a0: int, a1: int, a2: int, a3: int, b0: int, b1: int, b2: int, b3: int) -> int {
    a0 * b3 + a1 * b2 + a2 * b1 + a3 * b0
}

/// The product of two elements whose coordinates stand for the residues of integers.
pub open spec fn product(a0: int, a1: int, a2: int, a3: int, b0: int, b1: int, b2: int, b3: int) -> Ext {
    ext(
        product0(a0, a1, a2, a3, b0, b1, b2, b3),
        product1(a0, a1, a2, a3, b0, b1, b2, b3),
        product2(a0, a1, a2, a3, b0, b1, b2, b3),
        product3(a0, a1, a2, a3, b0, b1, b2, b3),
    )
}

proof fn lemma_same_residue(a: int, b: int, k: int)
    requires
        a == b + (P as int) * k,
    ensures
        a % (P as int) == b % (P as int),
{
    lemma_mod_multiples_vanish(k, b, P as int);
}

/// The distance of an integer from its residue is a multiple of the prime.
proof fn lemma_quotient(s: int) -> (k: int)
    ensures
        s == s % (P as int) + (P as int) * k,
{
    lemma_fundamental_div_mod(s, P as int);
    s / (P as int)
}

proof fn lemma_scale_step(r: int, k: int, b: int)
    ensures
        (r + (P as int) * k) * b == r * b + (P as int) * (k * b),
{
    lemma_mul_is_distributive_add_other_way(b, r, (P as int) * k);
    lemma_mul_is_associative(P as int, k, b);
}

/// Reducing the coordinates of the left factor does not change a product.
proof fn lemma_product_reduced(s0: int, s1: int, s2: int, s3: int, b0: int, b1: int, b2: int, b3: int)
    ensures
        product(
            s0 % (P as int),
            s1 % (P as int),
            s2 % (P as int),
            s3 % (P as int),
            b0,
            b1,
            b2,
            b3,
        ) == product(s0, s1, s2, s3, b0, b1, b2, b3),
{
    let p = P as int;
    let (r0, r1, r2, r3) = (s0 % p, s1 % p, s2 % p, s3 % p);
    let k0 = lemma_quotient(s0);
    let k1 = lemma_quotient(s1);
    let k2 = lemma_quotient(s2);
    let k3 = lemma_quotient(s3);
    lemma_scale_step(r0, k0, b0); lemma_scale_step(r0, k0, b1); lemma_scale_step(r0, k0, b2); lemma_scale_step(r0, k0, b3);
    lemma_scale_step(r1, k1, b0); lemma_scale_step(r1, k1, b1); lemma_scale_step(r1, k1, b2); lemma_scale_step(r1, k1, b3);
    lemma_scale_step(r2, k2, b0); lemma_scale_step(r2, k2, b1); lemma_scale_step(r2, k2, b2); lemma_scale_step(r2, k2, b3);
    lemma_scale_step(r3, k3, b0); lemma_scale_step(r3, k3, b1); lemma_scale_step(r3, k3, b2); lemma_scale_step(r3, k3, b3);
    lemma_same_residue(
        product0(s0, s1, s2, s3, b0, b1, b2, b3),
        product0(r0, r1, r2, r3, b0, b1, b2, b3),
        product0(k0, k1, k2, k3, b0, b1, b2, b3),
    );
    lemma_same_residue(
        product1(s0, s1, s2, s3, b0, b1, b2, b3),
        product1(r0, r1, r2, r3, b0, b1, b2, b3),
        product1(k0, k1, k2, k3, b0, b1, b2, b3),
    );
    lemma_same_residue(
        product2(s0, s1, s2, s3, b0, b1, b2, b3),
        product2(r0, r1, r2, r3, b0, b1, b2, b3),
        product2(k0, k1, k2, k3, b0, b1, b2, b3),
    );
    lemma_same_residue(
        product3(s0, s1, s2, s3, b0, b1, b2, b3),
        product3(r0, r1, r2, r3, b0, b1, b2, b3),
        product3(k0, k1, k2, k3, b0, b1, b2, b3),
    );
}

proof fn lemma_product_comm(a0: int, a1: int, a2: int, a3: int, b0: int, b1: int, b2: int, b3: int)
    ensures
        product(a0, a1, a2, a3, b0, b1, b2, b3) == product(b0, b1, b2, b3, a0, a1, a2, a3),
{
    lemma_mul_is_commutative(a0, b0); lemma_mul_is_commutative(a0, b1); lemma_mul_is_commutative(a0, b2); lemma_mul_is_commutative(a0, b3);
    lemma_mul_is_commutative(a1, b0); lemma_mul_is_commutative(a1, b1); lemma_mul_is_commutative(a1, b2); lemma_mul_is_commutative(a1, b3);
    lemma_mul_is_commutative(a2, b0); lemma_mul_is_commutative(a2, b1); lemma_mul_is_commutative(a2, b2); lemma_mul_is_commutative(a2, b3);
    lemma_mul_is_commutative(a3, b0); lemma_mul_is_commutative(a3, b1); lemma_mul_is_commutative(a3, b2); lemma_mul_is_commutative(a3, b3);
}

/// Multiplication distributes over addition in the left factor, before reduction.
proof fn lemma_product_add(
    a0: int,
    a1: int,
    a2: int,
    a3: int,
    b0: int,
    b1: int,
    b2: int,
    b3: int,
    c0: int,
    c1: int,
    c2: int,
    c3: int,
)
    ensures
        product0(a0 + b0, a1 + b1, a2 + b2, a3 + b3, c0, c1, c2, c3) == product0(a0, a1, a2, a3, c0, c1, c2, c3)
            + product0(b0, b1, b2, b3, c0, c1, c2, c3),
        product1(a0 + b0, a1 + b1, a2 + b2, a3 + b3, c0, c1, c2, c3) == product1(a0, a1, a2, a3, c0, c1, c2, c3)
            + product1(b0, b1, b2, b3, c0, c1, c2, c3),
        product2(a0 + b0, a1 + b1, a2 + b2, a3 + b3, c0, c1, c2, c3) == product2(a0, a1, a2, a3, c0, c1, c2, c3)
            + product2(b0, b1, b2, b3, c0, c1, c2, c3),
        product3(a0 + b0, a1 + b1, a2 + b2, a3 + b3, c0, c1, c2, c3) == product3(a0, a1, a2, a3, c0, c1, c2, c3)
            + product3(b0, b1, b2, b3, c0, c1, c2, c3),
{
    lemma_mul_is_distributive_add_other_way(c0, a0, b0);
    lemma_mul_is_distributive_add_other_way(c1, a0, b0);
    lemma_mul_is_distributive_add_other_way(c2, a0, b0);
    lemma_mul_is_distributive_add_other_way(c3, a0, b0);
    lemma_mul_is_distributive_add_other_way(c0, a1, b1);
    lemma_mul_is_distributive_add_other_way(c1, a1, b1);
    lemma_mul_is_distributive_add_other_way(c2, a1, b1);
    lemma_mul_is_distributive_add_other_way(c3, a1, b1);
    lemma_mul_is_distributive_add_other_way(c0, a2, b2);
    lemma_mul_is_distributive_add_other_way(c1, a2, b2);
    lemma_mul_is_distributive_add_other_way(c2, a2, b2);
    lemma_mul_is_distributive_add_other_way(c3, a2, b2);
    lemma_mul_is_distributive_add_other_way(c0, a3, b3);
    lemma_mul_is_distributive_add_other_way(c1, a3, b3);
    lemma_mul_is_distributive_add_other_way(c2, a3, b3);
    lemma_mul_is_distributive_add_other_way(c3, a3, b3);
}

/// A factor times each of the four forms that a coordinate of a product has, term by term.
proof fn lemma_times_terms(c: int, x: int, y: int, z: int, w: int)
    ensures
        (x + 11 * (y + z + w)) * c == x * c + 11 * (y * c + z * c + w * c),
        (x + y + 11 * (z + w)) * c == x * c + y * c + 11 * (z * c + w * c),
        (x + y + z + 11 * w) * c == x * c + y * c + z * c + 11 * (w * c),
        (x + y + z + w) * c == x * c + y * c + z * c + w * c,
        c * (x + 11 * (y + z + w)) == c * x + 11 * (c * y + c * z + c * w),
        c * (x + y + 11 * (z + w)) == c * x + c * y + 11 * (c * z + c * w),
        c * (x + y + z + 11 * w) == c * x + c * y + c * z + 11 * (c * w),
        c * (x + y + z + w) == c * x + c * y + c * z + c * w,
{
    lemma_mul_is_commutative(c, x);
    lemma_mul_is_commutative(c, y);
    lemma_mul_is_commutative(c, z);
    lemma_mul_is_commutative(c, w);
    lemma_mul_is_commutative(c, x + 11 * (y + z + w));
    lemma_mul_is_commutative(c, x + y + 11 * (z + w));
    lemma_mul_is_commutative(c, x + y + z + 11 * w);
    lemma_mul_is_commutative(c, x + y + z + w);
    assert((x + 11 * (y + z + w)) * c == x * c + 11 * (y * c + z * c + w * c)) by (nonlinear_arith);
    assert((x + y + 11 * (z + w)) * c == x * c + y * c + 11 * (z * c + w * c)) by (nonlinear_arith);
    assert((x + y + z + 11 * w) * c == x * c + y * c + z * c + 11 * (w * c)) by (nonlinear_arith);
    assert((x + y + z + w) * c == x * c + y * c + z * c + w * c) by (nonlinear_arith);
}

/// Multiplication is associative, before reduction.
proof fn lemma_product_assoc(
    a0: int,
    a1: int,
    a2: int,
    a3: int,
    b0: int,
    b1: int,
    b2: int,
    b3: int,
    c0: int,
    c1: int,
    c2: int,
    c3: int,
)
    ensures
        product0(
            product0(a0, a1, a2, a3, b0, b1, b2, b3),
            product1(a0, a1, a2, a3, b0, b1, b2, b3),
            product2(a0, a1, a2, a3, b0, b1, b2, b3),
            product3(a0, a1, a2, a3, b0, b1, b2, b3),
            c0,
            c1,
            c2,
            c3,
        ) == product0(
            a0,
            a1,
            a2,
            a3,
            product0(b0, b1, b2, b3, c0, c1, c2, c3),
            product1(b0, b1, b2, b3, c0, c1, c2, c3),
            product2(b0, b1, b2, b3, c0, c1, c2, c3),
            product3(b0, b1, b2, b3, c0, c1, c2, c3),
        ),
        product1(
            product0(a0, a1, a2, a3, b0, b1, b2, b3),
            product1(a0, a1, a2, a3, b0, b1, b2, b3),
            product2(a0, a1, a2, a3, b0, b1, b2, b3),
            product3(a0, a1, a2, a3, b0, b1, b2, b3),
            c0,
            c1,
            c2,
            c3,
        ) == product1(
            a0,
            a1,
            a2,
            a3,
            product0(b0, b1, b2, b3, c0, c1, c2, c3),
            product1(b0, b1, b2, b3, c0, c1, c2, c3),
            product2(b0, b1, b2, b3, c0, c1, c2, c3),
            product3(b0, b1, b2, b3, c0, c1, c2, c3),
        ),
        product2(
            product0(a0, a1, a2, a3, b0, b1, b2, b3),
            product1(a0, a1, a2, a3, b0, b1, b2, b3),
            product2(a0, a1, a2, a3, b0, b1, b2, b3),
            product3(a0, a1, a2, a3, b0, b1, b2, b3),
            c0,
            c1,
            c2,
            c3,
        ) == product2(
            a0,
            a1,
            a2,
            a3,
            product0(b0, b1, b2, b3, c0, c1, c2, c3),
            product1(b0, b1, b2, b3, c0, c1, c2, c3),
            product2(b0, b1, b2, b3, c0, c1, c2, c3),
            product3(b0, b1, b2, b3, c0, c1, c2, c3),
        ),
        product3(
            product0(a0, a1, a2, a3, b0, b1, b2, b3),
            product1(a0, a1, a2, a3, b0, b1, b2, b3),
            product2(a0, a1, a2, a3, b0, b1, b2, b3),
            product3(a0, a1, a2, a3, b0, b1, b2, b3),
            c0,
            c1,
            c2,
            c3,
        ) == product3(
            a0,
            a1,
            a2,
            a3,
            product0(b0, b1, b2, b3, c0, c1, c2, c3),
            product1(b0, b1, b2, b3, c0, c1, c2, c3),
            product2(b0, b1, b2, b3, c0, c1, c2, c3),
            product3(b0, b1, b2, b3, c0, c1, c2, c3),
        ),
{
    lemma_mul_is_associative(a0, b0, c0); lemma_mul_is_associative(a0, b0, c1); lemma_mul_is_associative(a0, b0, c2); lemma_mul_is_associative(a0, b0, c3);
    lemma_mul_is_associative(a0, b1, c0); lemma_mul_is_associative(a0, b1, c1); lemma_mul_is_associative(a0, b1, c2); lemma_mul_is_associative(a0, b1, c3);
    lemma_mul_is_associative(a0, b2, c0); lemma_mul_is_associative(a0, b2, c1); lemma_mul_is_associative(a0, b2, c2); lemma_mul_is_associative(a0, b2, c3);
    lemma_mul_is_associative(a0, b3, c0); lemma_mul_is_associative(a0, b3, c1); lemma_mul_is_associative(a0, b3, c2); lemma_mul_is_associative(a0, b3, c3);
    lemma_mul_is_associative(a1, b0, c0); lemma_mul_is_associative(a1, b0, c1); lemma_mul_is_associative(a1, b0, c2); lemma_mul_is_associative(a1, b0, c3);
    lemma_mul_is_associative(a1, b1, c0); lemma_mul_is_associative(a1, b1, c1); lemma_mul_is_associative(a1, b1, c2); lemma_mul_is_associative(a1, b1, c3);
    lemma_mul_is_associative(a1, b2, c0); lemma_mul_is_associative(a1, b2, c1); lemma_mul_is_associative(a1, b2, c2); lemma_mul_is_associative(a1, b2, c3);
    lemma_mul_is_associative(a1, b3, c0); lemma_mul_is_associative(a1, b3, c1); lemma_mul_is_associative(a1, b3, c2); lemma_mul_is_associative(a1, b3, c3);
    lemma_mul_is_associative(a2, b0, c0); lemma_mul_is_associative(a2, b0, c1); lemma_mul_is_associative(a2, b0, c2); lemma_mul_is_associative(a2, b0, c3);
    lemma_mul_is_associative(a2, b1, c0); lemma_mul_is_associative(a2, b1, c1); lemma_mul_is_associative(a2, b1, c2); lemma_mul_is_associative(a2, b1, c3);
    lemma_mul_is_associative(a2, b2, c0); lemma_mul_is_associative(a2, b2, c1); lemma_mul_is_associative(a2, b2, c2); lemma_mul_is_associative(a2, b2, c3);
    lemma_mul_is_associative(a2, b3, c0); lemma_mul_is_associative(a2, b3, c1); lemma_mul_is_associative(a2, b3, c2); lemma_mul_is_associative(a2, b3, c3);
    lemma_mul_is_associative(a3, b0, c0); lemma_mul_is_associative(a3, b0, c1); lemma_mul_is_associative(a3, b0, c2); lemma_mul_is_associative(a3, b0, c3);
    lemma_mul_is_associative(a3, b1, c0); lemma_mul_is_associative(a3, b1, c1); lemma_mul_is_associative(a3, b1, c2); lemma_mul_is_associative(a3, b1, c3);
    lemma_mul_is_associative(a3, b2, c0); lemma_mul_is_associative(a3, b2, c1); lemma_mul_is_associative(a3, b2, c2); lemma_mul_is_associative(a3, b2, c3);
    lemma_mul_is_associative(a3, b3, c0); lemma_mul_is_associative(a3, b3, c1); lemma_mul_is_associative(a3, b3, c2); lemma_mul_is_associative(a3, b3, c3);
    lemma_times_terms(c0, a0 * b0, a1 * b3, a2 * b2, a3 * b1);
    lemma_times_terms(c1, a0 * b0, a1 * b3, a2 * b2, a3 * b1);
    lemma_times_terms(c2, a0 * b0, a1 * b3, a2 * b2, a3 * b1);
    lemma_times_terms(c3, a0 * b0, a1 * b3, a2 * b2, a3 * b1);
    lemma_times_terms(a0, b0 * c0, b1 * c3, b2 * c2, b3 * c1);
    lemma_times_terms(a1, b0 * c0, b1 * c3, b2 * c2, b3 * c1);
    lemma_times_terms(a2, b0 * c0, b1 * c3, b2 * c2, b3 * c1);
    lemma_times_terms(a3, b0 * c0, b1 * c3, b2 * c2, b3 * c1);
    lemma_times_terms(c0, a0 * b1, a1 * b0, a2 * b3, a3 * b2);
    lemma_times_terms(c1, a0 * b1, a1 * b0, a2 * b3, a3 * b2);
    lemma_times_terms(c2, a0 * b1, a1 * b0, a2 * b3, a3 * b2);
    lemma_times_terms(c3, a0 * b1, a1 * b0, a2 * b3, a3 * b2);
    lemma_times_terms(a0, b0 * c1, b1 * c0, b2 * c3, b3 * c2);
    lemma_times_terms(a1, b0 * c1, b1 * c0, b2 * c3, b3 * c2);
    lemma_times_terms(a2, b0 * c1, b1 * c0, b2 * c3, b3 * c2);
    lemma_times_terms(a3, b0 * c1, b1 * c0, b2 * c3, b3 * c2);
    lemma_times_terms(c0, a0 * b2, a1 * b1, a2 * b0, a3 * b3);
    lemma_times_terms(c1, a0 * b2, a1 * b1, a2 * b0, a3 * b3);
    lemma_times_terms(c2, a0 * b2, a1 * b1, a2 * b0, a3 * b3);
    lemma_times_terms(c3, a0 * b2, a1 * b1, a2 * b0, a3 * b3);
    lemma_times_terms(a0, b0 * c2, b1 * c1, b2 * c0, b3 * c3);
    lemma_times_terms(a1, b0 * c2, b1 * c1, b2 * c0, b3 * c3);
    lemma_times_terms(a2, b0 * c2, b1 * c1, b2 * c0, b3 * c3);
    lemma_times_terms(a3, b0 * c2, b1 * c1, b2 * c0, b3 * c3);
    lemma_times_terms(c0, a0 * b3, a1 * b2, a2 * b1, a3 * b0);
    lemma_times_terms(c1, a0 * b3, a1 * b2, a2 * b1, a3 * b0);
    lemma_times_terms(c2, a0 * b3, a1 * b2, a2 * b1, a3 * b0);
    lemma_times_terms(c3, a0 * b3, a1 * b2, a2 * b1, a3 * b0);
    lemma_times_terms(a0, b0 * c3, b1 * c2, b2 * c1, b3 * c0);
    lemma_times_terms(a1, b0 * c3, b1 * c2, b2 * c1, b3 * c0);
    lemma_times_terms(a2, b0 * c3, b1 * c2, b2 * c1, b3 * c0);
    lemma_times_terms(a3, b0 * c3, b1 * c2, b2 * c1, b3 * c0);
}

impl Ring for Ext {
    open spec fn zero_spec() -> Self {
        Ext { c0: Felt { value: 0 }, c1: Felt { value: 0 }, c2: Felt { value: 0 }, c3: Felt { value: 0 } }
    }

    open spec fn one_spec() -> Self {
        Ext { c0: Felt { value: 1 }, c1: Felt { value: 0 }, c2: Felt { value: 0 }, c3: Felt { value: 0 } }
    }

    open spec fn plus(self, other: Self) -> Self {
        Ext {
            c0: self.c0.plus(other.c0),
            c1: self.c1.plus(other.c1),
            c2: self.c2.plus(other.c2),
            c3: self.c3.plus(other.c3),
        }
    }

    open spec fn times(self, other: Self) -> Self {
        product(
            self.c0.value as int,
            self.c1.value as int,
            self.c2.value as int,
            self.c3.value as int,
            other.c0.value as int,
            other.c1.value as int,
            other.c2.value as int,
            other.c3.value as int,
        )
    }

    open spec fn negated(self) -> Self {
        Ext {
            c0: self.c0.negated(),
            c1: self.c1.negated(),
            c2: self.c2.negated(),
            c3: self.c3.negated(),
        }
    }

    proof fn law_add_comm(a: Self, b: Self) {
    }

    proof fn law_add_assoc(a: Self, b: Self, c: Self) {
        Felt::law_add_assoc(a.c0, b.c0, c.c0);
        Felt::law_add_assoc(a.c1, b.c1, c.c1);
        Felt::law_add_assoc(a.c2, b.c2, c.c2);
        Felt::law_add_assoc(a.c3, b.c3, c.c3);
    }

    proof fn law_add_reduced(a: Self, b: Self) {
    }

    proof fn law_neg(a: Self) {
        Felt::law_neg(a.c0);
        Felt::law_neg(a.c1);
        Felt::law_neg(a.c2);
        Felt::law_neg(a.c3);
    }

    proof fn law_mul_comm(a: Self, b: Self) {
        lemma_product_comm(
            a.c0.value as int, a.c1.value as int, a.c2.value as int, a.c3.value as int,
            b.c0.value as int, b.c1.value as int, b.c2.value as int, b.c3.value as int,
        );
    }

    proof fn law_mul_assoc(a: Self, b: Self, c: Self) {
        let (a0, a1, a2, a3) = (a.c0.value as int, a.c1.value as int, a.c2.value as int, a.c3.value as int);
        let (b0, b1, b2, b3) = (b.c0.value as int, b.c1.value as int, b.c2.value as int, b.c3.value as int);
        let (c0, c1, c2, c3) = (c.c0.value as int, c.c1.value as int, c.c2.value as int, c.c3.value as int);
        let s0 = product0(a0, a1, a2, a3, b0, b1, b2, b3);
        let s1 = product1(a0, a1, a2, a3, b0, b1, b2, b3);
        let s2 = product2(a0, a1, a2, a3, b0, b1, b2, b3);
        let s3 = product3(a0, a1, a2, a3, b0, b1, b2, b3);
        let t0 = product0(b0, b1, b2, b3, c0, c1, c2, c3);
        let t1 = product1(b0, b1, b2, b3, c0, c1, c2, c3);
        let t2 = product2(b0, b1, b2, b3, c0, c1, c2, c3);
        let t3 = product3(b0, b1, b2, b3, c0, c1, c2, c3);
        lemma_product_reduced(s0, s1, s2, s3, c0, c1, c2, c3);
        lemma_product_assoc(a0, a1, a2, a3, b0, b1, b2, b3, c0, c1, c2, c3);
        lemma_product_comm(a0, a1, a2, a3, t0, t1, t2, t3);
        lemma_product_reduced(t0, t1, t2, t3, a0, a1, a2, a3);
        Self::law_mul_comm(a, b.times(c));
    }

    proof fn law_mul_reduced(a: Self, b: Self) {
    }

    proof fn law_mul_one(a: Self) {
    }

    proof fn law_distrib(a: Self, b: Self, c: Self) {
        let (a0, a1, a2, a3) = (a.c0.value as int, a.c1.value as int, a.c2.value as int, a.c3.value as int);
        let (b0, b1, b2, b3) = (b.c0.value as int, b.c1.value as int, b.c2.value as int, b.c3.value as int);
        let (c0, c1, c2, c3) = (c.c0.value as int, c.c1.value as int, c.c2.value as int, c.c3.value as int);
        let p = P as int;
        Self::law_mul_comm(a, b.plus(c));
        lemma_product_reduced(b0 + c0, b1 + c1, b2 + c2, b3 + c3, a0, a1, a2, a3);
        Self::law_mul_comm(a, b);
        Self::law_mul_comm(a, c);
        lemma_product_add(b0, b1, b2, b3, c0, c1, c2, c3, a0, a1, a2, a3);
        lemma_add_mod_noop(product0(b0, b1, b2, b3, a0, a1, a2, a3), product0(c0, c1, c2, c3, a0, a1, a2, a3), p);
        lemma_add_mod_noop(product1(b0, b1, b2, b3, a0, a1, a2, a3), product1(c0, c1, c2, c3, a0, a1, a2, a3), p);
        lemma_add_mod_noop(product2(b0, b1, b2, b3, a0, a1, a2, a3), product2(c0, c1, c2, c3, a0, a1, a2, a3), p);
        lemma_add_mod_noop(product3(b0, b1, b2, b3, a0, a1, a2, a3), product3(c0, c1, c2, c3, a0, a1, a2, a3), p);
    }

    proof fn law_constants() {
    }
}

/// A BabyBear element as an element of the extension.
pub open spec fn embed(a: Felt) -> Ext {
    Ext { c0: a, c1: Felt { value: 0 }, c2: Felt { value: 0 }, c3: Felt { value: 0 } }
}

/// BabyBear is a subring of the extension.
pub proof fn lemma_embed(a: Felt, b: Felt)
    ensures
        embed(a).plus(embed(b)) == embed(a.plus(b)),
        embed(a).times(embed(b)) == embed(a.times(b)),
        embed(a).negated() == embed(a.negated()),
        embed(Felt::zero_spec()) == Ext::zero_spec(),
        embed(Felt::one_spec()) == Ext::one_spec(),
{
}

pub proof fn lemma_embed_pow(a: Felt, n: nat)
    ensures
        ring::pow(embed(a), n) == embed(ring::pow(a, n)),
    decreases n,
{
    if n > 0 {
        lemma_embed_pow(a, (n - 1) as nat);
        lemma_embed(ring::pow(a, (n - 1) as nat), a);
    }
}

/// The product of two values as an integer.
fn wide_product(a: Felt, b: Felt) -> (r: u128)
    ensures
        r == a.value * b.value,
        r <= 0xffff_fffe_0000_0001,
{
    assert(a.value * b.value <= 0xffff_ffff * 0xffff_ffff) by (nonlinear_arith)
        requires
            a.value <= 0xffff_ffff,
            b.value <= 0xffff_ffff,
    ;
    a.value as u128 * b.value as u128
}

fn residue(n: u128) -> (r: Felt)
    ensures
        r == babybear::felt(n as int),
{
    Felt { value: (n % (P as u128)) as u32 }
}

impl Field for Ext {
    fn zero() -> (r: Self) {
        Ext { c0: Felt { value: 0 }, c1: Felt { value: 0 }, c2: Felt { value: 0 }, c3: Felt { value: 0 } }
    }

    fn one() -> (r: Self) {
        Ext { c0: Felt { value: 1 }, c1: Felt { value: 0 }, c2: Felt { value: 0 }, c3: Felt { value: 0 } }
    }

    fn add(self, other: Self) -> (r: Self) {
        Ext {
            c0: self.c0.add(other.c0),
            c1: self.c1.add(other.c1),
            c2: self.c2.add(other.c2),
            c3: self.c3.add(other.c3),
        }
    }

    fn mul(self, other: Self) -> (r: Self) {
        let (a, b) = (self, other);
        let m0: u128 = wide_product(a.c1, b.c3) + wide_product(a.c2, b.c2) + wide_product(a.c3, b.c1);
        let m1: u128 = wide_product(a.c2, b.c3) + wide_product(a.c3, b.c2);
        let n0: u128 = wide_product(a.c0, b.c0) + 11 * m0;
        let n1: u128 = wide_product(a.c0, b.c1) + wide_product(a.c1, b.c0) + 11 * m1;
        let n2: u128 = wide_product(a.c0, b.c2) + wide_product(a.c1, b.c1) + wide_product(a.c2, b.c0) + 11
            * wide_product(a.c3, b.c3);
        let n3: u128 = wide_product(a.c0, b.c3) + wide_product(a.c1, b.c2) + wide_product(a.c2, b.c1)
            + wide_product(a.c3, b.c0);
        Ext { c0: residue(n0), c1: residue(n1), c2: residue(n2), c3: residue(n3) }
    }

    fn neg(self) -> (r: Self) {
        Ext { c0: self.c0.neg(), c1: self.c1.neg(), c2: self.c2.neg(), c3: self.c3.neg() }
    }

    fn sub(self, other: Self) -> (r: Self) {
        self.add(other.neg())
    }

    fn inverse(self) -> (r: Self) {
        ext_inverse(self)
    }

    fn equals(self, other: Self) -> (r: bool) {
        self.c0.equals(other.c0) && self.c1.equals(other.c1) && self.c2.equals(other.c2)
            && self.c3.equals(other.c3)
    }
}

impl Ext {
    /// A BabyBear element as an element of the extension.
    pub fn from_base(a: Felt) -> (r: Ext)
        ensures
            r == embed(a),
    {
        Ext { c0: a, c1: Felt { value: 0 }, c2: Felt { value: 0 }, c3: Felt { value: 0 } }
    }
}

/// Calls `inverse` of `p3_field::Field` on an extension element that is not zero: the product of
/// the argument and the result is one. The result is handed back in canonical form.
#[verifier::external_body]
fn ext_inverse(a: Ext) -> (r: Ext)
    requires
        ring::reduced(a) != Ext::zero_spec(),
    ensures
        a.times(r) == Ext::one_spec(),
        ring::reduced(r) == r,
{
    let c = [a.c0.value, a.c1.value, a.c2.value, a.c3.value].map(p3_baby_bear::BabyBear::from_wrapped_u32);
    let x = p3_field::extension::BinomialExtensionField::<p3_baby_bear::BabyBear, 4>::from_base_slice(&c);
    let y = p3_field::Field::inverse(&x);
    let v: &[p3_baby_bear::BabyBear] = y.as_base_slice();
    Ext {
        c0: Felt { value: v[0].as_canonical_u32() },
        c1: Felt { value: v[1].as_canonical_u32() },
        c2: Felt { value: v[2].as_canonical_u32() },
        c3: Felt { value: v[3].as_canonical_u32() },
    }
}

} // verus!
