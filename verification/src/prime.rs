//! Every element of BabyBear but zero has an inverse: the order of the field is a prime, since it
//! has an element whose powers are too many for a proper divisor.

use vstd::prelude::*;
use vstd::arithmetic::div_mod::*;
use vstd::arithmetic::mul::*;
use vstd::arithmetic::power2::*;
use vstd::set_lib::*;
use crate::babybear::{Felt, P};
use crate::barycentric;
use crate::domain;
use crate::domain::TwoAdic;
use crate::ring;
use crate::ring::Ring;

verus! {

/// Whether two elements are the same modulo `d`.
spec fn same(a: Felt, b: Felt, d: int) -> bool {
    a.value as int % d == b.value as int % d
}

proof fn lemma_mod_divisor(n: int, d: int)
    requires
        0 < d,
        P as int % d == 0,
    ensures
        (n % (P as int)) % d == n % d,
{
    let p = P as int;
    lemma_fundamental_div_mod(p, d);
    lemma_fundamental_div_mod(n, p);
    let (e, q) = (p / d, n / p);
    assert(n == d * (e * q) + n % p) by (nonlinear_arith)
        requires
            p == d * e,
            n == p * q + n % p,
    ;
    lemma_mod_multiples_vanish(e * q, n % p, d);
}

proof fn lemma_same_times(a: Felt, b: Felt, c: Felt, d: int)
    requires
        0 < d,
        P as int % d == 0,
        same(a, b, d),
    ensures
        same(a.times(c), b.times(c), d),
{
    let (x, y, z) = (a.value as int, b.value as int, c.value as int);
    lemma_mod_divisor(x * z, d);
    lemma_mod_divisor(y * z, d);
    lemma_mul_mod_noop_left(x, z, d);
    lemma_mul_mod_noop_left(y, z, d);
    lemma_mod_pos_bound(x * z, P as int);
    lemma_mod_pos_bound(y * z, P as int);
}

/// The powers of an element that is one modulo `d` are one modulo `d`.
proof fn lemma_same_pow(a: Felt, d: int, n: nat)
    requires
        0 < d,
        P as int % d == 0,
        same(a, Felt::one_spec(), d),
    ensures
        same(ring::pow(a, n), Felt::one_spec(), d),
    decreases n,
{
    if n > 0 {
        lemma_same_pow(a, d, (n - 1) as nat);
        lemma_same_times(ring::pow(a, (n - 1) as nat), Felt::one_spec(), a, d);
        assert(Felt::one_spec().times(a) == ring::reduced(a)) by {
            ring::lemma_mul_one(a);
        }
        lemma_mod_divisor(a.value as int, d);
        lemma_mod_pos_bound(a.value as int, P as int);
    }
}

/// A root of unity of order `2^n` has that order modulo every divisor.
proof fn lemma_order(n: nat, k: nat, d: int)
    requires
        n <= 27,
        0 < k < pow2(n),
        1 < d,
        P as int % d == 0,
    ensures
        !same(ring::pow(Felt::root(n), k), Felt::one_spec(), d),
    decreases n,
{
    lemma2_to64();
    let w = Felt::root(n);
    if n > 0 {
        let h = pow2((n - 1) as nat);
        lemma_pow2_unfold(n);
        if k % 2 == 0 {
            let j = (k / 2) as nat;
            ring::lemma_pow_pow(w, 2, j);
            assert(2 * j == k);
            Felt::law_root_square(n);
            reveal_with_fuel(ring::pow, 3);
            ring::lemma_mul_one(w);
            ring::lemma_mul_reduced(w, w);
            assert(ring::pow(w, 2) == Felt::root((n - 1) as nat));
            lemma_order((n - 1) as nat, j, d);
        } else if same(ring::pow(w, k), Felt::one_spec(), d) {
            lemma_same_pow(ring::pow(w, k), d, h);
            ring::lemma_pow_pow(w, k, h);
            ring::lemma_pow_pow(w, h, k);
            lemma_mul_is_commutative(k as int, h as int);
            domain::lemma_root_order::<Felt>(n);
            barycentric::lemma_minus_one_odd::<Felt>(k);
            assert(same(Felt::one_spec().negated(), Felt::one_spec(), d));
            let m = Felt::one_spec().negated();
            assert(m.value == P - 1);
            // d divides P and P - 2, so it divides 2
            lemma_sub_mod_noop(P - 1, 1, d);
            lemma_sub_mod_noop(P as int, P - 2, d);
            lemma_small_mod(0, d as nat);
            assert(2int % d == 0);
            if d > 2 {
                lemma_small_mod(2, d as nat);
            }
            assert(false);
        }
    }
}

/// A divisor of the order of the field is one, or at least `2^27`.
proof fn lemma_divisor(d: int)
    requires
        1 < d,
        P as int % d == 0,
    ensures
        d >= pow2(27),
{
    let w = Felt::root(27);
    let n = pow2(27);
    let residues = Seq::new(n, |j: int| ring::pow(w, j as nat).value as int % d);
    assert forall|i: int, j: int|
        0 <= i < residues.len() && 0 <= j < residues.len() && i != j implies residues[i]
        != residues[j] by {
        let (lo, hi) = if i < j {
            (i as nat, j as nat)
        } else {
            (j as nat, i as nat)
        };
        if residues[i] == residues[j] {
            let k = (hi - lo) as nat;
            let back = (n - lo) as nat;
            let c = ring::pow(w, back);
            lemma_same_times(ring::pow(w, hi), ring::pow(w, lo), c, d);
            ring::lemma_pow_add(w, hi, back);
            ring::lemma_pow_add(w, lo, back);
            ring::lemma_pow_add(w, k, n);
            assert(hi + back == k + n && lo + back == n);
            domain::lemma_root_order::<Felt>(27);
            ring::lemma_mul_one(ring::pow(w, k));
            ring::lemma_pow_reduced(w, k);
            lemma_order(27, k, d);
        }
    }
    assert(residues.no_duplicates());
    residues.unique_seq_to_set();
    lemma_int_range(0, d);
    assert(residues.to_set().subset_of(set_int_range(0, d))) by {
        assert forall|r: int| residues.to_set().contains(r) implies set_int_range(0, d).contains(
            r,
        ) by {
            let j = choose|j: int| 0 <= j < residues.len() && residues[j] == r;
            lemma_mod_pos_bound(ring::pow(w, j as nat).value as int, d);
        }
    }
    lemma_len_subset(residues.to_set(), set_int_range(0, d));
}

/// The order of BabyBear is a prime.
pub proof fn law_order_is_prime(d: int)
    requires
        1 < d < P,
    ensures
        P as int % d != 0,
{
    if P as int % d == 0 {
        lemma_fundamental_div_mod(P as int, d);
        let e = P as int / d;
        lemma_divisor(d);
        lemma2_to64();
        assert(e > 1) by (nonlinear_arith)
            requires
                P as int == d * e,
                1 < d < P,
        ;
        lemma_mul_is_commutative(d, e);
        lemma_mod_multiples_basic(d, e);
        lemma_divisor(e);
        assert(d * e >= 0x800_0000 * 0x800_0000) by (nonlinear_arith)
            requires
                d >= 0x800_0000,
                e >= 0x800_0000,
        ;
        assert(false);
    }
}

/// The inverse of a number modulo the order of the field.
proof fn lemma_inverse(a: int) -> (b: int)
    requires
        0 < a < P,
    ensures
        (a * b) % (P as int) == 1,
    decreases a,
{
    let p = P as int;
    if a == 1 {
        lemma_small_mod(1, p as nat);
        1
    } else {
        law_order_is_prime(a);
        let (q, r) = (p / a, p % a);
        lemma_fundamental_div_mod(p, a);
        lemma_mod_pos_bound(p, a);
        let c = lemma_inverse(r);
        let b = -(q * c);
        assert(a * b == p * (-c) + r * c) by (nonlinear_arith)
            requires
                p == a * q + r,
                b == -(q * c),
        ;
        lemma_mod_multiples_vanish(-c, r * c, p);
        b
    }
}

/// Every element but zero has an inverse.
pub proof fn law_nonzero_is_invertible(a: Felt)
    requires
        ring::reduced(a) != Felt::zero_spec(),
    ensures
        ring::invertible(a),
{
    let p = P as int;
    let v = a.value as int % p;
    lemma_mod_pos_bound(a.value as int, p);
    let b = lemma_inverse(v);
    let r = Felt { value: (b % p) as u32 };
    lemma_mod_bound(b, p);
    lemma_mul_mod_noop_general(a.value as int, b, p);
    lemma_mul_mod_noop_left(a.value as int, b, p);
    assert(a.times(r) == Felt::one_spec());
}

} // verus!
