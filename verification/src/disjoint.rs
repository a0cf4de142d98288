//! The coset of the generator meets no subgroup of two-power order.

use vstd::prelude::*;
use vstd::arithmetic::power2::*;
use crate::babybear;
use crate::babybear::Felt;
use crate::domain;
use crate::domain::TwoAdic;
use crate::lde;
use crate::lde::Coset;
use crate::quotient;
use crate::ring;
use crate::ring::Ring;

verus! {

proof fn lemma_square(k: nat, x: u32, y: u32)
    requires
        ring::pow(lde::generator(), pow2(k)) == (Felt { value: x }),
        (x * x) % (babybear::P as int) == y,
    ensures
        ring::pow(lde::generator(), pow2(k + 1)) == (Felt { value: y }),
{
    lemma_pow2_unfold(k + 1);
    ring::lemma_pow_add(lde::generator(), pow2(k), pow2(k));
}

#[verifier::spinoff_prover]
proof fn lemma_squares_9()
    ensures
        ring::pow(lde::generator(), pow2(9)) == (Felt { value: 762057780 }),
{
    lemma2_to64();
    ring::lemma_pow_one(lde::generator());
    lemma_square(0, 31, 961);
    lemma_square(1, 961, 923521);
    lemma_square(2, 923521, 1279552858);
    lemma_square(3, 1279552858, 1577897433);
    lemma_square(4, 1577897433, 1411845927);
    lemma_square(5, 1411845927, 331616158);
    lemma_square(6, 331616158, 732065034);
    lemma_square(7, 732065034, 54245443);
    lemma_square(8, 54245443, 762057780);
}

#[verifier::spinoff_prover]
proof fn lemma_squares_18()
    requires
        ring::pow(lde::generator(), pow2(9)) == (Felt { value: 762057780 }),
    ensures
        ring::pow(lde::generator(), pow2(18)) == (Felt { value: 143112044 }),
{
    lemma_square(9, 762057780, 877050386);
    lemma_square(10, 877050386, 709896991);
    lemma_square(11, 709896991, 532145872);
    lemma_square(12, 532145872, 1159211260);
    lemma_square(13, 1159211260, 235347371);
    lemma_square(14, 235347371, 891708573);
    lemma_square(15, 891708573, 10258823);
    lemma_square(16, 10258823, 1986590975);
    lemma_square(17, 1986590975, 143112044);
}

#[verifier::spinoff_prover]
proof fn lemma_squares_27()
    requires
        ring::pow(lde::generator(), pow2(18)) == (Felt { value: 143112044 }),
    ensures
        ring::pow(lde::generator(), pow2(27)) == (Felt { value: 1995471372 }),
{
    lemma_square(18, 143112044, 246962965);
    lemma_square(19, 246962965, 818523694);
    lemma_square(20, 818523694, 250130935);
    lemma_square(21, 250130935, 764234573);
    lemma_square(22, 764234573, 1101895250);
    lemma_square(23, 1101895250, 455464017);
    lemma_square(24, 455464017, 660339856);
    lemma_square(25, 660339856, 1520628512);
    lemma_square(26, 1520628512, 1995471372);
}

/// A power of two of a number whose smaller power of two is one is one.
proof fn lemma_stays_one(x: Felt, small: nat, large: nat)
    requires
        small <= large,
        ring::pow(x, pow2(small)) == Felt::one_spec(),
    ensures
        ring::pow(x, pow2(large)) == Felt::one_spec(),
{
    let d = (large - small) as nat;
    lemma_pow2_adds(small, d);
    ring::lemma_pow_pow(x, pow2(small), pow2(d));
    ring::lemma_pow_base_one::<Felt>(pow2(d));
}

/// The vanishing polynomial of a subgroup of two-power order is nowhere zero on the coset of the
/// generator.
pub proof fn law_disjoint(log_n: nat, coset: Coset, i: int)
    requires
        log_n <= 27,
        coset.log_n <= 27,
        i >= 0,
        ring::reduced(coset.shift) == lde::generator(),
    ensures
        quotient::vanishing(log_n, quotient::point(coset, i)) != Felt::zero_spec(),
{
    let x = quotient::point(coset, i);
    let w = Felt::root(coset.log_n as nat);
    if quotient::vanishing(log_n, x) == Felt::zero_spec() {
        Felt::law_constants();
        ring::lemma_sub_zero(ring::pow(x, pow2(log_n)), Felt::one_spec());
        ring::lemma_pow_reduced(x, pow2(log_n));
        lemma_stays_one(x, log_n, 27);
        let n = pow2(27);
        ring::lemma_pow_mul(ring::pow(w, i as nat), coset.shift, n);
        ring::lemma_pow_of_reduced(coset.shift, n);
        domain::lemma_root_order::<Felt>(coset.log_n as nat);
        lemma_stays_one(w, coset.log_n as nat, 27);
        ring::lemma_pow_pow(w, i as nat, n);
        ring::lemma_pow_pow(w, n, i as nat);
        vstd::arithmetic::mul::lemma_mul_is_commutative(i, n as int);
        ring::lemma_pow_base_one::<Felt>(i as nat);
        lemma_squares_9();
        lemma_squares_18();
        lemma_squares_27();
        let g = ring::pow(lde::generator(), n);
        Felt::law_mul_comm(Felt::one_spec(), g);
        ring::lemma_mul_one(g);
        ring::lemma_pow_reduced(lde::generator(), n);
    }
}

/// The selectors of a trace domain can be computed on a coset of the generator that is no smaller.
pub proof fn lemma_selectable(trace: Coset, coset: Coset)
    requires
        ring::reduced(trace.shift) == Felt::one_spec(),
        ring::reduced(coset.shift) == lde::generator(),
        trace.log_n <= coset.log_n <= 27,
    ensures
        quotient::selectable(trace, coset),
{
    assert forall|i: int| 0 <= i < pow2(coset.log_n as nat) implies quotient::vanishing(
        trace.log_n as nat,
        #[trigger] quotient::point(coset, i),
    ) != Felt::zero_spec() by {
        law_disjoint(trace.log_n as nat, coset, i);
    }
}

/// The shifts of the chunks of a coset of the generator are not zero.
pub proof fn lemma_chunk_shift(coset: Coset, i: nat)
    requires
        coset.log_n <= 27,
        ring::reduced(coset.shift) == lde::generator(),
    ensures
        ring::reduced(coset.shift.times(ring::pow(Felt::root(coset.log_n as nat), i)))
            != Felt::zero_spec(),
{
    let bits = coset.log_n as nat;
    let w = Felt::root(bits);
    let v = ring::pow(w, (pow2(bits) - 1) as nat);
    let x = coset.shift.times(ring::pow(w, i));
    let y = ring::pow(v, i);
    domain::lemma_root_inverse::<Felt>(bits);
    ring::lemma_pow_mul(w, v, i);
    ring::lemma_pow_base_one::<Felt>(i);
    Felt::law_mul_assoc(coset.shift, ring::pow(w, i), y);
    ring::lemma_mul_one(coset.shift);
    assert(x.times(y) == lde::generator());
    ring::lemma_mul_reduced(x, y);
    ring::lemma_mul_zero(y);
    Felt::law_mul_comm(Felt::zero_spec(), y);
}

} // verus!
