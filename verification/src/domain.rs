//! Fields with roots of unity of order `2^k`.

use vstd::prelude::*;
use vstd::arithmetic::power2::*;
use p3_field::{AbstractExtensionField, AbstractField, PrimeField32, TwoAdicField};
use crate::babybear;
use crate::babybear::Felt;
use crate::ext;
use crate::ext::Ext;
use crate::field::Field;
use crate::ring;
use crate::ring::Ring;

verus! {

/// A field whose multiplicative group has a subgroup of order `2^k` for every `k` up to
/// [`TwoAdic::two_adicity`].
pub trait TwoAdic: Field {
    spec fn two_adicity() -> nat;

    /// A generator of the largest of these subgroups.
    spec fn largest_root() -> Self;

    /// A generator of the subgroup of order `2^bits`.
    spec fn root(bits: nat) -> Self;

    proof fn law_root_shape(bits: nat)
        requires
            bits <= Self::two_adicity(),
        ensures
            Self::root(bits) == ring::pow(Self::largest_root(), pow2((Self::two_adicity() - bits) as nat)),
    ;

    proof fn law_root_square(bits: nat)
        requires
            0 < bits <= Self::two_adicity(),
        ensures
            Self::root(bits).times(Self::root(bits)) == Self::root((bits - 1) as nat),
    ;

    proof fn law_root_ends()
        ensures
            Self::root(0) == Self::one_spec(),
            Self::root(1) == Self::one_spec().negated(),
            1 <= Self::two_adicity() < 32,
    ;

    /// Two has an inverse.
    proof fn law_half() -> (half: Self)
        ensures
            Self::one_spec().plus(Self::one_spec()).times(half) == Self::one_spec(),
    ;

    fn two_adic_generator(bits: usize) -> (r: Self)
        requires
            bits <= Self::two_adicity(),
        ensures
            r == Self::root(bits as nat),
    ;
}

/// The root of order `2^bits`, raised to `2^k`, is the root of order `2^(bits - k)`.
pub proof fn lemma_root_pow2<F: TwoAdic>(bits: nat, k: nat)
    requires
        k <= bits <= F::two_adicity(),
    ensures
        ring::pow(F::root(bits), pow2(k)) == F::root((bits - k) as nat),
    decreases k,
{
    let g = F::root(bits);
    if k == 0 {
        lemma2_to64();
        ring::lemma_pow_one(g);
        if bits == 0 {
            F::law_root_ends();
            F::law_constants();
        } else {
            lemma_root_reduced::<F>(bits);
        }
    } else {
        lemma_root_pow2::<F>(bits, (k - 1) as nat);
        lemma_pow2_square(g, (k - 1) as nat);
        F::law_root_square((bits - (k - 1)) as nat);
    }
}

/// Roots of unity are reduced.
pub proof fn lemma_root_reduced<F: TwoAdic>(bits: nat)
    requires
        bits <= F::two_adicity(),
    ensures
        ring::reduced(F::root(bits)) == F::root(bits),
{
    F::law_root_shape(bits);
    ring::lemma_pow_reduced(F::largest_root(), pow2((F::two_adicity() - bits) as nat));
}

/// A root of order `2^bits`, raised to `2^bits`, is one, and halfway there it is minus one.
pub proof fn lemma_root_order<F: TwoAdic>(bits: nat)
    requires
        bits <= F::two_adicity(),
    ensures
        ring::pow(F::root(bits), pow2(bits)) == F::one_spec(),
        bits > 0 ==> ring::pow(F::root(bits), pow2((bits - 1) as nat)) == F::one_spec().negated(),
{
    F::law_root_ends();
    lemma_root_pow2::<F>(bits, bits);
    if bits > 0 {
        lemma_root_pow2::<F>(bits, (bits - 1) as nat);
    }
}

/// The inverse of a root of unity is one of its powers.
pub proof fn lemma_root_inverse<F: TwoAdic>(bits: nat)
    requires
        bits <= F::two_adicity(),
    ensures
        F::root(bits).times(ring::pow(F::root(bits), (pow2(bits) - 1) as nat)) == F::one_spec(),
{
    let g = F::root(bits);
    lemma_root_order::<F>(bits);
    lemma_pow2_pos(bits);
    F::law_mul_comm(g, ring::pow(g, (pow2(bits) - 1) as nat));
}

/// The generator of the subgroup of order `2^27` of BabyBear.
pub open spec fn felt_root_27() -> Felt {
    Felt { value: 0x1a42_7a41 }
}

/// The generator of the subgroup of order `2^29` of the extension.
pub open spec fn ext_root_29() -> Ext {
    Ext { c0: Felt { value: 0 }, c1: Felt { value: 0 }, c2: Felt { value: 0 }, c3: Felt { value: 124907976 } }
}

proof fn lemma_pow2_square<F: Ring>(g: F, k: nat)
    ensures
        ring::pow(g, pow2(k)).times(ring::pow(g, pow2(k))) == ring::pow(g, pow2(k + 1)),
{
    lemma_pow2_unfold(k + 1);
    ring::lemma_pow_add(g, pow2(k), pow2(k));
}

proof fn lemma_felt_square(k: nat, x: u32, y: u32)
    requires
        ring::pow(felt_root_27(), pow2(k)) == (Felt { value: x }),
        (x * x) % (babybear::P as int) == y,
    ensures
        ring::pow(felt_root_27(), pow2(k + 1)) == (Felt { value: y }),
{
    lemma_pow2_square(felt_root_27(), k);
}

proof fn lemma_felt_squares_9()
    ensures
        ring::pow(felt_root_27(), pow2(9)) == (Felt { value: 0x5cf5713f }),
{
    lemma2_to64();
    ring::lemma_pow_one(felt_root_27());
    lemma_felt_square(0, 0x1a427a41, 0x3a26eef8);
    lemma_felt_square(1, 0x3a26eef8, 0x4483d85a);
    lemma_felt_square(2, 0x4483d85a, 0x3bd57996);
    lemma_felt_square(3, 0x3bd57996, 0x4b859b3d);
    lemma_felt_square(4, 0x4b859b3d, 0x21fd55bc);
    lemma_felt_square(5, 0x21fd55bc, 0x18adc27d);
    lemma_felt_square(6, 0x18adc27d, 0xba067a3);
    lemma_felt_square(7, 0xba067a3, 0x3e9430e8);
    lemma_felt_square(8, 0x3e9430e8, 0x5cf5713f);
}

proof fn lemma_felt_squares_18()
    requires
        ring::pow(felt_root_27(), pow2(9)) == (Felt { value: 0x5cf5713f }),
    ensures
        ring::pow(felt_root_27(), pow2(18)) == (Felt { value: 0x688442f9 }),
{
    lemma_felt_square(9, 0x5cf5713f, 0x4cabd6a6);
    lemma_felt_square(10, 0x4cabd6a6, 0x54c131f4);
    lemma_felt_square(11, 0x54c131f4, 0x77cad399);
    lemma_felt_square(12, 0x77cad399, 0x62c3d2b1);
    lemma_felt_square(13, 0x62c3d2b1, 0x11c33e2a);
    lemma_felt_square(14, 0x11c33e2a, 0x4c734715);
    lemma_felt_square(15, 0x4c734715, 0x4fe61226);
    lemma_felt_square(16, 0x4fe61226, 0x145e952d);
    lemma_felt_square(17, 0x145e952d, 0x688442f9);
}

proof fn lemma_felt_squares_27()
    requires
        ring::pow(felt_root_27(), pow2(18)) == (Felt { value: 0x688442f9 }),
    ensures
        ring::pow(felt_root_27(), pow2(26)) == (Felt { value: 0x78000000 }),
        ring::pow(felt_root_27(), pow2(27)) == (Felt { value: 0x1 }),
{
    lemma_felt_square(18, 0x688442f9, 0x67456167);
    lemma_felt_square(19, 0x67456167, 0x17b56c64);
    lemma_felt_square(20, 0x17b56c64, 0x669d6090);
    lemma_felt_square(21, 0x669d6090, 0x2d4cc4da);
    lemma_felt_square(22, 0x2d4cc4da, 0xbb4c4e4);
    lemma_felt_square(23, 0xbb4c4e4, 0x5ee99486);
    lemma_felt_square(24, 0x5ee99486, 0x67055c21);
    lemma_felt_square(25, 0x67055c21, 0x78000000);
    lemma_felt_square(26, 0x78000000, 0x1);
}

impl TwoAdic for Felt {
    open spec fn two_adicity() -> nat {
        27
    }

    open spec fn largest_root() -> Self {
        felt_root_27()
    }

    proof fn law_root_shape(bits: nat) {
    }

    open spec fn root(bits: nat) -> Self {
        ring::pow(felt_root_27(), pow2((27 - bits) as nat))
    }

    proof fn law_root_square(bits: nat) {
        lemma_pow2_square(felt_root_27(), (27 - bits) as nat);
    }

    proof fn law_root_ends() {
        lemma_felt_squares_9();
        lemma_felt_squares_18();
        lemma_felt_squares_27();
    }

    proof fn law_half() -> (half: Self) {
        assert((2 * 1006632961int) % 0x7800_0001int == 1);
        Felt { value: 1006632961 }
    }

    fn two_adic_generator(bits: usize) -> (r: Self) {
        felt_two_adic_generator(bits)
    }
}

/// Calls `two_adic_generator` of `p3_field::TwoAdicField` on `BabyBear`: the generator of the
/// subgroup of order `2^bits` is the power `2^(27 - bits)` of that of the largest subgroup.
#[verifier::external_body]
fn felt_two_adic_generator(bits: usize) -> (r: Felt)
    requires
        bits <= 27,
    ensures
        r == Felt::root(bits as nat),
{
    Felt { value: p3_baby_bear::BabyBear::two_adic_generator(bits).as_canonical_u32() }
}

/// The square of the generator of the largest subgroup of the extension.
spec fn ext_root_28() -> Ext {
    Ext { c0: Felt { value: 0 }, c1: Felt { value: 0 }, c2: Felt { value: 1996171314 }, c3: Felt { value: 0 } }
}

#[verifier::spinoff_prover]
proof fn lemma_ext_root_square()
    ensures
        ext_root_29().times(ext_root_29()) == ext_root_28(),
{
    assert(124907976int * 124907976int == 15602002468416576int);
    assert((11 * 15602002468416576int) % 0x7800_0001int == 1996171314int);
}

#[verifier::spinoff_prover]
proof fn lemma_ext_root_fourth_power()
    ensures
        ext_root_28().times(ext_root_28()) == ext::embed(felt_root_27()),
{
    assert(1996171314int * 1996171314int == 3984699914836486596int);
    assert((11 * 3984699914836486596int) % 0x7800_0001int == 0x1a42_7a41int);
}

/// The generator of the largest subgroup of BabyBear is the fourth power of that of the
/// extension.
proof fn lemma_ext_root_fourth()
    ensures
        ring::pow(ext_root_29(), pow2(2)) == ext::embed(felt_root_27()),
{
    let g = ext_root_29();
    assert(pow2(0) == 1) by {
        lemma2_to64();
    }
    ring::lemma_pow_one(g);
    assert(ring::reduced(g) == g);
    lemma_pow2_square(g, 0);
    lemma_pow2_square(g, 1);
    lemma_ext_root_square();
    lemma_ext_root_fourth_power();
}

/// The roots of unity of BabyBear are roots of unity of the extension.
pub proof fn lemma_root_embed(bits: nat)
    requires
        bits <= 27,
    ensures
        Ext::root(bits) == ext::embed(Felt::root(bits)),
{
    let k = (27 - bits) as nat;
    lemma_ext_root_fourth();
    ring::lemma_pow_pow(ext_root_29(), pow2(2), pow2(k));
    lemma_pow2_adds(2, k);
    ext::lemma_embed_pow(felt_root_27(), pow2(k));
}

impl TwoAdic for Ext {
    open spec fn two_adicity() -> nat {
        29
    }

    open spec fn largest_root() -> Self {
        ext_root_29()
    }

    proof fn law_root_shape(bits: nat) {
    }

    open spec fn root(bits: nat) -> Self {
        ring::pow(ext_root_29(), pow2((29 - bits) as nat))
    }

    proof fn law_root_square(bits: nat) {
        lemma_pow2_square(ext_root_29(), (29 - bits) as nat);
    }

    proof fn law_root_ends() {
        lemma_root_embed(0);
        lemma_root_embed(1);
        Felt::law_root_ends();
    }

    proof fn law_half() -> (half: Self) {
        let h = Felt::law_half();
        ext::lemma_embed(Felt::one_spec(), Felt::one_spec());
        ext::lemma_embed(Felt::one_spec().plus(Felt::one_spec()), h);
        ext::embed(h)
    }

    fn two_adic_generator(bits: usize) -> (r: Self) {
        ext_two_adic_generator(bits)
    }
}

/// Calls `two_adic_generator` of `p3_field::TwoAdicField` on the extension of `BabyBear` of
/// degree four: the generator of the subgroup of order `2^bits` is the power `2^(29 - bits)` of
/// that of the largest subgroup.
#[verifier::external_body]
fn ext_two_adic_generator(bits: usize) -> (r: Ext)
    requires
        bits <= 29,
    ensures
        r == Ext::root(bits as nat),
{
    let y = p3_field::extension::BinomialExtensionField::<p3_baby_bear::BabyBear, 4>::two_adic_generator(bits);
    let v: &[p3_baby_bear::BabyBear] = y.as_base_slice();
    Ext {
        c0: Felt { value: v[0].as_canonical_u32() },
        c1: Felt { value: v[1].as_canonical_u32() },
        c2: Felt { value: v[2].as_canonical_u32() },
        c3: Felt { value: v[3].as_canonical_u32() },
    }
}

} // verus!
