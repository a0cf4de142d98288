//! Powers of two and the bit-reversal permutation.

use vstd::prelude::*;
use vstd::arithmetic::power2::*;
use vstd::arithmetic::div_mod::*;
use vstd::arithmetic::mul::*;

verus! {

/// The base-two logarithm, rounded down.
pub open spec fn log2(n: nat) -> nat
    decreases n,
{
    if n <= 1 {
        0
    } else {
        1 + log2(n / 2)
    }
}

pub open spec fn is_pow2(n: nat) -> bool {
    n == pow2(log2(n))
}

/// The low `bits` bits of `x`, in reverse order.
pub open spec fn bitrev(x: nat, bits: nat) -> nat
    decreases bits,
{
    if bits == 0 {
        0
    } else {
        (x % 2) * pow2((bits - 1) as nat) + bitrev(x / 2, (bits - 1) as nat)
    }
}

/// `p3_util::log2_strict_usize` returns the logarithm of a power of two; on any other argument it
/// panics.
pub assume_specification[ p3_util::log2_strict_usize ](n: usize) -> (r: usize)
    requires
        is_pow2(n as nat),
    ensures
        r == log2(n as nat),
;

/// `p3_util::reverse_bits_len` returns the low `bit_len` bits of `x` in reverse order. Of no bits
/// nothing is claimed unless `x` is zero: all bits of `x` are reversed then.
pub assume_specification[ p3_util::reverse_bits_len ](x: usize, bit_len: usize) -> (r: usize)
    requires
        bit_len <= usize::BITS,
        bit_len == 0 ==> x == 0,
    ensures
        r == bitrev(x as nat, bit_len as nat),
;

/// `p3_util::reverse_slice_index_bits` moves the item at each index to the index with the bits
/// reversed; it panics where the length is neither zero nor a power of two.
pub assume_specification<F>[ p3_util::reverse_slice_index_bits::<F> ](vals: &mut [F])
    requires
        old(vals)@.len() == 0 || is_pow2(old(vals)@.len()),
    ensures
        final(vals)@.len() == old(vals)@.len(),
        forall|i: int|
            0 <= i < old(vals)@.len() ==> #[trigger] final(vals)@[i] == old(vals)@[bitrev(
                i as nat,
                log2(old(vals)@.len()),
            ) as int],
;

pub proof fn lemma_log2_pow2(k: nat)
    ensures
        log2(pow2(k)) == k,
        is_pow2(pow2(k)),
    decreases k,
{
    lemma2_to64();
    if k > 0 {
        lemma_log2_pow2((k - 1) as nat);
        lemma_pow2_unfold(k);
        lemma_pow2_pos((k - 1) as nat);
    }
}

/// Powers of two below the word size fit into a word.
pub proof fn lemma_pow2_fits(k: nat)
    requires
        k < usize::BITS,
    ensures
        pow2(k) <= usize::MAX,
{
    vstd::layout::unsigned_int_max_values();
    lemma_pow2_strictly_increases(k, usize::BITS as nat);
}

pub proof fn lemma_bitrev_bound(x: nat, bits: nat)
    ensures
        bitrev(x, bits) < pow2(bits),
    decreases bits,
{
    lemma2_to64();
    if bits > 0 {
        lemma_bitrev_bound(x / 2, (bits - 1) as nat);
        lemma_pow2_unfold(bits);
        let h = pow2((bits - 1) as nat);
        assert((x % 2) * h <= h) by (nonlinear_arith)
            requires
                x % 2 <= 1,
        ;
    }
}

/// An even number reverses to the lower half, an odd one to the upper half.
pub proof fn lemma_bitrev_double(i: nat, bits: nat)
    ensures
        bitrev(2 * i, bits + 1) == bitrev(i, bits),
        bitrev(2 * i + 1, bits + 1) == pow2(bits) + bitrev(i, bits),
{
    assert((2 * i) % 2 == 0 && (2 * i) / 2 == i);
    assert((2 * i + 1) % 2 == 1 && (2 * i + 1) / 2 == i);
    assert(0 * pow2(bits) == 0 && 1 * pow2(bits) == pow2(bits));
}

/// Leading zeros become trailing zeros.
pub proof fn lemma_bitrev_shift(i: nat, bits: nat, k: nat)
    requires
        i < pow2(bits),
    ensures
        bitrev(i, bits + k) == bitrev(i, bits) * pow2(k),
    decreases bits,
{
    lemma2_to64();
    if bits == 0 {
        lemma_bitrev_zero(k);
        assert(0 * pow2(k) == 0);
    } else {
        let b = (bits - 1) as nat;
        lemma_pow2_unfold(bits);
        lemma_bitrev_shift(i / 2, b, k);
        assert((bits + k - 1) as nat == b + k);
        lemma_pow2_adds(b, k);
        lemma_mul_is_associative((i % 2) as int, pow2(b) as int, pow2(k) as int);
        assert(bitrev(i, bits + k) == (i % 2) * pow2(b + k) + bitrev(i / 2, b + k));
        lemma_mul_is_distributive_add_other_way(
            pow2(k) as int,
            ((i % 2) * pow2(b)) as int,
            bitrev(i / 2, b) as int,
        );
    }
}

pub proof fn lemma_bitrev_zero(bits: nat)
    ensures
        bitrev(0, bits) == 0,
    decreases bits,
{
    if bits > 0 {
        lemma_bitrev_zero((bits - 1) as nat);
        assert(0 * pow2((bits - 1) as nat) == 0);
    }
}

/// The bits below the highest one, and the highest one, of a reversed number.
proof fn lemma_bitrev_high(x: nat, bits: nat)
    requires
        x < pow2(bits + 1),
    ensures
        bitrev(x, bits + 1) == 2 * bitrev(x % pow2(bits), bits) + x / pow2(bits),
    decreases bits,
{
    lemma2_to64();
    lemma_pow2_unfold(bits + 1);
    if bits == 0 {
        reveal_with_fuel(bitrev, 2);
        assert(x % 1 == 0 && x / 1 == x);
        assert(x % 2 == x);
        assert((x % 2) * pow2(0) == x) by (nonlinear_arith)
            requires
                pow2(0) == 1,
                x % 2 == x,
        ;
        assert(bitrev(x, 1) == x);
        assert(bitrev(x % pow2(0), 0) == 0);
    } else {
        let b = (bits - 1) as nat;
        let h = pow2(b);
        lemma_pow2_unfold(bits);
        lemma_pow2_pos(b);
        assert(x / 2 < pow2(bits));
        lemma_bitrev_high(x / 2, b);
        // x mod 2h = 2 ((x / 2) mod h) + x mod 2, and x div 2h = (x / 2) div h
        lemma_mod_breakdown(x as int, 2, h as int);
        lemma_div_denominator(x as int, 2, h as int);
        let y = x % pow2(bits);
        assert(y == 2 * ((x / 2) % h) + x % 2);
        assert(y % 2 == x % 2 && y / 2 == (x / 2) % h);
        assert((x % 2) * pow2(bits) == 2 * ((x % 2) * h)) by (nonlinear_arith)
            requires
                pow2(bits) == 2 * h,
        ;
        assert(bitrev(y, bits) == (x % 2) * h + bitrev((x / 2) % h, b));
        assert(bitrev(x, bits + 1) == (x % 2) * pow2(bits) + bitrev(x / 2, bits));
    }
}

/// Reversing twice gives the number back.
pub proof fn lemma_bitrev_involution(x: nat, bits: nat)
    requires
        x < pow2(bits),
    ensures
        bitrev(bitrev(x, bits), bits) == x,
    decreases bits,
{
    lemma2_to64();
    if bits > 0 {
        let b = (bits - 1) as nat;
        let h = pow2(b);
        lemma_pow2_unfold(bits);
        lemma_pow2_pos(b);
        let y = bitrev(x, bits);
        lemma_bitrev_bound(x, bits);
        lemma_bitrev_bound(x / 2, b);
        assert(y == (x % 2) * h + bitrev(x / 2, b));
        lemma_bitrev_high(y, b);
        lemma_fundamental_div_mod_converse(y as int, h as int, (x % 2) as int, bitrev(x / 2, b) as int);
        lemma_bitrev_involution(x / 2, b);
    }
}

} // verus!
