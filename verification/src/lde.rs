//! Low-degree extensions of committed columns.

use vstd::prelude::*;
use vstd::arithmetic::power2::*;
use vstd::arithmetic::mul::*;
use vstd::arithmetic::div_mod::*;
use p3_dft::TwoAdicSubgroupDft;
use p3_field::{AbstractField, PrimeField32};
use crate::babybear::Felt;
use crate::barycentric;
use crate::bits;
use crate::denominators;
use crate::domain;
use crate::domain::TwoAdic;
use crate::field::Field;
use crate::matrix::Matrix;
use crate::ring;
use crate::ring::Ring;

verus! {

/// A coset `shift H` of the subgroup `H` of order `2^log_n`.
#[derive(Clone, Copy, PartialEq, Eq, Structural, Debug)]
pub struct Coset {
    pub log_n: usize,
    pub shift: Felt,
}

/// The generator of BabyBear's multiplicative group, by which the domain of a commitment is
/// shifted away from the domain of the trace.
pub open spec fn generator() -> Felt {
    Felt { value: 31 }
}

/// Whether `coeffs` gives the values of column `c` over the subgroup, row by row.
pub open spec fn column_is(mat: Matrix<Felt>, c: int, log_n: nat, shift: Felt, coeffs: Seq<Felt>) -> bool {
    &&& coeffs.len() <= pow2(log_n)
    &&& forall|i: nat|
        i < pow2(log_n) ==> ring::reduced(#[trigger] mat.at(i as int, c)) == ring::poly(
            coeffs,
            barycentric::coset_point(shift, log_n, i),
        )
}

/// Calls `coset_lde_batch` of `p3_dft::TwoAdicSubgroupDft` on `Radix2DitParallel`: the columns of
/// the result hold, on the coset of `shift` of the subgroup that is `2^added_bits` times larger,
/// the values of the polynomials of which the columns of `mat` hold the values on the subgroup.
#[verifier::external_body]
fn coset_lde_batch(mat: Matrix<Felt>, added_bits: usize, shift: Felt) -> (r: Matrix<Felt>)
    requires
        mat.well_formed(),
        bits::is_pow2(mat.rows()),
        bits::log2(mat.rows()) + added_bits <= 27,
    ensures
        r.width == mat.width,
        r.values@.len() == mat.values@.len() * pow2(added_bits as nat),
        forall|c: int, coeffs: Seq<Felt>, k: nat|
            0 <= c < mat.width && #[trigger] column_is(
                mat,
                c,
                bits::log2(mat.rows()),
                Felt::one_spec(),
                coeffs,
            ) && k < mat.rows() * pow2(added_bits as nat) ==> #[trigger] r.at(k as int, c)
                == ring::poly(
                coeffs,
                barycentric::coset_point(shift, bits::log2(mat.rows()) + added_bits as nat, k),
            ),
{
    let values = mat.values.iter().map(|x| p3_baby_bear::BabyBear::from_wrapped_u32(x.value)).collect();
    let evals = p3_matrix::dense::RowMajorMatrix::new(values, mat.width);
    let by = p3_baby_bear::BabyBear::from_wrapped_u32(shift.value);
    let lde = p3_dft::Radix2DitParallel.coset_lde_batch(evals, added_bits, by);
    let lde = p3_matrix::Matrix::to_row_major_matrix(lde);
    Matrix { values: lde.values.iter().map(|x| Felt { value: x.as_canonical_u32() }).collect(), width: lde.width }
}

/// The rows of a matrix in bit-reversed order.
pub fn bit_reverse_rows(mat: &Matrix<Felt>) -> (r: Matrix<Felt>)
    requires
        mat.well_formed(),
        bits::is_pow2(mat.rows()),
        bits::log2(mat.rows()) <= usize::BITS,
    ensures
        r.width == mat.width,
        r.values@.len() == mat.values@.len(),
        forall|i: int, c: int|
            0 <= i < mat.rows() && 0 <= c < mat.width ==> #[trigger] r.at(i, c) == mat.at(
                bits::bitrev(i as nat, bits::log2(mat.rows())) as int,
                c,
            ),
{
    let height: usize = mat.height();
    let log_height: usize = p3_util::log2_strict_usize(height);
    let width: usize = mat.width;
    let mut values: Vec<Felt> = Vec::new();
    let mut i: usize = 0;
    while i < height
        invariant
            i <= height,
            mat.well_formed(),
            width == mat.width,
            height == mat.rows(),
            height == pow2(log_height as nat),
            log_height == bits::log2(mat.rows()),
            log_height <= usize::BITS,
            values@.len() == i * width,
            forall|k: int, c: int|
                0 <= k < i && 0 <= c < width ==> #[trigger] values@[k * width + c] == mat.at(
                    bits::bitrev(k as nat, log_height as nat) as int,
                    c,
                ),
        decreases height - i,
    {
        proof {
            bits::lemma_bitrev_bound(i as nat, log_height as nat);
        }
        let row: usize = p3_util::reverse_bits_len(i, log_height);
        let mut c: usize = 0;
        while c < width
            invariant
                i < height,
                row < height,
                c <= width,
                mat.well_formed(),
                width == mat.width,
                height == mat.rows(),
                row == bits::bitrev(i as nat, log_height as nat),
                values@.len() == i * width + c,
                forall|k: int, e: int|
                    0 <= k < i && 0 <= e < width ==> #[trigger] values@[k * width + e] == mat.at(
                        bits::bitrev(k as nat, log_height as nat) as int,
                        e,
                    ),
                forall|e: int|
                    0 <= e < c ==> #[trigger] values@[i * width + e] == mat.at(row as int, e),
            decreases width - c,
        {
            let ghost before = values@;
            values.push(mat.get(row, c));
            assert forall|k: int, e: int| 0 <= k < i && 0 <= e < width implies #[trigger] values@[k
                * width + e] == mat.at(bits::bitrev(k as nat, log_height as nat) as int, e) by {
                lemma_row_before(k, i as int, width as int, e);
                assert(before[k * width + e] == values@[k * width + e]);
            }
            assert forall|e: int| 0 <= e < c + 1 implies #[trigger] values@[i * width + e] == mat.at(
                row as int,
                e,
            ) by {
                if e < c {
                    assert(before[i * width + e] == values@[i * width + e]);
                }
            }
            c = c + 1;
        }
        assert((i + 1) * width == i * width + width) by (nonlinear_arith);
        assert forall|k: int, e: int| 0 <= k < i + 1 && 0 <= e < width implies #[trigger] values@[k
            * width + e] == mat.at(bits::bitrev(k as nat, log_height as nat) as int, e) by {
            if k == i {
                assert(values@[i * width + e] == mat.at(row as int, e));
            }
        }
        i = i + 1;
    }
    proof {
        lemma_fundamental_div_mod(mat.values@.len() as int, width as int);
        lemma_mul_is_commutative(height as int, width as int);
    }
    Matrix { values, width }
}

/// An entry of an earlier row stands before the next row.
pub proof fn lemma_row_before(k: int, i: int, width: int, e: int)
    requires
        0 <= k < i,
        0 <= e < width,
    ensures
        0 <= k * width + e < i * width,
{
    assert(0 <= k * width && k * width + width <= i * width) by (nonlinear_arith)
        requires
            0 <= k < i,
            0 < width,
    ;
}

/// What is committed of `evals`: the columns of `lde` hold, on the coset of the generator of the
/// group of order `2^log_blowup` times that of the domain and in bit-reversed order, the values
/// of the polynomials of which the columns of `evals` hold the values on the domain.
pub open spec fn is_lde(
    domain: Coset,
    evals: Matrix<Felt>,
    log_blowup: nat,
    lde: Matrix<Felt>,
) -> bool {
    &&& lde.width == evals.width
    &&& lde.values@.len() == evals.values@.len() * pow2(log_blowup)
    &&& forall|c: int, coeffs: Seq<Felt>, j: nat|
        0 <= c < evals.width && #[trigger] column_is(
            evals,
            c,
            domain.log_n as nat,
            domain.shift,
            coeffs,
        ) && j < pow2(domain.log_n as nat + log_blowup) ==> #[trigger] lde.at(j as int, c)
            == ring::poly(
            coeffs,
            denominators::reversed_point(generator(), domain.log_n as nat + log_blowup, j),
        )
}

/// The coefficients of `p(d x)`.
pub open spec fn scaled_coeffs<F: Ring>(coeffs: Seq<F>, d: F) -> Seq<F> {
    Seq::new(coeffs.len(), |k: int| coeffs[k].times(ring::pow(d, k as nat)))
}

pub proof fn lemma_poly_scaled<F: Ring>(coeffs: Seq<F>, d: F, x: F)
    ensures
        ring::poly(scaled_coeffs(coeffs, d), x) == ring::poly(coeffs, x.times(d)),
{
    let f = |k: int| scaled_coeffs(coeffs, d)[k].times(ring::pow(x, k as nat));
    let g = |k: int| coeffs[k].times(ring::pow(x.times(d), k as nat));
    assert forall|k: int| 0 <= k < coeffs.len() implies #[trigger] f(k) == g(k) by {
        let (dk, xk) = (ring::pow(d, k as nat), ring::pow(x, k as nat));
        F::law_mul_assoc(coeffs[k], dk, xk);
        ring::lemma_pow_mul(x, d, k as nat);
        F::law_mul_comm(dk, xk);
    }
    ring::lemma_sum_ext(coeffs.len(), f, g);
}

/// The evaluations that are committed for `evals`.
pub fn compute_lde(domain: Coset, evals: Matrix<Felt>, log_blowup: usize) -> (r: Matrix<Felt>)
    requires
        evals.well_formed(),
        evals.rows() == pow2(domain.log_n as nat),
        domain.log_n + log_blowup <= 27,
        ring::reduced(domain.shift) != Felt::zero_spec(),
    ensures
        is_lde(domain, evals, log_blowup as nat, r),
{
    let ghost e0 = evals;
    let ghost log_n = domain.log_n as nat;
    let ghost d = domain.shift;
    let inverse: Felt = domain.shift.inverse();
    let shift: Felt = Felt { value: 31 }.mul(inverse);
    proof {
        bits::lemma_log2_pow2(log_n);
    }
    let lde: Matrix<Felt> = coset_lde_batch(evals, log_blowup, shift);
    let ghost large = log_n + log_blowup as nat;
    proof {
        lemma_pow2_adds(log_n, log_blowup as nat);
        lemma_lde_rows(e0, log_blowup as nat, lde);
        bits::lemma_log2_pow2(large);
    }
    let r: Matrix<Felt> = bit_reverse_rows(&lde);
    assert forall|c: int, coeffs: Seq<Felt>, j: nat|
        0 <= c < e0.width && #[trigger] column_is(e0, c, log_n, d, coeffs) && j < pow2(
            large,
        ) implies #[trigger] r.at(j as int, c) == ring::poly(
        coeffs,
        denominators::reversed_point(generator(), large, j),
    ) by {
        let q = scaled_coeffs(coeffs, d);
        let one = Felt::one_spec();
        assert forall|i: nat| i < pow2(log_n) implies ring::reduced(
            #[trigger] e0.at(i as int, c),
        ) == ring::poly(q, barycentric::coset_point(one, log_n, i)) by {
            let x = ring::pow(Felt::root(log_n), i);
            ring::lemma_mul_one(x);
            ring::lemma_pow_reduced(Felt::root(log_n), i);
            lemma_poly_scaled(coeffs, d, x);
        }
        assert(column_is(e0, c, log_n, one, q));
        let k = bits::bitrev(j, large);
        bits::lemma_bitrev_bound(j, large);
        let w = ring::pow(Felt::root(large), k);
        assert(lde.at(k as int, c) == ring::poly(q, barycentric::coset_point(shift, large, k)));
        // (w (31 / d)) d = w 31
        let y = w.times(shift);
        lemma_poly_scaled(coeffs, d, y);
        Felt::law_mul_assoc(w, shift, d);
        Felt::law_mul_assoc(generator(), inverse, d);
        Felt::law_mul_comm(inverse, d);
        ring::lemma_mul_one(generator());
        ring::lemma_mul_reduced(w, generator());
    }
    r
}

/// The number of rows of an extension.
pub proof fn lemma_lde_rows(mat: Matrix<Felt>, added_bits: nat, lde: Matrix<Felt>)
    requires
        mat.well_formed(),
        lde.width == mat.width,
        lde.values@.len() == mat.values@.len() * pow2(added_bits),
    ensures
        lde.well_formed(),
        lde.rows() == mat.rows() * pow2(added_bits),
{
    let w = mat.width as int;
    let n = mat.rows() as int;
    let b = pow2(added_bits) as int;
    lemma_fundamental_div_mod(mat.values@.len() as int, w);
    assert(lde.values@.len() == w * (n * b)) by (nonlinear_arith)
        requires
            mat.values@.len() == w * n,
            lde.values@.len() == mat.values@.len() * b,
    ;
    lemma_mul_is_commutative(w, n * b);
    lemma_fundamental_div_mod_converse(lde.values@.len() as int, w, n * b, 0);
}

} // verus!
