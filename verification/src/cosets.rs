//! Domains that traces and quotients are evaluated on.

use vstd::prelude::*;
use vstd::arithmetic::div_mod::*;
use vstd::arithmetic::mul::*;
use vstd::arithmetic::power2::*;
use crate::babybear::Felt;
use crate::bits;
use crate::domain;
use crate::domain::TwoAdic;
use crate::ext;
use crate::ext::Ext;
use crate::field;
use crate::field::Field;
use crate::lde;
use crate::lde::Coset;
use crate::matrix::Matrix;
use crate::quotient;
use crate::ring;
use crate::ring::Ring;

verus! {

/// `p3_util::log2_ceil_usize` returns the smallest exponent whose power of two is at least `n`.
pub assume_specification[ p3_util::log2_ceil_usize ](n: usize) -> (r: usize)
    ensures
        pow2(r as nat) >= n,
        r == 0 || pow2((r - 1) as nat) < n,
        r <= usize::BITS,
;

/// Whether `r` is the smallest exponent whose power of two is at least `n`.
pub open spec fn is_log2_ceil(r: nat, n: nat) -> bool {
    pow2(r) >= n && (r == 0 || pow2((r - 1) as nat) < n)
}

/// A chunk of a coset: the points whose number is `i` modulo the number of chunks.
pub open spec fn chunk_domain(coset: Coset, log_chunks: nat, i: nat) -> Coset {
    Coset {
        log_n: (coset.log_n - log_chunks) as usize,
        shift: coset.shift.times(ring::pow(Felt::root(coset.log_n as nat), i)),
    }
}

impl Coset {
    /// A coset of at least the given size that does not meet the subgroup.
    pub fn create_disjoint_domain(&self, min_size: usize) -> (r: Coset)
        ensures
            is_log2_ceil(r.log_n as nat, min_size as nat),
            r.shift == self.shift.times(lde::generator()),
    {
        Coset {
            log_n: p3_util::log2_ceil_usize(min_size),
            shift: self.shift.mul(Felt { value: 31 }),
        }
    }

    /// The point after `x`.
    pub fn next_point(&self, x: Ext) -> (r: Ext)
        requires
            self.log_n <= 27,
        ensures
            r == x.times(ext::embed(Felt::root(self.log_n as nat))),
    {
        x.mul(Ext::from_base(Felt::two_adic_generator(self.log_n)))
    }

    /// The domains of the chunks of a coset.
    pub fn split_domains(&self, num_chunks: usize) -> (r: Vec<Coset>)
        requires
            self.log_n <= 27,
            bits::is_pow2(num_chunks as nat),
            bits::log2(num_chunks as nat) <= self.log_n,
        ensures
            r@.len() == num_chunks,
            forall|i: int|
                0 <= i < num_chunks ==> #[trigger] r@[i] == chunk_domain(
                    *self,
                    bits::log2(num_chunks as nat),
                    i as nat,
                ),
    {
        let log_chunks: usize = p3_util::log2_strict_usize(num_chunks);
        let g: Felt = Felt::two_adic_generator(self.log_n);
        let mut r: Vec<Coset> = Vec::new();
        let mut i: usize = 0;
        while i < num_chunks
            invariant
                i <= num_chunks,
                self.log_n <= 27,
                log_chunks == bits::log2(num_chunks as nat),
                log_chunks <= self.log_n,
                g == Felt::root(self.log_n as nat),
                r@.len() == i,
                forall|k: int|
                    0 <= k < i ==> #[trigger] r@[k] == chunk_domain(
                        *self,
                        log_chunks as nat,
                        k as nat,
                    ),
            decreases num_chunks - i,
        {
            r.push(
                Coset {
                    log_n: self.log_n - log_chunks,
                    shift: self.shift.mul(field::exp_u64(g, i as u64)),
                },
            );
            i = i + 1;
        }
        r
    }

    /// The rows of each chunk of a coset: every `num_chunks`-th row, from the number of the chunk
    /// on.
    pub fn split_evals(&self, num_chunks: usize, evals: &Matrix<Felt>) -> (r: Vec<Matrix<Felt>>)
        requires
            num_chunks > 0,
            evals.well_formed(),
            evals.rows() % (num_chunks as nat) == 0,
        ensures
            r@.len() == num_chunks,
            forall|i: int|
                0 <= i < num_chunks ==> is_chunk(
                    #[trigger] r@[i],
                    *evals,
                    num_chunks as int,
                    i,
                ),
    {
        let height: usize = evals.height();
        let rows: usize = height / num_chunks;
        let mut r: Vec<Matrix<Felt>> = Vec::new();
        let mut i: usize = 0;
        while i < num_chunks
            invariant
                i <= num_chunks,
                num_chunks > 0,
                evals.well_formed(),
                height == evals.rows(),
                evals.rows() % (num_chunks as nat) == 0,
                rows == height / num_chunks,
                r@.len() == i,
                forall|k: int|
                    0 <= k < i ==> is_chunk(#[trigger] r@[k], *evals, num_chunks as int, k),
            decreases num_chunks - i,
        {
            let chunk = strided(evals, num_chunks, i, rows);
            r.push(chunk);
            i = i + 1;
        }
        r
    }
}

/// Whether a matrix holds every `step`-th row of another one, from row `i` on.
pub open spec fn is_chunk(chunk: Matrix<Felt>, evals: Matrix<Felt>, step: int, i: int) -> bool {
    &&& chunk.width == evals.width
    &&& chunk.values@.len() == (evals.rows() as int / step) * evals.width
    &&& forall|k: int, c: int|
        0 <= k < evals.rows() as int / step && 0 <= c < evals.width ==> #[trigger] chunk.at(k, c)
            == evals.at(k * step + i, c)
}

fn strided(evals: &Matrix<Felt>, step: usize, offset: usize, rows: usize) -> (r: Matrix<Felt>)
    requires
        step > 0,
        offset < step,
        evals.well_formed(),
        rows == evals.rows() as int / step as int,
        evals.rows() % (step as nat) == 0,
    ensures
        is_chunk(r, *evals, step as int, offset as int),
{
    let width: usize = evals.width;
    let n: usize = evals.values.len();
    let height: usize = evals.height();
    let mut values: Vec<Felt> = Vec::new();
    let mut k: usize = 0;
    proof {
        assert(0 * width == 0);
    }
    while k < rows
        invariant
            k <= rows,
            step > 0,
            offset < step,
            evals.well_formed(),
            width == evals.width,
            height == evals.rows(),
            rows == evals.rows() as int / step as int,
            evals.rows() % (step as nat) == 0,
            values@.len() == k * width,
            forall|q: int, c: int|
                0 <= q < k && 0 <= c < width ==> #[trigger] values@[q * width + c] == evals.at(
                    q * step + offset,
                    c,
                ),
        decreases rows - k,
    {
        let ghost start = values@;
        proof {
            lemma_fundamental_div_mod(height as int, step as int);
            assert(k * step + offset < height && 0 <= k * step) by (nonlinear_arith)
                requires
                    0 <= k < rows,
                    0 <= offset < step,
                    step * rows == height,
            ;
        }
        let row: usize = k * step + offset;
        let mut c: usize = 0;
        while c < width
            invariant
                c <= width,
                k < rows,
                width == evals.width,
                evals.well_formed(),
                row == k * step + offset,
                row < evals.rows(),
                start.len() == k * width,
                values@.len() == k * width + c,
                forall|p: int| 0 <= p < start.len() ==> #[trigger] values@[p] == start[p],
                forall|e: int|
                    0 <= e < c ==> #[trigger] values@[k * width + e] == evals.at(row as int, e),
            decreases width - c,
        {
            values.push(evals.get(row, c));
            c = c + 1;
        }
        proof {
            assert((k + 1) * width == k * width + width) by (nonlinear_arith);
            assert forall|q: int, c: int| 0 <= q < k + 1 && 0 <= c < width implies #[trigger] values@[q
                * width + c] == evals.at(q * step + offset, c) by {
                if q < k {
                    lde::lemma_row_before(q, k as int, width as int, c);
                    assert(start[q * width + c] == evals.at(q * step + offset, c));
                }
            }
        }
        k = k + 1;
    }
    Matrix { values, width }
}

/// The rows of a chunk belong to the points of its domain: point `k` of chunk `i` is the point of
/// the whole domain that row `k` of the chunk was taken from.
pub proof fn law_split_points(coset: Coset, log_chunks: nat, i: nat, k: nat)
    requires
        log_chunks <= coset.log_n <= 27,
    ensures
        quotient::point(chunk_domain(coset, log_chunks, i), k as int) == quotient::point(
            coset,
            (k * pow2(log_chunks) + i) as int,
        ),
{
    let n = coset.log_n as nat;
    let g = Felt::root(n);
    let h = Felt::root((n - log_chunks) as nat);
    domain::lemma_root_pow2::<Felt>(n, log_chunks);
    assert(h == ring::pow(g, pow2(log_chunks)));
    ring::lemma_pow_pow(g, pow2(log_chunks), k);
    lemma_mul_is_commutative(pow2(log_chunks) as int, k as int);
    let a = ring::pow(g, k * pow2(log_chunks));
    assert(ring::pow(h, k) == a);
    ring::lemma_pow_add(g, k * pow2(log_chunks), i);
    let b = ring::pow(g, i);
    // a (shift b) = (a b) shift
    Felt::law_mul_comm(coset.shift, b);
    Felt::law_mul_assoc(a, b, coset.shift);
}

} // verus!
