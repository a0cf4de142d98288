//! What is committed, and how it is read back without opening.

use vstd::prelude::*;
use vstd::arithmetic::power2::*;
use vstd::arithmetic::div_mod::*;
use vstd::arithmetic::mul::*;
use crate::babybear::Felt;
use crate::barycentric;
use crate::bits;
use crate::denominators;
use crate::ext::Ext;
use crate::field::Field;
use crate::lde;
use crate::lde::Coset;
use crate::matrix::Matrix;
use crate::pcs::{OpenedValues, TwoAdicFriPcs};
use crate::ring;
use crate::ring::Ring;

verus! {

/// The opened values of one matrix, one point after the other.
pub open spec fn flat_points(values: Seq<Vec<Ext>>) -> Seq<Ext>
    decreases values.len(),
{
    if values.len() == 0 {
        Seq::empty()
    } else {
        flat_points(values.drop_last()) + values.last()@
    }
}

/// The opened values of one round, one matrix after the other.
pub open spec fn flat_matrices(values: Seq<Vec<Vec<Ext>>>) -> Seq<Ext>
    decreases values.len(),
{
    if values.len() == 0 {
        Seq::empty()
    } else {
        flat_matrices(values.drop_last()) + flat_points(values.last()@)
    }
}

/// The opened values, one round after the other.
pub open spec fn flat_rounds(values: Seq<Vec<Vec<Vec<Ext>>>>) -> Seq<Ext>
    decreases values.len(),
{
    if values.len() == 0 {
        Seq::empty()
    } else {
        flat_rounds(values.drop_last()) + flat_matrices(values.last()@)
    }
}

/// The opened values in the order in which the challenger observes them.
pub fn observed_values(opened: &OpenedValues) -> (r: Vec<Ext>)
    ensures
        r@ == flat_rounds(opened@),
{
    let mut r: Vec<Ext> = Vec::new();
    let mut k: usize = 0;
    while k < opened.len()
        invariant
            k <= opened@.len(),
            r@ == flat_rounds(opened@.take(k as int)),
        decreases opened@.len() - k,
    {
        let ghost round_start = r@;
        let round: &Vec<Vec<Vec<Ext>>> = &opened[k];
        let mut i: usize = 0;
        while i < round.len()
            invariant
                i <= round@.len(),
                r@ == round_start + flat_matrices(round@.take(i as int)),
            decreases round@.len() - i,
        {
            let ghost mat_start = r@;
            let mat: &Vec<Vec<Ext>> = &round[i];
            let mut p: usize = 0;
            while p < mat.len()
                invariant
                    p <= mat@.len(),
                    r@ == mat_start + flat_points(mat@.take(p as int)),
                decreases mat@.len() - p,
            {
                let ghost point_start = r@;
                let ys: &Vec<Ext> = &mat[p];
                let mut c: usize = 0;
                while c < ys.len()
                    invariant
                        c <= ys@.len(),
                        r@ == point_start + ys@.take(c as int),
                    decreases ys@.len() - c,
                {
                    r.push(ys[c]);
                    c = c + 1;
                    assert(r@ =~= point_start + ys@.take(c as int));
                }
                assert(ys@.take(c as int) =~= ys@);
                p = p + 1;
                assert(mat@.take(p as int).drop_last() =~= mat@.take(p - 1));
                assert(r@ =~= mat_start + flat_points(mat@.take(p as int)));
            }
            assert(mat@.take(p as int) =~= mat@);
            i = i + 1;
            assert(round@.take(i as int).drop_last() =~= round@.take(i - 1));
            assert(r@ =~= round_start + flat_matrices(round@.take(i as int)));
        }
        assert(round@.take(i as int) =~= round@);
        k = k + 1;
        assert(opened@.take(k as int).drop_last() =~= opened@.take(k - 1));
    }
    assert(opened@.take(k as int) =~= opened@);
    r
}

impl TwoAdicFriPcs {
    /// The matrices that are committed for evaluations over their domains.
    pub fn commit(&self, evaluations: Vec<(Coset, Matrix<Felt>)>) -> (r: Vec<Matrix<Felt>>)
        requires
            forall|i: int|
                0 <= i < evaluations@.len() ==> {
                    let (domain, evals) = #[trigger] evaluations@[i];
                    &&& evals.well_formed()
                    &&& evals.rows() == pow2(domain.log_n as nat)
                    &&& domain.log_n <= self.log_n
                    &&& domain.log_n + self.fri.log_blowup <= 27
                    &&& ring::reduced(domain.shift) != Felt::zero_spec()
                },
        ensures
            r@.len() == evaluations@.len(),
            forall|i: int|
                0 <= i < r@.len() ==> lde::is_lde(
                    evaluations@[i].0,
                    evaluations@[i].1,
                    self.fri.log_blowup as nat,
                    #[trigger] r@[i],
                ),
    {
        let ghost all = evaluations@;
        let mut left: Vec<(Coset, Matrix<Felt>)> = evaluations;
        let mut r: Vec<Matrix<Felt>> = Vec::new();
        while left.len() > 0
            invariant
                left@.len() <= all.len(),
                left@ == all.skip(all.len() - left@.len()),
                r@.len() == all.len() - left@.len(),
                forall|i: int|
                    0 <= i < all.len() ==> {
                        let (domain, evals) = #[trigger] all[i];
                        &&& evals.well_formed()
                        &&& evals.rows() == pow2(domain.log_n as nat)
                        &&& domain.log_n + self.fri.log_blowup <= 27
                        &&& ring::reduced(domain.shift) != Felt::zero_spec()
                    },
                forall|i: int|
                    0 <= i < r@.len() ==> lde::is_lde(
                        all[i].0,
                        all[i].1,
                        self.fri.log_blowup as nat,
                        #[trigger] r@[i],
                    ),
            decreases left@.len(),
        {
            let ghost i = all.len() - left@.len();
            let (domain, evals) = left.remove(0);
            assert((domain, evals) == all[i]);
            assert(left@ =~= all.skip(i + 1));
            r.push(lde::compute_lde(domain, evals, self.fri.log_blowup));
        }
        r
    }

    /// The matrices that were committed for evaluations, computed once more.
    pub fn recompute_lde_owned(&self, original_evals: Vec<(Coset, Matrix<Felt>)>) -> (r: Vec<
        Matrix<Felt>,
    >)
        requires
            forall|i: int|
                0 <= i < original_evals@.len() ==> {
                    let (domain, evals) = #[trigger] original_evals@[i];
                    &&& evals.well_formed()
                    &&& bits::is_pow2(evals.rows())
                    &&& bits::log2(evals.rows()) + self.fri.log_blowup <= 27
                    &&& ring::reduced(domain.shift) != Felt::zero_spec()
                },
        ensures
            r@.len() == original_evals@.len(),
            forall|i: int|
                0 <= i < r@.len() ==> lde::is_lde(
                    (Coset {
                        log_n: bits::log2(original_evals@[i].1.rows()) as usize,
                        shift: original_evals@[i].0.shift,
                    }),
                    original_evals@[i].1,
                    self.fri.log_blowup as nat,
                    #[trigger] r@[i],
                ),
    {
        let ghost all = original_evals@;
        let mut left: Vec<(Coset, Matrix<Felt>)> = original_evals;
        let mut r: Vec<Matrix<Felt>> = Vec::new();
        while left.len() > 0
            invariant
                left@.len() <= all.len(),
                left@ == all.skip(all.len() - left@.len()),
                r@.len() == all.len() - left@.len(),
                forall|i: int|
                    0 <= i < all.len() ==> {
                        let (domain, evals) = #[trigger] all[i];
                        &&& evals.well_formed()
                        &&& bits::is_pow2(evals.rows())
                        &&& bits::log2(evals.rows()) + self.fri.log_blowup <= 27
                        &&& ring::reduced(domain.shift) != Felt::zero_spec()
                    },
                forall|i: int|
                    0 <= i < r@.len() ==> lde::is_lde(
                        (Coset {
                            log_n: bits::log2(all[i].1.rows()) as usize,
                            shift: all[i].0.shift,
                        }),
                        all[i].1,
                        self.fri.log_blowup as nat,
                        #[trigger] r@[i],
                    ),
            decreases left@.len(),
        {
            let ghost i = all.len() - left@.len();
            let (domain, evals) = left.remove(0);
            assert((domain, evals) == all[i]);
            assert(left@ =~= all.skip(i + 1));
            let log_n: usize = p3_util::log2_strict_usize(evals.height());
            let natural = Coset { log_n, shift: domain.shift };
            r.push(lde::compute_lde(natural, evals, self.fri.log_blowup));
        }
        r
    }

    /// The values of a committed matrix over a domain, in natural order.
    pub fn get_evaluations_on_domain(
        &self,
        leaves: &Vec<Matrix<Felt>>,
        idx: usize,
        domain: Coset,
    ) -> (r: Matrix<Felt>)
        requires
            idx < leaves@.len(),
            leaves@[idx as int].well_formed(),
            ring::reduced(domain.shift) == lde::generator(),
            domain.log_n <= 27,
            pow2(domain.log_n as nat) <= leaves@[idx as int].rows(),
        ensures
            r.width == leaves@[idx as int].width,
            r.values@.len() == pow2(domain.log_n as nat) * r.width,
            forall|i: nat, c: int|
                i < pow2(domain.log_n as nat) && 0 <= c < r.width ==> #[trigger] r.at(i as int, c)
                    == leaves@[idx as int].at(
                    bits::bitrev(i, domain.log_n as nat) as int,
                    c,
                ),
    {
        let mat: &Matrix<Felt> = &leaves[idx];
        let width: usize = mat.width;
        proof {
            lemma2_to64();
            if domain.log_n < 27 {
                lemma_pow2_strictly_increases(domain.log_n as nat, 27);
            }
            lemma_pow2_pos(domain.log_n as nat);
            vstd::bits::lemma_usize_shl_is_mul(1, domain.log_n);
        }
        let height: usize = 1usize << domain.log_n;
        let n: usize = mat.values.len();
        proof {
            mat.lemma_index(height - 1, width - 1);
            assert((height - 1) * width + width == height * width) by (nonlinear_arith);
        }
        let end: usize = height * width;
        let mut values: Vec<Felt> = Vec::new();
        let mut k: usize = 0;
        while k < end
            invariant
                k <= end <= mat.values@.len(),
                values@ == mat.values@.take(k as int),
            decreases end - k,
        {
            values.push(mat.values[k]);
            k = k + 1;
            assert(values@ =~= mat.values@.take(k as int));
        }
        let low = Matrix { values, width };
        proof {
            lemma_mul_is_commutative(height as int, width as int);
            lemma_fundamental_div_mod_converse(end as int, width as int, height as int, 0);
            bits::lemma_log2_pow2(domain.log_n as nat);
        }
        let r: Matrix<Felt> = lde::bit_reverse_rows(&low);
        assert forall|i: nat, c: int|
            i < pow2(domain.log_n as nat) && 0 <= c < r.width implies #[trigger] r.at(i as int, c)
            == mat.at(bits::bitrev(i, domain.log_n as nat) as int, c) by {
            let j = bits::bitrev(i, domain.log_n as nat);
            bits::lemma_bitrev_bound(i, domain.log_n as nat);
            low.lemma_index(j as int, c);
            assert(r.at(i as int, c) == low.at(j as int, c));
        }
        r
    }

    /// The row that a query reads from a commitment whose highest matrix has `max_height` rows.
    pub fn reduced_query_index(&self, log_global_max_height: usize, max_height: usize, index: usize) -> (r:
        usize)
        requires
            bits::is_pow2(max_height as nat),
            bits::log2(max_height as nat) <= log_global_max_height < usize::BITS,
        ensures
            r == index as nat / pow2(
                (log_global_max_height - bits::log2(max_height as nat)) as nat,
            ),
    {
        let log_max_height: usize = p3_util::log2_strict_usize(max_height);
        let bits_reduced: usize = log_global_max_height - log_max_height;
        proof {
            vstd::bits::lemma_usize_shr_is_div(index, bits_reduced);
        }
        index >> bits_reduced
    }
}

/// Over a domain no larger than the commitment's, what is read back from a commitment are the
/// values of the committed polynomials on that domain.
pub proof fn law_evaluations_on_domain(
    committed: Coset,
    evals: Matrix<Felt>,
    log_blowup: nat,
    mat: Matrix<Felt>,
    domain: Coset,
    read: Matrix<Felt>,
    c: int,
    coeffs: Seq<Felt>,
    i: nat,
)
    requires
        lde::is_lde(committed, evals, log_blowup, mat),
        committed.log_n + log_blowup <= 27,
        domain.log_n <= committed.log_n + log_blowup,
        i < pow2(domain.log_n as nat),
        0 <= c < evals.width,
        lde::column_is(evals, c, committed.log_n as nat, committed.shift, coeffs),
        read.at(i as int, c) == mat.at(bits::bitrev(i, domain.log_n as nat) as int, c),
    ensures
        read.at(i as int, c) == ring::poly(
            coeffs,
            barycentric::coset_point(lde::generator(), domain.log_n as nat, i),
        ),
{
    let small = domain.log_n as nat;
    let large = committed.log_n as nat + log_blowup;
    let j = bits::bitrev(i, small);
    bits::lemma_bitrev_bound(i, small);
    bits::lemma_bitrev_involution(i, small);
    if small < large {
        lemma_pow2_strictly_increases(small, large);
    }
    denominators::lemma_reversed_prefix(lde::generator(), small, large, j);
    assert(mat.at(j as int, c) == ring::poly(
        coeffs,
        denominators::reversed_point(lde::generator(), large, j),
    ));
}

} // verus!
