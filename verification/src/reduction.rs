//! The combination of all openings into one codeword per height.

use vstd::prelude::*;
use vstd::arithmetic::power2::*;
use vstd::arithmetic::mul::*;
use vstd::slice::slice_subrange;
use crate::babybear::Felt;
use crate::bits;
use crate::denominators;
use crate::denominators::InverseDenominators;
use crate::ext;
use crate::ext::Ext;
use crate::field;
use crate::field::Field;
use crate::lde;
use crate::matrix::Matrix;
use crate::pcs;
use crate::pcs::{Opening, TwoAdicFriPcs};
use crate::reducer;
use crate::reducer::PowersReducer;
use crate::ring;
use crate::ring::Ring;

verus! {

/// `sum_c alpha^c p_c`, over the entries of row `j`.
pub open spec fn row_sum(mat: Matrix<Felt>, alpha: Ext, j: int) -> Ext {
    ring::sum(
        mat.width as nat,
        |c: int| ring::pow(alpha, c as nat).times(ext::embed(mat.at(j, c))),
    )
}

/// `sum_c alpha^c y_c`, over the opened values.
pub open spec fn value_sum(ys: Seq<Ext>, alpha: Ext) -> Ext {
    ring::sum(ys.len(), |c: int| ring::pow(alpha, c as nat).times(ys[c]))
}

/// What the opening of a matrix at `z` adds to row `j`, after `offset` columns of that height:
/// `alpha^offset / (x_j - z) * sum_c alpha^c (p_c(x_j) - y_c)`.
pub open spec fn claim(mat: Matrix<Felt>, z: Ext, ys: Seq<Ext>, alpha: Ext, offset: nat, j: nat) -> Ext {
    pcs::inv_denom(bits::log2(mat.rows()), z, j).times(ring::pow(alpha, offset)).times(
        ring::minus(row_sum(mat, alpha, j as int), value_sum(ys, alpha)),
    )
}

/// The number of columns combined so far, and row `j` of their combination.
pub type Combined = (nat, Ext);

/// The combination with the openings of a matrix at the first `n` of its points added.
pub open spec fn add_points(
    s: Combined,
    mat: Matrix<Felt>,
    points: Seq<Ext>,
    ys: Seq<Vec<Ext>>,
    alpha: Ext,
    j: nat,
    n: nat,
) -> Combined
    decreases n,
{
    if n == 0 {
        s
    } else {
        let t = add_points(s, mat, points, ys, alpha, j, (n - 1) as nat);
        (t.0 + mat.width as nat, t.1.plus(claim(mat, points[n - 1], ys[n - 1]@, alpha, t.0, j)))
    }
}

/// The combination at height `2^log_height` with the first `n` matrices of a round added.
pub open spec fn add_matrices(
    s: Combined,
    log_height: nat,
    mats: Seq<Matrix<Felt>>,
    points: Seq<Vec<Ext>>,
    opened: Seq<Vec<Vec<Ext>>>,
    alpha: Ext,
    j: nat,
    n: nat,
) -> Combined
    decreases n,
{
    if n == 0 {
        s
    } else {
        let t = add_matrices(s, log_height, mats, points, opened, alpha, j, (n - 1) as nat);
        if bits::log2(mats[n - 1].rows()) == log_height {
            add_points(
                t,
                mats[n - 1],
                points[n - 1]@,
                opened[n - 1]@,
                alpha,
                j,
                points[n - 1]@.len(),
            )
        } else {
            t
        }
    }
}

/// The combination at height `2^log_height` of the first `n` rounds.
pub open spec fn add_rounds(
    log_height: nat,
    rounds: Seq<(&Vec<Matrix<Felt>>, &Vec<Vec<Ext>>)>,
    opened: Seq<Vec<Vec<Vec<Ext>>>>,
    alpha: Ext,
    j: nat,
    n: nat,
) -> Combined
    decreases n,
{
    if n == 0 {
        (0, Ext::zero_spec())
    } else {
        let (mats, points) = (rounds[n - 1].0@, rounds[n - 1].1@);
        add_matrices(
            add_rounds(log_height, rounds, opened, alpha, j, (n - 1) as nat),
            log_height,
            mats,
            points,
            opened[n - 1]@,
            alpha,
            j,
            pcs::opened_count(mats, points),
        )
    }
}

/// Whether one of the first `n` rounds opens a matrix of height `2^log_height`.
pub open spec fn has_height(
    log_height: nat,
    rounds: Seq<(&Vec<Matrix<Felt>>, &Vec<Vec<Ext>>)>,
    n: nat,
) -> bool {
    exists|k: int, i: int|
        0 <= k < n && 0 <= i < pcs::opened_count(rounds[k].0@, rounds[k].1@) && bits::log2(
            (#[trigger] rounds[k].0@[i]).rows(),
        ) == log_height
}

/// The combined openings: at each height that occurs, a codeword.
pub open spec fn combined(
    r: Seq<Option<Vec<Ext>>>,
    rounds: Seq<(&Vec<Matrix<Felt>>, &Vec<Vec<Ext>>)>,
    opened: Seq<Vec<Vec<Vec<Ext>>>>,
    alpha: Ext,
) -> bool {
    &&& r.len() == 32
    &&& forall|l: nat|
        l < 32 ==> ((#[trigger] r[l as int]) is Some <==> has_height(l, rounds, rounds.len()))
    &&& forall|l: nat|
        l < 32 && (#[trigger] r[l as int]) is Some ==> r[l as int]->0@ == Seq::new(
            pow2(l),
            |j: int| add_rounds(l, rounds, opened, alpha, j as nat, rounds.len()).1,
        )
}

/// The combinations that are being built.
pub(crate) struct Accumulator {
    num_reduced: Vec<usize>,
    reduced: Vec<Option<Vec<Ext>>>,
}

impl Accumulator {
    spec fn well_formed(&self) -> bool {
        &&& self.num_reduced@.len() == 32
        &&& self.reduced@.len() == 32
        &&& forall|l: int|
            0 <= l < 32 ==> ((#[trigger] self.reduced@[l]) matches Some(v) ==> v@.len() == pow2(
                l as nat,
            ))
        &&& forall|l: int|
            0 <= l < 32 && self.reduced@[l] is None ==> #[trigger] self.num_reduced@[l] == 0
    }

    spec fn state(&self, l: nat, j: nat) -> Combined {
        (
            self.num_reduced@[l as int] as nat,
            match self.reduced@[l as int] {
                Some(v) => v@[j as int],
                None => Ext::zero_spec(),
            },
        )
    }

    fn new() -> (r: Self)
        ensures
            r.well_formed(),
            forall|l: nat, j: nat| l < 32 ==> #[trigger] r.state(l, j) == (0nat, Ext::zero_spec()),
            forall|l: int| 0 <= l < 32 ==> (#[trigger] r.reduced@[l]) is None,
    {
        let mut num_reduced: Vec<usize> = Vec::new();
        let mut reduced: Vec<Option<Vec<Ext>>> = Vec::new();
        let mut l: usize = 0;
        while l < 32
            invariant
                l <= 32,
                num_reduced@.len() == l,
                reduced@.len() == l,
                forall|k: int| 0 <= k < l ==> #[trigger] num_reduced@[k] == 0,
                forall|k: int| 0 <= k < l ==> (#[trigger] reduced@[k]) is None,
            decreases 32 - l,
        {
            num_reduced.push(0);
            reduced.push(None);
            l = l + 1;
        }
        Accumulator { num_reduced, reduced }
    }
}

/// Adds the opening of a matrix at one point to a codeword.
fn add_claim(
    word: &mut Vec<Ext>,
    row_sums: &Vec<Ext>,
    inv: &Vec<Ext>,
    alpha_offset: Ext,
    y: Ext,
)
    requires
        row_sums@.len() == old(word)@.len(),
        inv@.len() >= old(word)@.len(),
    ensures
        final(word)@ == Seq::new(
            old(word)@.len(),
            |j: int|
                old(word)@[j].plus(
                    inv@[j].times(alpha_offset).times(ring::minus(row_sums@[j], y)),
                ),
        ),
{
    let ghost before = word@;
    let mut j: usize = 0;
    while j < word.len()
        invariant
            j <= word@.len(),
            word@.len() == before.len(),
            row_sums@.len() == before.len(),
            inv@.len() >= before.len(),
            forall|k: int|
                0 <= k < j ==> #[trigger] word@[k] == before[k].plus(
                    inv@[k].times(alpha_offset).times(ring::minus(row_sums@[k], y)),
                ),
            forall|k: int| j <= k < word@.len() ==> #[trigger] word@[k] == before[k],
        decreases word@.len() - j,
    {
        let value: Ext = word[j].add(inv[j].mul(alpha_offset).mul(row_sums[j].sub(y)));
        word.set(j, value);
        j = j + 1;
    }
}

/// Adds the openings of a matrix at two points to a codeword in one pass.
fn add_two_claims(
    word: &mut Vec<Ext>,
    row_sums: &Vec<Ext>,
    inv0: &Vec<Ext>,
    alpha_offset0: Ext,
    y0: Ext,
    inv1: &Vec<Ext>,
    alpha_offset1: Ext,
    y1: Ext,
)
    requires
        row_sums@.len() == old(word)@.len(),
        inv0@.len() >= old(word)@.len(),
        inv1@.len() >= old(word)@.len(),
    ensures
        final(word)@ == Seq::new(
            old(word)@.len(),
            |j: int|
                old(word)@[j].plus(
                    inv0@[j].times(alpha_offset0).times(ring::minus(row_sums@[j], y0)).plus(
                        inv1@[j].times(alpha_offset1).times(ring::minus(row_sums@[j], y1)),
                    ),
                ),
        ),
{
    let ghost before = word@;
    let mut j: usize = 0;
    while j < word.len()
        invariant
            j <= word@.len(),
            word@.len() == before.len(),
            row_sums@.len() == before.len(),
            inv0@.len() >= before.len(),
            inv1@.len() >= before.len(),
            forall|k: int|
                0 <= k < j ==> #[trigger] word@[k] == before[k].plus(
                    inv0@[k].times(alpha_offset0).times(ring::minus(row_sums@[k], y0)).plus(
                        inv1@[k].times(alpha_offset1).times(ring::minus(row_sums@[k], y1)),
                    ),
                ),
            forall|k: int| j <= k < word@.len() ==> #[trigger] word@[k] == before[k],
        decreases word@.len() - j,
    {
        let first: Ext = inv0[j].mul(alpha_offset0).mul(row_sums[j].sub(y0));
        let second: Ext = inv1[j].mul(alpha_offset1).mul(row_sums[j].sub(y1));
        let value: Ext = word[j].add(first.add(second));
        word.set(j, value);
        j = j + 1;
    }
}

/// The combination of each row's entries.
fn row_sums_of(mat: &Matrix<Felt>, reducer: &PowersReducer, Ghost(alpha): Ghost<Ext>) -> (r: Vec<Ext>)
    requires
        mat.well_formed(),
        reducer.well_formed(),
        reducer.powers@.len() >= mat.width,
        forall|i: int|
            0 <= i < reducer.powers@.len() ==> #[trigger] reducer.powers@[i] == ring::pow(
                alpha,
                i as nat,
            ),
    ensures
        r@ == Seq::new(mat.rows(), |j: int| row_sum(*mat, alpha, j)),
{
    let height: usize = mat.height();
    let mut r: Vec<Ext> = Vec::new();
    let mut j: usize = 0;
    while j < height
        invariant
            j <= height,
            height == mat.rows(),
            mat.well_formed(),
            reducer.well_formed(),
            reducer.powers@.len() >= mat.width,
            forall|i: int|
                0 <= i < reducer.powers@.len() ==> #[trigger] reducer.powers@[i] == ring::pow(
                    alpha,
                    i as nat,
                ),
            r@ == Seq::new(j as nat, |k: int| row_sum(*mat, alpha, k)),
        decreases height - j,
    {
        let n: usize = mat.values.len();
        proof {
            mat.lemma_index(j as int, mat.width - 1);
        }
        let start: usize = j * mat.width;
        let row: &[Felt] = slice_subrange(mat.values.as_slice(), start, start + mat.width);
        let value: Ext = reducer.reduce_base(row);
        proof {
            let f = |c: int| reducer.powers@[c].times(ext::embed(row@[c]));
            let g = |c: int| ring::pow(alpha, c as nat).times(ext::embed(mat.at(j as int, c)));
            assert forall|c: int| 0 <= c < mat.width implies #[trigger] f(c) == g(c) by {}
            ring::lemma_sum_ext(mat.width as nat, f, g);
        }
        r.push(value);
        j = j + 1;
        assert(r@ =~= Seq::new(j as nat, |k: int| row_sum(*mat, alpha, k)));
    }
    r
}

/// The combination of opened values.
fn value_sum_of(ys: &Vec<Ext>, reducer: &PowersReducer, Ghost(alpha): Ghost<Ext>) -> (r: Ext)
    requires
        reducer.powers@.len() >= ys@.len(),
        forall|i: int|
            0 <= i < reducer.powers@.len() ==> #[trigger] reducer.powers@[i] == ring::pow(
                alpha,
                i as nat,
            ),
    ensures
        r == value_sum(ys@, alpha),
{
    let r: Ext = reducer.reduce_ext(ys.as_slice());
    proof {
        let f = |c: int| reducer.powers@[c].times(ys@[c]);
        let g = |c: int| ring::pow(alpha, c as nat).times(ys@[c]);
        assert forall|c: int| 0 <= c < ys@.len() implies #[trigger] f(c) == g(c) by {}
        ring::lemma_sum_ext(ys@.len(), f, g);
    }
    r
}

/// The number of columns grows by the width with each point.
proof fn lemma_points_count(
    s: Combined,
    mat: Matrix<Felt>,
    points: Seq<Ext>,
    ys: Seq<Vec<Ext>>,
    alpha: Ext,
    j: nat,
    n: nat,
)
    ensures
        add_points(s, mat, points, ys, alpha, j, n).0 == s.0 + n * mat.width,
    decreases n,
{
    if n > 0 {
        lemma_points_count(s, mat, points, ys, alpha, j, (n - 1) as nat);
        assert(n * mat.width == (n - 1) * mat.width + mat.width) by (nonlinear_arith);
    } else {
        assert(0 * mat.width == 0);
    }
}

/// What a matrix and its openings have to be, to be combined.
spec fn reducible(
    mat: Matrix<Felt>,
    points: Seq<Ext>,
    ys: Seq<Vec<Ext>>,
    inv_denoms: InverseDenominators,
    reducer: PowersReducer,
    alpha: Ext,
) -> bool {
    &&& mat.well_formed()
    &&& bits::is_pow2(mat.rows())
    &&& bits::log2(mat.rows()) <= 27
    &&& inv_denoms.well_formed()
    &&& forall|p: int|
        0 <= p < points.len() ==> pcs::covers(
            inv_denoms@,
            #[trigger] points[p],
            bits::log2(mat.rows()),
        )
    &&& ys.len() == points.len()
    &&& forall|p: int| 0 <= p < ys.len() ==> (#[trigger] ys[p])@.len() == mat.width
    &&& reducer.well_formed()
    &&& reducer.powers@.len() >= mat.width
    &&& forall|i: int|
        0 <= i < reducer.powers@.len() ==> #[trigger] reducer.powers@[i] == ring::pow(
            alpha,
            i as nat,
        )
}

/// Adds the openings of a matrix, one point after the other, to the codeword of its height.
fn add_sequential(
    word: &mut Vec<Ext>,
    count: usize,
    mat: &Matrix<Felt>,
    points: &Vec<Ext>,
    ys: &Vec<Vec<Ext>>,
    inv_denoms: &InverseDenominators,
    reducer: &PowersReducer,
    alpha: Ext,
    row_sums: &Vec<Ext>,
) -> (r: usize)
    requires
        reducible(*mat, points@, ys@, *inv_denoms, *reducer, alpha),
        old(word)@.len() == mat.rows(),
        count + points@.len() * mat.width <= usize::MAX,
        row_sums@ == Seq::new(mat.rows(), |j: int| row_sum(*mat, alpha, j)),
    ensures
        final(word)@.len() == mat.rows(),
        r == count + points@.len() * mat.width,
        forall|j: nat|
            j < mat.rows() ==> (r as nat, #[trigger] final(word)@[j as int]) == add_points(
                (count as nat, old(word)@[j as int]),
                *mat,
                points@,
                ys@,
                alpha,
                j,
                points@.len(),
            ),
{
    let ghost before = word@;
    let mut r: usize = count;
    let mut p: usize = 0;
    while p < points.len()
        invariant
            p <= points@.len(),
            reducible(*mat, points@, ys@, *inv_denoms, *reducer, alpha),
            word@.len() == mat.rows(),
            before.len() == mat.rows(),
            count + points@.len() * mat.width <= usize::MAX,
            row_sums@ == Seq::new(mat.rows(), |j: int| row_sum(*mat, alpha, j)),
            r == count + p * mat.width,
            forall|j: nat|
                j < mat.rows() ==> (r as nat, #[trigger] word@[j as int]) == add_points(
                    (count as nat, before[j as int]),
                    *mat,
                    points@,
                    ys@,
                    alpha,
                    j,
                    p as nat,
                ),
        decreases points@.len() - p,
    {
        let z: Ext = points[p];
        let ghost lh = bits::log2(mat.rows());
        assert(pcs::covers(inv_denoms@, points@[p as int], lh));
        let alpha_offset: Ext = field::exp_u64(alpha, r as u64);
        let y: Ext = value_sum_of(&ys[p], reducer, Ghost(alpha));
        let found = inv_denoms.get(z);
        assert(found is Some);
        if let Some(inv) = found {
            let ghost middle = word@;
            add_claim(word, row_sums, inv, alpha_offset, y);
            assert forall|j: nat| j < mat.rows() implies #[trigger] word@[j as int]
                == middle[j as int].plus(
                claim(*mat, points@[p as int], ys@[p as int]@, alpha, r as nat, j),
            ) by {
                assert(inv@[j as int] == pcs::inv_denom(lh, z, j));
            }
        }
        assert((p + 1) * mat.width == p * mat.width + mat.width) by (nonlinear_arith);
        assert((p + 1) * mat.width <= points@.len() * mat.width) by (nonlinear_arith)
            requires
                p + 1 <= points@.len(),
        ;
        r = r + mat.width;
        p = p + 1;
    }
    r
}

/// Adds the openings of a matrix at two points, in one pass, to the codeword of its height.
fn add_fused(
    word: &mut Vec<Ext>,
    count: usize,
    mat: &Matrix<Felt>,
    points: &Vec<Ext>,
    ys: &Vec<Vec<Ext>>,
    inv_denoms: &InverseDenominators,
    reducer: &PowersReducer,
    alpha: Ext,
    row_sums: &Vec<Ext>,
) -> (r: usize)
    requires
        points@.len() == 2,
        reducible(*mat, points@, ys@, *inv_denoms, *reducer, alpha),
        old(word)@.len() == mat.rows(),
        count + points@.len() * mat.width <= usize::MAX,
        row_sums@ == Seq::new(mat.rows(), |j: int| row_sum(*mat, alpha, j)),
    ensures
        final(word)@.len() == mat.rows(),
        r == count + points@.len() * mat.width,
        forall|j: nat|
            j < mat.rows() ==> (r as nat, #[trigger] final(word)@[j as int]) == add_points(
                (count as nat, old(word)@[j as int]),
                *mat,
                points@,
                ys@,
                alpha,
                j,
                points@.len(),
            ),
{
    let ghost before = word@;
    let ghost lh = bits::log2(mat.rows());
    assert(pcs::covers(inv_denoms@, points@[0], lh));
    assert(pcs::covers(inv_denoms@, points@[1], lh));
    let middle: usize = count + mat.width;
    let alpha_offset0: Ext = field::exp_u64(alpha, count as u64);
    let y0: Ext = value_sum_of(&ys[0], reducer, Ghost(alpha));
    let alpha_offset1: Ext = field::exp_u64(alpha, middle as u64);
    let y1: Ext = value_sum_of(&ys[1], reducer, Ghost(alpha));
    let found0 = inv_denoms.get(points[0]);
    let found1 = inv_denoms.get(points[1]);
    if let Some(inv0) = found0 {
        if let Some(inv1) = found1 {
            add_two_claims(word, row_sums, inv0, alpha_offset0, y0, inv1, alpha_offset1, y1);
            assert forall|j: nat| j < mat.rows() implies (
                (middle + mat.width) as nat,
                #[trigger] word@[j as int],
            ) == add_points((count as nat, before[j as int]), *mat, points@, ys@, alpha, j, 2) by {
                assert(inv0@[j as int] == pcs::inv_denom(lh, points@[0], j));
                assert(inv1@[j as int] == pcs::inv_denom(lh, points@[1], j));
                reveal_with_fuel(add_points, 3);
                Ext::law_add_assoc(
                    before[j as int],
                    claim(*mat, points@[0], ys@[0]@, alpha, count as nat, j),
                    claim(*mat, points@[1], ys@[1]@, alpha, middle as nat, j),
                );
            }
        }
    }
    middle + mat.width
}

fn zeros(n: usize) -> (r: Vec<Ext>)
    ensures
        r@ == Seq::new(n as nat, |j: int| Ext::zero_spec()),
{
    let mut r: Vec<Ext> = Vec::new();
    let mut j: usize = 0;
    while j < n
        invariant
            j <= n,
            r@ == Seq::new(j as nat, |k: int| Ext::zero_spec()),
        decreases n - j,
    {
        r.push(Ext::zero());
        j = j + 1;
        assert(r@ =~= Seq::new(j as nat, |k: int| Ext::zero_spec()));
    }
    r
}

impl Accumulator {
    /// The accumulator after the openings of one matrix.
    spec fn after_matrix(
        &self,
        before: &Self,
        mat: Matrix<Felt>,
        points: Seq<Ext>,
        ys: Seq<Vec<Ext>>,
        alpha: Ext,
    ) -> bool {
        &&& self.well_formed()
        &&& forall|l: nat, j: nat|
            l < 32 && j < pow2(l) ==> #[trigger] self.state(l, j) == if l == bits::log2(
                mat.rows(),
            ) {
                add_points(before.state(l, j), mat, points, ys, alpha, j, points.len())
            } else {
                before.state(l, j)
            }
        &&& forall|l: int|
            0 <= l < 32 ==> ((#[trigger] self.reduced@[l]) is Some <==> before.reduced@[l] is Some
                || l == bits::log2(mat.rows()))
    }

    /// Adds the openings of one matrix; `fused` says whether two points are added in one pass.
    fn add_matrix(
        &mut self,
        mat: &Matrix<Felt>,
        points: &Vec<Ext>,
        ys: &Vec<Vec<Ext>>,
        inv_denoms: &InverseDenominators,
        reducer: &PowersReducer,
        alpha: Ext,
        fused: bool,
    )
        requires
            old(self).well_formed(),
            reducible(*mat, points@, ys@, *inv_denoms, *reducer, alpha),
            old(self).num_reduced@[bits::log2(mat.rows()) as int] + points@.len() * mat.width
                <= usize::MAX,
        ensures
            final(self).after_matrix(old(self), *mat, points@, ys@, alpha),
    {
        let ghost before = *self;
        let height: usize = mat.height();
        let l: usize = p3_util::log2_strict_usize(height);
        let mut slot: Option<Vec<Ext>> = None;
        std::mem::swap(&mut slot, &mut self.reduced[l]);
        let mut word: Vec<Ext> = match slot {
            Some(v) => v,
            None => zeros(height),
        };
        assert forall|j: nat| j < pow2(l as nat) implies before.state(l as nat, j) == (
            before.num_reduced@[l as int] as nat,
            #[trigger] word@[j as int],
        ) by {}
        let row_sums: Vec<Ext> = row_sums_of(mat, reducer, Ghost(alpha));
        let count: usize = self.num_reduced[l];
        let ghost start = word@;
        let total: usize = if fused && points.len() == 2 {
            add_fused(&mut word, count, mat, points, ys, inv_denoms, reducer, alpha, &row_sums)
        } else {
            add_sequential(&mut word, count, mat, points, ys, inv_denoms, reducer, alpha, &row_sums)
        };
        self.num_reduced.set(l, total);
        self.reduced.set(l, Some(word));
        assert forall|m: nat, j: nat| m < 32 && j < pow2(m) implies #[trigger] self.state(m, j)
            == if m == bits::log2(mat.rows()) {
            add_points(before.state(m, j), *mat, points@, ys@, alpha, j, points@.len())
        } else {
            before.state(m, j)
        } by {
            if m == l {
                assert(before.state(m, j) == (count as nat, start[j as int]));
                assert((total as nat, word@[j as int]) == add_points(
                    (count as nat, start[j as int]),
                    *mat,
                    points@,
                    ys@,
                    alpha,
                    j,
                    points@.len(),
                ));
            }
        }
    }
}

/// The number of combined columns never shrinks.
proof fn lemma_matrices_count(
    s: Combined,
    log_height: nat,
    mats: Seq<Matrix<Felt>>,
    points: Seq<Vec<Ext>>,
    opened: Seq<Vec<Vec<Ext>>>,
    alpha: Ext,
    j: nat,
    m: nat,
    n: nat,
)
    requires
        m <= n,
    ensures
        add_matrices(s, log_height, mats, points, opened, alpha, j, m).0 <= add_matrices(
            s,
            log_height,
            mats,
            points,
            opened,
            alpha,
            j,
            n,
        ).0,
    decreases n - m,
{
    if m < n {
        let k = (n - 1) as nat;
        lemma_matrices_count(s, log_height, mats, points, opened, alpha, j, m, k);
        lemma_points_count(
            add_matrices(s, log_height, mats, points, opened, alpha, j, k),
            mats[n - 1],
            points[n - 1]@,
            opened[n - 1]@,
            alpha,
            j,
            points[n - 1]@.len(),
        );
        assert(points[n - 1]@.len() * mats[n - 1].width >= 0) by (nonlinear_arith);
    }
}

proof fn lemma_rounds_count(
    log_height: nat,
    rounds: Seq<(&Vec<Matrix<Felt>>, &Vec<Vec<Ext>>)>,
    opened: Seq<Vec<Vec<Vec<Ext>>>>,
    alpha: Ext,
    j: nat,
    m: nat,
    n: nat,
)
    requires
        m <= n,
    ensures
        add_rounds(log_height, rounds, opened, alpha, j, m).0 <= add_rounds(
            log_height,
            rounds,
            opened,
            alpha,
            j,
            n,
        ).0,
    decreases n - m,
{
    if m < n {
        let k = (n - 1) as nat;
        lemma_rounds_count(log_height, rounds, opened, alpha, j, m, k);
        let (mats, points) = (rounds[n - 1].0@, rounds[n - 1].1@);
        lemma_matrices_count(
            add_rounds(log_height, rounds, opened, alpha, j, k),
            log_height,
            mats,
            points,
            opened[n - 1]@,
            alpha,
            j,
            0,
            pcs::opened_count(mats, points),
        );
    }
}

/// The number of columns that are combined at each height fits into a machine word.
pub open spec fn counts_fit(
    rounds: Seq<(&Vec<Matrix<Felt>>, &Vec<Vec<Ext>>)>,
    opened: Seq<Vec<Vec<Vec<Ext>>>>,
    alpha: Ext,
) -> bool {
    forall|l: nat|
        l < 32 ==> (#[trigger] add_rounds(l, rounds, opened, alpha, 0, rounds.len())).0
            <= usize::MAX
}

impl Accumulator {
    /// The accumulator holds the combination of the first `k` rounds and of the first `i` matrices
    /// of the next.
    spec fn holds(
        &self,
        rounds: Seq<(&Vec<Matrix<Felt>>, &Vec<Vec<Ext>>)>,
        opened: Seq<Vec<Vec<Vec<Ext>>>>,
        alpha: Ext,
        k: int,
        i: nat,
    ) -> bool {
        &&& self.well_formed()
        &&& forall|l: nat, j: nat|
            l < 32 && j < pow2(l) ==> #[trigger] self.state(l, j) == add_matrices(
                add_rounds(l, rounds, opened, alpha, j, k as nat),
                l,
                rounds[k].0@,
                rounds[k].1@,
                opened[k]@,
                alpha,
                j,
                i,
            )
        &&& forall|l: int|
            0 <= l < 32 ==> ((#[trigger] self.reduced@[l]) is Some <==> (has_height(
                l as nat,
                rounds,
                k as nat,
            ) || exists|e: int|
                0 <= e < i && bits::log2((#[trigger] rounds[k].0@[e]).rows()) == l))
    }
}

impl Accumulator {
    /// The accumulator holds the combination of the first `k` rounds.
    pub(crate) closed spec fn reached(
        &self,
        rounds: Seq<(&Vec<Matrix<Felt>>, &Vec<Vec<Ext>>)>,
        opened: Seq<Vec<Vec<Vec<Ext>>>>,
        alpha: Ext,
        k: nat,
    ) -> bool {
        &&& self.well_formed()
        &&& forall|l: nat, j: nat|
            l < 32 && j < pow2(l) ==> #[trigger] self.state(l, j) == add_rounds(
                l,
                rounds,
                opened,
                alpha,
                j,
                k,
            )
        &&& forall|l: int|
            0 <= l < 32 ==> ((#[trigger] self.reduced@[l]) is Some <==> has_height(
                l as nat,
                rounds,
                k,
            ))
    }

    pub(crate) fn start(
        Ghost(rounds): Ghost<Seq<(&Vec<Matrix<Felt>>, &Vec<Vec<Ext>>)>>,
        Ghost(opened): Ghost<Seq<Vec<Vec<Vec<Ext>>>>>,
        Ghost(alpha): Ghost<Ext>,
    ) -> (r: Self)
        ensures
            r.reached(rounds, opened, alpha, 0),
    {
        Accumulator::new()
    }

    /// Adds the openings of round `k`.
    pub(crate) fn add_round(
        &mut self,
        mats: &Vec<Matrix<Felt>>,
        points: &Vec<Vec<Ext>>,
        opening: &Opening,
        reducer: &PowersReducer,
        alpha: Ext,
        fused: bool,
        k: usize,
        Ghost(rounds): Ghost<Seq<(&Vec<Matrix<Felt>>, &Vec<Vec<Ext>>)>>,
        Ghost(log_blowup): Ghost<nat>,
    )
        requires
            k < rounds.len(),
            mats@ == rounds[k as int].0@,
            points@ == rounds[k as int].1@,
            pcs::openable(rounds, log_blowup),
            opening.opens(rounds, log_blowup),
            counts_fit(rounds, opening.opened_values@, alpha),
            reducer.well_formed(),
            reducer.powers@ == Seq::new(
                opening.global_max_width as nat,
                |i: int| ring::pow(alpha, i as nat),
            ),
            pcs::covers_round(opening.inv_denoms@, mats@, points@),
            old(self).reached(rounds, opening.opened_values@, alpha, k as nat),
        ensures
            final(self).reached(rounds, opening.opened_values@, alpha, (k + 1) as nat),
    {
        let ghost opened = opening.opened_values@;
        let ghost kk = k as int;
        assert(pcs::round_opened(rounds[kk].0@, rounds[kk].1@, log_blowup, opened[kk]@));
        let mut i: usize = 0;
        while i < mats.len() && i < points.len()
            invariant
                kk == k,
                k < rounds.len(),
                mats@ == rounds[kk].0@,
                points@ == rounds[kk].1@,
                i <= pcs::opened_count(mats@, points@),
                opened == opening.opened_values@,
                pcs::openable(rounds, log_blowup),
                opening.opens(rounds, log_blowup),
                pcs::round_opened(rounds[kk].0@, rounds[kk].1@, log_blowup, opened[kk]@),
                counts_fit(rounds, opened, alpha),
                reducer.well_formed(),
                reducer.powers@ == Seq::new(
                    opening.global_max_width as nat,
                    |i: int| ring::pow(alpha, i as nat),
                ),
                pcs::covers_round(opening.inv_denoms@, mats@, points@),
                self.holds(rounds, opened, alpha, kk, i as nat),
            decreases mats@.len() - i,
        {
            let ghost ii = i as int;
            let ghost lh = bits::log2(mats@[ii].rows());
            let ghost before = *self;
            proof {
                assert(pcs::is_leaf(rounds[kk].0@[ii], log_blowup));
                assert(opened[kk]@[ii]@.len() == points@[ii]@.len());
                assert forall|p: int| 0 <= p < opened[kk]@[ii]@.len() implies (
                #[trigger] opened[kk]@[ii]@[p])@.len() == mats@[ii].width by {
                    assert(opened[kk]@[ii]@[p]@ == pcs::opened_row(
                        mats@[ii],
                        log_blowup,
                        points@[ii]@[p],
                    ));
                }
                assert forall|p: int| 0 <= p < points@[ii]@.len() implies pcs::covers(
                    opening.inv_denoms@,
                    #[trigger] points@[ii]@[p],
                    lh,
                ) by {}
                assert(rounds[kk].0@[ii].width <= opening.global_max_width);
                // the count after this matrix is within the total
                let s = add_rounds(lh, rounds, opened, alpha, 0, k as nat);
                lemma_pow2_pos(lh);
                assert(self.state(lh, 0).0 == add_matrices(
                    s,
                    lh,
                    mats@,
                    points@,
                    opened[kk]@,
                    alpha,
                    0,
                    i as nat,
                ).0);
                lemma_points_count(
                    add_matrices(s, lh, mats@, points@, opened[kk]@, alpha, 0, i as nat),
                    mats@[ii],
                    points@[ii]@,
                    opened[kk]@[ii]@,
                    alpha,
                    0,
                    points@[ii]@.len(),
                );
                lemma_matrices_count(
                    s,
                    lh,
                    mats@,
                    points@,
                    opened[kk]@,
                    alpha,
                    0,
                    (i + 1) as nat,
                    pcs::opened_count(mats@, points@),
                );
                lemma_rounds_count(
                    lh,
                    rounds,
                    opened,
                    alpha,
                    0,
                    (k + 1) as nat,
                    rounds.len(),
                );
            }
            self.add_matrix(
                &mats[i],
                &points[i],
                &opening.opened_values[k][i],
                &opening.inv_denoms,
                &reducer,
                alpha,
                fused,
            );
            proof {
                assert forall|l: nat, j: nat|
                    l < 32 && j < pow2(l) implies #[trigger] self.state(l, j) == add_matrices(
                    add_rounds(l, rounds, opened, alpha, j, k as nat),
                    l,
                    rounds[kk].0@,
                    rounds[kk].1@,
                    opened[kk]@,
                    alpha,
                    j,
                    (i + 1) as nat,
                ) by {
                    assert(before.state(l, j) == add_matrices(
                        add_rounds(l, rounds, opened, alpha, j, k as nat),
                        l,
                        rounds[kk].0@,
                        rounds[kk].1@,
                        opened[kk]@,
                        alpha,
                        j,
                        i as nat,
                    ));
                }
                assert forall|l: int| 0 <= l < 32 implies ((#[trigger] self.reduced@[l]) is Some
                    <==> (has_height(l as nat, rounds, k as nat) || exists|e: int|
                    0 <= e < i + 1 && bits::log2((#[trigger] rounds[kk].0@[e]).rows()) == l)) by {
                    assert(before.reduced@[l] is Some <==> (has_height(
                        l as nat,
                        rounds,
                        k as nat,
                    ) || exists|e: int|
                        0 <= e < i && bits::log2((#[trigger] rounds[kk].0@[e]).rows()) == l));
                    if l == lh {
                        assert(bits::log2(rounds[kk].0@[ii].rows()) == l);
                    }
                }
            }
            i = i + 1;
        }
        proof {
            assert forall|l: int| 0 <= l < 32 implies ((#[trigger] self.reduced@[l]) is Some
                <==> has_height(l as nat, rounds, (k + 1) as nat)) by {
                if has_height(l as nat, rounds, k as nat) {
                    let (a, b) = choose|a: int, b: int|
                        0 <= a < k && 0 <= b < pcs::opened_count(rounds[a].0@, rounds[a].1@)
                            && bits::log2((#[trigger] rounds[a].0@[b]).rows()) == l;
                    assert(bits::log2(rounds[a].0@[b].rows()) == l);
                }
            }
        }
    }

    /// The combinations of all rounds.
    pub(crate) fn finish(
        self,
        Ghost(rounds): Ghost<Seq<(&Vec<Matrix<Felt>>, &Vec<Vec<Ext>>)>>,
        Ghost(opened): Ghost<Seq<Vec<Vec<Vec<Ext>>>>>,
        Ghost(alpha): Ghost<Ext>,
    ) -> (r: Vec<Option<Vec<Ext>>>)
        requires
            self.reached(rounds, opened, alpha, rounds.len()),
        ensures
            combined(r@, rounds, opened, alpha),
    {
        proof {
            assert forall|l: nat| l < 32 && (#[trigger] self.reduced@[l as int]) is Some implies (
            self.reduced@[l as int]->0)@ == Seq::new(
                pow2(l),
                |j: int| add_rounds(l, rounds, opened, alpha, j as nat, rounds.len()).1,
            ) by {
                let v = self.reduced@[l as int]->0;
                assert forall|j: int| 0 <= j < pow2(l) implies #[trigger] v@[j] == add_rounds(
                    l,
                    rounds,
                    opened,
                    alpha,
                    j as nat,
                    rounds.len(),
                ).1 by {
                    assert(self.state(l, j as nat).1 == v@[j]);
                }
                assert(v@ =~= Seq::new(
                    pow2(l),
                    |j: int| add_rounds(l, rounds, opened, alpha, j as nat, rounds.len()).1,
                ));
            }
        }
        self.reduced
    }
}

/// The combinations of all openings, at each height.
fn reduce_all(
    rounds: &Vec<(&Vec<Matrix<Felt>>, &Vec<Vec<Ext>>)>,
    opening: &Opening,
    alpha: Ext,
    Ghost(log_blowup): Ghost<nat>,
) -> (r: Vec<Option<Vec<Ext>>>)
    requires
        pcs::openable(rounds@, log_blowup),
        opening.opens(rounds@, log_blowup),
        counts_fit(rounds@, opening.opened_values@, alpha),
    ensures
        combined(r@, rounds@, opening.opened_values@, alpha),
{
    let ghost opened = opening.opened_values@;
    let reducer: PowersReducer = PowersReducer::new(alpha, opening.global_max_width);
    let mut acc: Accumulator = Accumulator::start(Ghost(rounds@), Ghost(opened), Ghost(alpha));
    proof {
        pcs::lemma_covers_rounds(rounds@, log_blowup, opening.inv_denoms@);
    }
    let mut k: usize = 0;
    while k < rounds.len()
        invariant
            k <= rounds@.len(),
            opened == opening.opened_values@,
            pcs::openable(rounds@, log_blowup),
            opening.opens(rounds@, log_blowup),
            counts_fit(rounds@, opened, alpha),
            reducer.well_formed(),
            reducer.powers@ == Seq::new(
                opening.global_max_width as nat,
                |i: int| ring::pow(alpha, i as nat),
            ),
            forall|k: int|
                0 <= k < rounds@.len() ==> pcs::covers_round(
                    opening.inv_denoms@,
                    (#[trigger] rounds@[k]).0@,
                    rounds@[k].1@,
                ),
            acc.reached(rounds@, opened, alpha, k as nat),
        decreases rounds@.len() - k,
    {
        acc.add_round(
            rounds[k].0,
            rounds[k].1,
            opening,
            &reducer,
            alpha,
            true,
            k,
            Ghost(rounds@),
            Ghost(log_blowup),
        );
        k = k + 1;
    }
    acc.finish(Ghost(rounds@), Ghost(opened), Ghost(alpha))
}

impl TwoAdicFriPcs {
    /// Combines all openings with powers of `alpha` into one codeword per height: at height
    /// `2^l`, row `j` is the sum of `alpha^i (p_i(x_j) - y_i) / (x_j - z_i)` over all columns
    /// opened at that height.
    pub fn reduce_openings(
        &self,
        rounds: &Vec<(&Vec<Matrix<Felt>>, &Vec<Vec<Ext>>)>,
        opening: &Opening,
        alpha: Ext,
    ) -> (r: Vec<Option<Vec<Ext>>>)
        requires
            pcs::openable(rounds@, self.fri.log_blowup as nat),
            opening.opens(rounds@, self.fri.log_blowup as nat),
            counts_fit(rounds@, opening.opened_values@, alpha),
        ensures
            combined(r@, rounds@, opening.opened_values@, alpha),
    {
        reduce_all(rounds, opening, alpha, Ghost(self.fri.log_blowup as nat))
    }
}

/// What the opening of a matrix adds to a row, times the distance from the opening point to the point
/// of the row, is the sum of the differences between the entries of that row and the opened values,
/// each times a power of `alpha` that no column before has.
pub proof fn law_claim_times_distance(
    mat: Matrix<Felt>,
    z: Ext,
    ys: Seq<Ext>,
    alpha: Ext,
    offset: nat,
    j: nat,
)
    requires
        ys.len() == mat.width,
        ring::invertible(
            ring::minus(
                ext::embed(
                    denominators::reversed_point(lde::generator(), bits::log2(mat.rows()), j),
                ),
                z,
            ),
        ),
    ensures
        claim(mat, z, ys, alpha, offset, j).times(
            ring::minus(
                ext::embed(
                    denominators::reversed_point(lde::generator(), bits::log2(mat.rows()), j),
                ),
                z,
            ),
        ) == ring::sum(
            mat.width as nat,
            |c: int|
                ring::pow(alpha, offset + c as nat).times(
                    ring::minus(ext::embed(mat.at(j as int, c)), ys[c]),
                ),
        ),
{
    let n = mat.width as nat;
    let d = ring::minus(
        ext::embed(denominators::reversed_point(lde::generator(), bits::log2(mat.rows()), j)),
        z,
    );
    let r = choose|r: Ext| d.times(r) == Ext::one_spec();
    ring::lemma_inv(d, r);
    let (i, a) = (ring::inv(d), ring::pow(alpha, offset));
    let p = |c: int| ring::pow(alpha, c as nat).times(ext::embed(mat.at(j as int, c)));
    let y = |c: int| ring::pow(alpha, c as nat).times(ys[c]);
    let minus_y = |c: int| y(c).negated();
    let diff = |c: int| p(c).plus(minus_y(c));
    let f = |c: int| a.times(diff(c));
    let g = |c: int|
        ring::pow(alpha, offset + c as nat).times(
            ring::minus(ext::embed(mat.at(j as int, c)), ys[c]),
        );
    ring::lemma_sum_neg(n, y);
    ring::lemma_sum_ext(n, minus_y, |c: int| y(c).negated());
    ring::lemma_sum_add(n, p, minus_y);
    ring::lemma_sum_ext(n, diff, |c: int| p(c).plus(minus_y(c)));
    ring::lemma_sum_scale(n, a, diff);
    ring::lemma_sum_ext(n, f, |c: int| a.times(diff(c)));
    assert forall|c: int| 0 <= c < n implies #[trigger] f(c) == g(c) by {
        let b = ring::pow(alpha, c as nat);
        let (u, v) = (ext::embed(mat.at(j as int, c)), ys[c]);
        ring::lemma_mul_sub(b, u, v);
        Ext::law_mul_assoc(a, b, ring::minus(u, v));
        ring::lemma_pow_add(alpha, offset, c as nat);
    }
    ring::lemma_sum_ext(n, f, g);
    let s = ring::minus(row_sum(mat, alpha, j as int), value_sum(ys, alpha));
    ring::lemma_sum_ext(n, p, |c: int| ring::pow(alpha, c as nat).times(ext::embed(mat.at(j as int, c))));
    ring::lemma_sum_ext(n, y, |c: int| ring::pow(alpha, c as nat).times(ys[c]));
    assert(s == ring::sum(n, diff));
    // ((i a) s) d = (i d) (a s)
    ring::lemma_mul_left_comm(d, i.times(a), s);
    Ext::law_mul_comm(i.times(a).times(s), d);
    Ext::law_mul_assoc(d, i.times(a), s);
    Ext::law_mul_assoc(d, i, a);
    ring::lemma_mul_one(a);
    ring::lemma_mul_reduced(a, s);
    ring::lemma_pow_reduced(alpha, offset);
    Ext::law_mul_comm(Ext::one_spec(), a);
}

/// What a matrix adds to a combination: one claim for each of its points, in order, and each with as many
/// powers of `alpha` left out as columns were combined before it.
pub proof fn law_points_are_combined_in_order(
    s: Combined,
    mat: Matrix<Felt>,
    points: Seq<Ext>,
    ys: Seq<Vec<Ext>>,
    alpha: Ext,
    j: nat,
    n: nat,
)
    requires
        n <= points.len(),
        ring::reduced(s.1) == s.1,
    ensures
        add_points(s, mat, points, ys, alpha, j, n).0 == s.0 + n * mat.width,
        add_points(s, mat, points, ys, alpha, j, n).1 == s.1.plus(
            ring::sum(
                n,
                |p: int|
                    claim(
                        mat,
                        points[p],
                        ys[p]@,
                        alpha,
                        (s.0 + p * mat.width) as nat,
                        j,
                    ),
            ),
        ),
    decreases n,
{
    let w = mat.width as int;
    let f = |p: int| claim(mat, points[p], ys[p]@, alpha, (s.0 + p * mat.width) as nat, j);
    if n == 0 {
        assert(0 * w == 0);
        Ext::law_add_comm(s.1, Ext::zero_spec());
        ring::lemma_zero_left(s.1);
    } else {
        let m = (n - 1) as nat;
        law_points_are_combined_in_order(s, mat, points, ys, alpha, j, m);
        assert(n * w == m * w + w) by (nonlinear_arith)
            requires
                n == m + 1,
        ;
        Ext::law_add_assoc(s.1, ring::sum(m, f), f(m as int));
    }
}

/// Matrices are combined one after the other, each with its own points and values, and those of another
/// height not at all: what two lists in a row add is what the first adds and then what the second adds.
pub proof fn law_matrices_are_combined_in_order(
    s: Combined,
    log_height: nat,
    mats: Seq<Matrix<Felt>>,
    points: Seq<Vec<Ext>>,
    opened: Seq<Vec<Vec<Ext>>>,
    alpha: Ext,
    j: nat,
    m: nat,
    n: nat,
)
    requires
        m + n <= mats.len(),
        m + n <= points.len(),
        m + n <= opened.len(),
    ensures
        add_matrices(s, log_height, mats, points, opened, alpha, j, m + n) == add_matrices(
            add_matrices(
                s,
                log_height,
                mats.take(m as int),
                points.take(m as int),
                opened.take(m as int),
                alpha,
                j,
                m,
            ),
            log_height,
            mats.skip(m as int),
            points.skip(m as int),
            opened.skip(m as int),
            alpha,
            j,
            n,
        ),
        mats.len() > 0 && points.len() > 0 ==> add_matrices(
            s,
            log_height,
            mats,
            points,
            opened,
            alpha,
            j,
            1,
        ) == if bits::log2(mats[0].rows()) == log_height {
            add_points(s, mats[0], points[0]@, opened[0]@, alpha, j, points[0]@.len())
        } else {
            s
        },
    decreases n,
{
    reveal_with_fuel(add_matrices, 2);
    if n == 0 {
        lemma_matrices_prefix(s, log_height, mats, points, opened, alpha, j, m, m);
    } else {
        law_matrices_are_combined_in_order(
            s,
            log_height,
            mats,
            points,
            opened,
            alpha,
            j,
            m,
            (n - 1) as nat,
        );
        assert(mats.skip(m as int)[n - 1] == mats[m + n - 1]);
        assert(points.skip(m as int)[n - 1] == points[m + n - 1]);
        assert(opened.skip(m as int)[n - 1] == opened[m + n - 1]);
    }
}

proof fn lemma_matrices_prefix(
    s: Combined,
    log_height: nat,
    mats: Seq<Matrix<Felt>>,
    points: Seq<Vec<Ext>>,
    opened: Seq<Vec<Vec<Ext>>>,
    alpha: Ext,
    j: nat,
    m: nat,
    n: nat,
)
    requires
        n <= m <= mats.len(),
        m <= points.len(),
        m <= opened.len(),
    ensures
        add_matrices(
            s,
            log_height,
            mats.take(m as int),
            points.take(m as int),
            opened.take(m as int),
            alpha,
            j,
            n,
        ) == add_matrices(s, log_height, mats, points, opened, alpha, j, n),
    decreases n,
{
    if n > 0 {
        lemma_matrices_prefix(s, log_height, mats, points, opened, alpha, j, m, (n - 1) as nat);
    }
}

/// Rounds are combined one after the other, from nothing on: the last of them goes on where the others
/// ended, and these are combined as if it were not there.
pub proof fn law_rounds_are_combined_in_order(
    log_height: nat,
    rounds: Seq<(&Vec<Matrix<Felt>>, &Vec<Vec<Ext>>)>,
    opened: Seq<Vec<Vec<Vec<Ext>>>>,
    alpha: Ext,
    j: nat,
    n: nat,
)
    requires
        0 < n <= rounds.len(),
        n <= opened.len(),
    ensures
        add_rounds(log_height, rounds, opened, alpha, j, n) == add_matrices(
            add_rounds(
                log_height,
                rounds.take(n - 1),
                opened.take(n - 1),
                alpha,
                j,
                (n - 1) as nat,
            ),
            log_height,
            rounds[n - 1].0@,
            rounds[n - 1].1@,
            opened[n - 1]@,
            alpha,
            j,
            if rounds[n - 1].0@.len() <= rounds[n - 1].1@.len() {
                rounds[n - 1].0@.len()
            } else {
                rounds[n - 1].1@.len()
            },
        ),
        add_rounds(log_height, rounds, opened, alpha, j, 0) == (0nat, Ext::zero_spec()),
{
    lemma_rounds_prefix(log_height, rounds, opened, alpha, j, (n - 1) as nat, (n - 1) as nat);
}

proof fn lemma_rounds_prefix(
    log_height: nat,
    rounds: Seq<(&Vec<Matrix<Felt>>, &Vec<Vec<Ext>>)>,
    opened: Seq<Vec<Vec<Vec<Ext>>>>,
    alpha: Ext,
    j: nat,
    m: nat,
    n: nat,
)
    requires
        n <= m <= rounds.len(),
        m <= opened.len(),
    ensures
        add_rounds(
            log_height,
            rounds.take(m as int),
            opened.take(m as int),
            alpha,
            j,
            n,
        ) == add_rounds(log_height, rounds, opened, alpha, j, n),
    decreases n,
{
    if n > 0 {
        lemma_rounds_prefix(log_height, rounds, opened, alpha, j, m, (n - 1) as nat);
    }
}

} // verus!
