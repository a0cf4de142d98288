//! The polynomial commitment scheme: opening of committed columns.

use vstd::prelude::*;
use vstd::arithmetic::power2::*;
use crate::babybear::Felt;
use crate::barycentric;
use crate::bits;
use crate::denominators;
use crate::denominators::{InverseDenominators, PointKey};
use crate::ext;
use crate::ext::Ext;
use crate::field::Field;
use crate::interpolation;
use crate::lde;
use crate::lde::Coset;
use crate::matrix::Matrix;
use crate::reducer;
use crate::ring;
use crate::ring::Ring;

verus! {

/// The parameters of the FRI protocol.
#[derive(Clone, Copy, PartialEq, Eq, Structural, Debug)]
pub struct FriConfig {
    pub log_blowup: usize,
    pub num_queries: usize,
    pub proof_of_work_bits: usize,
}

/// The values at the opening points: for each round, matrix, point and column.
pub type OpenedValues = Vec<Vec<Vec<Vec<Ext>>>>;

/// A polynomial commitment scheme over cosets of roots of unity.
#[derive(Clone, Copy, PartialEq, Eq, Structural, Debug)]
pub struct TwoAdicFriPcs {
    /// The largest degree, as a logarithm.
    pub log_n: usize,
    pub fri: FriConfig,
}

/// The inverse of the distance from `z` to the point with index `j` of the commitment's coset of
/// order `2^log_n`, in bit-reversed order.
pub open spec fn inv_denom(log_n: nat, z: Ext, j: nat) -> Ext {
    ring::inv(ring::minus(ext::embed(denominators::reversed_point(lde::generator(), log_n, j)), z))
}

/// Whether the inverses hold those for `z` and the coset of order `2^log_n`.
pub open spec fn covers(view: Map<PointKey, Seq<Ext>>, z: Ext, log_n: nat) -> bool {
    let key = denominators::point_key(z);
    &&& view.contains_key(key)
    &&& view[key].len() >= pow2(log_n)
    &&& forall|j: nat| j < pow2(log_n) ==> #[trigger] view[key][j as int] == inv_denom(log_n, z, j)
    &&& forall|j: nat|
        j < pow2(log_n) ==> ring::invertible(
            ring::minus(
                ext::embed(#[trigger] denominators::reversed_point(lde::generator(), log_n, j)),
                z,
            ),
        )
}

/// A committed matrix: a low-degree extension by `2^log_blowup`.
pub open spec fn is_leaf(mat: Matrix<Felt>, log_blowup: nat) -> bool {
    &&& mat.well_formed()
    &&& bits::is_pow2(mat.rows())
    &&& log_blowup <= bits::log2(mat.rows()) <= 27
}

/// The negated inverses of the distances from the points of the coset of order `2^log_h` to `z`,
/// in natural order.
pub open spec fn diff_invs(log_h: nat, z: Ext) -> Seq<Ext> {
    Seq::new(
        pow2(log_h),
        |i: int|
            ring::inv(
                ring::minus(
                    ext::embed(barycentric::coset_point(lde::generator(), log_h, i as nat)),
                    z,
                ),
            ).negated(),
    )
}

/// The value at `z` of column `c` of a committed matrix.
pub open spec fn opened_value(mat: Matrix<Felt>, log_blowup: nat, z: Ext, c: int) -> Ext {
    let log_h = (bits::log2(mat.rows()) - log_blowup) as nat;
    interpolation::interpolated(mat, log_h, lde::generator(), z, diff_invs(log_h, z), c)
}

/// The values at `z` of all columns.
pub open spec fn opened_row(mat: Matrix<Felt>, log_blowup: nat, z: Ext) -> Seq<Ext> {
    Seq::new(mat.width as nat, |c: int| opened_value(mat, log_blowup, z, c))
}

/// `x - z` does not depend on how `z` is represented.
proof fn lemma_minus_reduced(x: Ext, z: Ext)
    ensures
        ring::minus(x, ring::reduced(z)) == ring::minus(x, z),
{
    ring::lemma_neg_reduced(z);
}

/// The inverse denominators of a set of openings cover each matrix that is opened.
pub proof fn lemma_covers(
    view: Map<PointKey, Seq<Ext>>,
    heights: Map<PointKey, usize>,
    z: Ext,
    log_n: nat,
)
    requires
        denominators::inverts(view, heights, lde::generator()),
        heights.contains_key(denominators::point_key(z)),
        log_n <= heights[denominators::point_key(z)] <= 27,
    ensures
        covers(view, z, log_n),
{
    let key = denominators::point_key(z);
    let large = heights[key] as nat;
    if log_n < large {
        lemma_pow2_strictly_increases(log_n, large);
    }
    assert(denominators::key_point(key) == ring::reduced(z));
    assert forall|j: nat| j < pow2(log_n) implies #[trigger] view[key][j as int] == inv_denom(
        log_n,
        z,
        j,
    ) by {
        denominators::lemma_reversed_prefix(lde::generator(), log_n, large, j);
        lemma_minus_reduced(
            ext::embed(denominators::reversed_point(lde::generator(), log_n, j)),
            z,
        );
    }
    assert forall|j: nat| j < pow2(log_n) implies ring::invertible(
        ring::minus(
            ext::embed(#[trigger] denominators::reversed_point(lde::generator(), log_n, j)),
            z,
        ),
    ) by {
        denominators::lemma_reversed_prefix(lde::generator(), log_n, large, j);
        let x = denominators::reversed_point(lde::generator(), large, j);
        lemma_minus_reduced(ext::embed(x), z);
    }
}

/// A coset's inverses cover the smaller cosets.
proof fn lemma_covers_smaller(view: Map<PointKey, Seq<Ext>>, z: Ext, log_n: nat, log_h: nat)
    requires
        covers(view, z, log_n),
        log_h <= log_n <= 27,
    ensures
        covers(view, z, log_h),
{
    let key = denominators::point_key(z);
    if log_h < log_n {
        lemma_pow2_strictly_increases(log_h, log_n);
    }
    assert forall|j: nat| j < pow2(log_h) implies #[trigger] view[key][j as int] == inv_denom(
        log_h,
        z,
        j,
    ) by {
        denominators::lemma_reversed_prefix(lde::generator(), log_h, log_n, j);
        assert(view[key][j as int] == inv_denom(log_n, z, j));
    }
    assert forall|j: nat| j < pow2(log_h) implies ring::invertible(
        ring::minus(
            ext::embed(#[trigger] denominators::reversed_point(lde::generator(), log_h, j)),
            z,
        ),
    ) by {
        denominators::lemma_reversed_prefix(lde::generator(), log_h, log_n, j);
        let x = denominators::reversed_point(lde::generator(), log_n, j);
    }
}

/// The negated inverses in natural order, from those in bit-reversed order.
fn make_diff_invs(full_inv: &Vec<Ext>, log_h: usize, Ghost(z): Ghost<Ext>) -> (r: Vec<Ext>)
    requires
        log_h <= 27,
        full_inv@.len() >= pow2(log_h as nat),
        forall|j: nat|
            j < pow2(log_h as nat) ==> #[trigger] full_inv@[j as int] == inv_denom(
                log_h as nat,
                z,
                j,
            ),
    ensures
        r@ == diff_invs(log_h as nat, z),
{
    proof {
        lemma2_to64();
        if log_h < 27 {
            lemma_pow2_strictly_increases(log_h as nat, 27);
        }
        vstd::bits::lemma_usize_shl_is_mul(1, log_h);
    }
    let h: usize = 1usize << log_h;
    let mut r: Vec<Ext> = Vec::new();
    let mut i: usize = 0;
    while i < h
        invariant
            i <= h,
            log_h <= 27,
            h == pow2(log_h as nat),
            full_inv@.len() >= h,
            forall|j: nat|
                j < h ==> #[trigger] full_inv@[j as int] == inv_denom(log_h as nat, z, j),
            r@ == diff_invs(log_h as nat, z).take(i as int),
        decreases h - i,
    {
        proof {
            bits::lemma_bitrev_bound(i as nat, log_h as nat);
            bits::lemma_bitrev_involution(i as nat, log_h as nat);
        }
        let j: usize = p3_util::reverse_bits_len(i, log_h);
        assert(full_inv@[j as int] == inv_denom(log_h as nat, z, j as nat));
        let value: Ext = full_inv[j].neg();
        assert(value == diff_invs(log_h as nat, z)[i as int]);
        r.push(value);
        i = i + 1;
        assert(r@ =~= diff_invs(log_h as nat, z).take(i as int));
    }
    assert(diff_invs(log_h as nat, z).take(h as int) =~= diff_invs(log_h as nat, z));
    r
}

impl TwoAdicFriPcs {
    /// A scheme for polynomials of degree less than `2^log_n`.
    pub fn new(log_n: usize, fri: FriConfig) -> (r: Self)
        ensures
            r.log_n == log_n,
            r.fri == fri,
    {
        TwoAdicFriPcs { log_n, fri }
    }

    /// The subgroup whose order is the degree.
    pub fn natural_domain_for_degree(&self, degree: usize) -> (r: Coset)
        requires
            bits::is_pow2(degree as nat),
            bits::log2(degree as nat) <= self.log_n,
        ensures
            r == (Coset { log_n: bits::log2(degree as nat) as usize, shift: Felt::one_spec() }),
            pow2(r.log_n as nat) == degree,
    {
        let log_n: usize = p3_util::log2_strict_usize(degree);
        Coset { log_n, shift: Felt::one() }
    }

    /// The parameters of the folding.
    pub fn fri_config(&self) -> (r: &FriConfig)
        ensures
            *r == self.fri,
    {
        &self.fri
    }

    /// The parameters of the folding.
    pub fn fri(&self) -> (r: &FriConfig)
        ensures
            *r == self.fri,
    {
        &self.fri
    }

    /// The logarithm of the rate's inverse.
    pub fn log_blowup(&self) -> (r: usize)
        ensures
            r == self.fri.log_blowup,
    {
        self.fri.log_blowup
    }

    /// The inverse denominators for one point, in natural order.
    fn diff_invs_at(&self, inv_denoms: &InverseDenominators, log_n: usize, log_h: usize, z: Ext) -> (r:
        Vec<Ext>)
        requires
            inv_denoms.well_formed(),
            log_h <= log_n <= 27,
            covers(inv_denoms@, z, log_n as nat),
        ensures
            r@ == diff_invs(log_h as nat, z),
    {
        proof {
            lemma_covers_smaller(inv_denoms@, z, log_n as nat, log_h as nat);
        }
        let found = inv_denoms.get(z);
        match found {
            Some(full_inv) => {
                assert forall|j: nat| j < pow2(log_h as nat) implies #[trigger] full_inv@[j as int]
                    == inv_denom(log_h as nat, z, j) by {
                    assert(inv_denoms@[denominators::point_key(z)][j as int] == inv_denom(
                        log_h as nat,
                        z,
                        j,
                    ));
                }
                make_diff_invs(full_inv, log_h, Ghost(z))
            },
            None => Vec::new(),
        }
    }

    /// Opens one matrix at its points, one point after the other.
    fn open_matrix_sequential(
        &self,
        mat: &Matrix<Felt>,
        points: &Vec<Ext>,
        inv_denoms: &InverseDenominators,
    ) -> (r: Vec<Vec<Ext>>)
        requires
            is_leaf(*mat, self.fri.log_blowup as nat),
            inv_denoms.well_formed(),
            forall|p: int|
                0 <= p < points@.len() ==> covers(
                    inv_denoms@,
                    #[trigger] points@[p],
                    bits::log2(mat.rows()),
                ),
        ensures
            r@.len() == points@.len(),
            forall|p: int|
                0 <= p < points@.len() ==> (#[trigger] r@[p])@ == opened_row(
                    *mat,
                    self.fri.log_blowup as nat,
                    points@[p],
                ),
    {
        let log_height: usize = p3_util::log2_strict_usize(mat.height());
        let log_h: usize = log_height - self.fri.log_blowup;
        proof {
            if log_h < log_height {
                lemma_pow2_strictly_increases(log_h as nat, log_height as nat);
            }
        }
        let mut r: Vec<Vec<Ext>> = Vec::new();
        let mut p: usize = 0;
        while p < points.len()
            invariant
                p <= points@.len(),
                is_leaf(*mat, self.fri.log_blowup as nat),
                inv_denoms.well_formed(),
                log_height == bits::log2(mat.rows()),
                log_h == log_height - self.fri.log_blowup,
                pow2(log_h as nat) <= mat.rows(),
                forall|p: int|
                    0 <= p < points@.len() ==> covers(
                        inv_denoms@,
                        #[trigger] points@[p],
                        bits::log2(mat.rows()),
                    ),
                r@.len() == p,
                forall|k: int|
                    0 <= k < p ==> (#[trigger] r@[k])@ == opened_row(
                        *mat,
                        self.fri.log_blowup as nat,
                        points@[k],
                    ),
            decreases points@.len() - p,
        {
            let z: Ext = points[p];
            assert(covers(inv_denoms@, points@[p as int], bits::log2(mat.rows())));
            let diffs: Vec<Ext> = self.diff_invs_at(inv_denoms, log_height, log_h, z);
            let row: Vec<Ext> = interpolation::interpolate_coset_precomputed(
                mat,
                log_h,
                Felt { value: 31 },
                z,
                diffs.as_slice(),
            );
            assert(row@ =~= opened_row(*mat, self.fri.log_blowup as nat, z));
            r.push(row);
            p = p + 1;
        }
        r
    }

    /// Opens one matrix at its points; two points are opened in one pass over the matrix.
    fn open_matrix(
        &self,
        mat: &Matrix<Felt>,
        points: &Vec<Ext>,
        inv_denoms: &InverseDenominators,
    ) -> (r: Vec<Vec<Ext>>)
        requires
            is_leaf(*mat, self.fri.log_blowup as nat),
            inv_denoms.well_formed(),
            forall|p: int|
                0 <= p < points@.len() ==> covers(
                    inv_denoms@,
                    #[trigger] points@[p],
                    bits::log2(mat.rows()),
                ),
        ensures
            r@.len() == points@.len(),
            forall|p: int|
                0 <= p < points@.len() ==> (#[trigger] r@[p])@ == opened_row(
                    *mat,
                    self.fri.log_blowup as nat,
                    points@[p],
                ),
    {
        if points.len() == 2 {
            let log_height: usize = p3_util::log2_strict_usize(mat.height());
            let log_h: usize = log_height - self.fri.log_blowup;
            proof {
                if log_h < log_height {
                    lemma_pow2_strictly_increases(log_h as nat, log_height as nat);
                }
                assert(covers(inv_denoms@, points@[0], bits::log2(mat.rows())));
                assert(covers(inv_denoms@, points@[1], bits::log2(mat.rows())));
            }
            let diffs0: Vec<Ext> = self.diff_invs_at(inv_denoms, log_height, log_h, points[0]);
            let diffs1: Vec<Ext> = self.diff_invs_at(inv_denoms, log_height, log_h, points[1]);
            let (ys0, ys1) = interpolation::interpolate_coset_precomputed_2point(
                mat,
                log_h,
                Felt { value: 31 },
                points[0],
                diffs0.as_slice(),
                points[1],
                diffs1.as_slice(),
            );
            assert(ys0@ =~= opened_row(*mat, self.fri.log_blowup as nat, points@[0]));
            assert(ys1@ =~= opened_row(*mat, self.fri.log_blowup as nat, points@[1]));
            let mut r: Vec<Vec<Ext>> = Vec::new();
            r.push(ys0);
            r.push(ys1);
            r
        } else {
            self.open_matrix_sequential(mat, points, inv_denoms)
        }
    }
}

/// How many matrices of a round are opened: those that have points.
pub open spec fn opened_count(mats: Seq<Matrix<Felt>>, points: Seq<Vec<Ext>>) -> nat {
    reducer::shorter(mats.len(), points.len())
}

/// Whether `r` holds, for each matrix and point of a round, the values of the columns.
pub open spec fn round_opened(
    mats: Seq<Matrix<Felt>>,
    points: Seq<Vec<Ext>>,
    log_blowup: nat,
    r: Seq<Vec<Vec<Ext>>>,
) -> bool {
    &&& r.len() == opened_count(mats, points)
    &&& forall|i: int| 0 <= i < r.len() ==> (#[trigger] r[i])@.len() == points[i]@.len()
    &&& forall|i: int, p: int|
        0 <= i < r.len() && 0 <= p < points[i]@.len() ==> (#[trigger] r[i]@[p])@ == opened_row(
            mats[i],
            log_blowup,
            points[i]@[p],
        )
}

/// Whether `r` holds the values of all rounds.
pub open spec fn all_opened(
    rounds: Seq<(&Vec<Matrix<Felt>>, &Vec<Vec<Ext>>)>,
    log_blowup: nat,
    r: Seq<Vec<Vec<Vec<Ext>>>>,
) -> bool {
    &&& r.len() == rounds.len()
    &&& forall|k: int|
        0 <= k < r.len() ==> round_opened(
            rounds[k].0@,
            rounds[k].1@,
            log_blowup,
            (#[trigger] r[k])@,
        )
}

/// Whether the inverses cover every opening of a round.
pub open spec fn covers_round(
    view: Map<PointKey, Seq<Ext>>,
    mats: Seq<Matrix<Felt>>,
    points: Seq<Vec<Ext>>,
) -> bool {
    forall|i: int, p: int|
        0 <= i < opened_count(mats, points) && 0 <= p < points[i]@.len() ==> covers(
            view,
            #[trigger] points[i]@[p],
            bits::log2(mats[i].rows()),
        )
}

/// The matrices are extensions by the blowup factor, some matrix is opened at some point, and no
/// point is on the coset of a matrix that is opened at it.
pub open spec fn openable(
    rounds: Seq<(&Vec<Matrix<Felt>>, &Vec<Vec<Ext>>)>,
    log_blowup: nat,
) -> bool {
    &&& forall|k: int, i: int|
        0 <= k < rounds.len() && 0 <= i < rounds[k].0@.len() ==> is_leaf(
            #[trigger] rounds[k].0@[i],
            log_blowup,
        )
    &&& exists|key: PointKey|
        denominators::point_heights(denominators::mats_shape(rounds)).contains_key(key)
    &&& denominators::points_off_coset(
        denominators::point_heights(denominators::mats_shape(rounds)),
        lde::generator(),
    )
}

/// The inverse denominators of the rounds cover each of them.
pub proof fn lemma_covers_rounds(
    rounds: Seq<(&Vec<Matrix<Felt>>, &Vec<Vec<Ext>>)>,
    log_blowup: nat,
    view: Map<PointKey, Seq<Ext>>,
)
    requires
        openable(rounds, log_blowup),
        denominators::inverts(
            view,
            denominators::point_heights(denominators::mats_shape(rounds)),
            lde::generator(),
        ),
    ensures
        forall|k: int|
            0 <= k < rounds.len() ==> covers_round(view, (#[trigger] rounds[k]).0@, rounds[k].1@),
{
    let shape = denominators::mats_shape(rounds);
    lemma_shape_ok(rounds, log_blowup);
    denominators::lemma_note_rounds(shape, shape.len());
    let heights = denominators::point_heights(shape);
    assert forall|k: int| 0 <= k < rounds.len() implies covers_round(
        view,
        (#[trigger] rounds[k]).0@,
        rounds[k].1@,
    ) by {
        let (mats, points) = (rounds[k].0@, rounds[k].1@);
        assert forall|i: int, p: int|
            0 <= i < opened_count(mats, points) && 0 <= p < points[i]@.len() implies covers(
            view,
            #[trigger] points[i]@[p],
            bits::log2(mats[i].rows()),
        ) by {
            let z = points[i]@[p];
            assert(shape[k].0.len() == mats.len() && shape[k].1.len() == points.len());
            assert(shape[k].1[i] == points[i]@);
            assert(shape[k].1[i][p] == z);
            assert(shape[k].0[i] == mats[i].rows());
            assert(heights.contains_key(denominators::point_key(shape[k].1[i][p])));
            lemma_covers(view, heights, z, bits::log2(mats[i].rows()));
        }
    }
}

pub proof fn lemma_shape_ok(rounds: Seq<(&Vec<Matrix<Felt>>, &Vec<Vec<Ext>>)>, log_blowup: nat)
    requires
        openable(rounds, log_blowup),
    ensures
        denominators::heights_ok(denominators::mats_shape(rounds)),
        forall|r: int, i: int|
            0 <= r < rounds.len() && 0 <= i < rounds[r].0@.len() ==> (
            #[trigger] rounds[r].0@[i]).width > 0,
{
    let shape = denominators::mats_shape(rounds);
    assert forall|r: int, i: int|
        0 <= r < shape.len() && 0 <= i < denominators::round_len(shape[r]) implies bits::is_pow2(
        #[trigger] shape[r].0[i],
    ) && bits::log2(shape[r].0[i]) <= 27 by {
        assert(shape[r].0[i] == rounds[r].0@[i].rows());
        assert(is_leaf(rounds[r].0@[i], log_blowup));
    }
    assert forall|r: int, i: int|
        0 <= r < rounds.len() && 0 <= i < rounds[r].0@.len() implies (
    #[trigger] rounds[r].0@[i]).width > 0 by {
        assert(is_leaf(rounds[r].0@[i], log_blowup));
    }
}

/// What an opening computes before the batching challenge is known.
pub struct Opening {
    pub opened_values: OpenedValues,
    pub inv_denoms: InverseDenominators,
    /// The height of the highest matrix, as a logarithm.
    pub log_global_max_height: usize,
    /// The width of the widest matrix.
    pub global_max_width: usize,
}

/// The largest height, as a logarithm, and the largest width over all matrices.
pub open spec fn largest(
    rounds: Seq<(&Vec<Matrix<Felt>>, &Vec<Vec<Ext>>)>,
    log_height: nat,
    width: nat,
) -> bool {
    &&& forall|k: int, i: int|
        0 <= k < rounds.len() && 0 <= i < rounds[k].0@.len() ==> bits::log2(
            (#[trigger] rounds[k].0@[i]).rows(),
        ) <= log_height && rounds[k].0@[i].width <= width
    &&& exists|k: int, i: int|
        0 <= k < rounds.len() && 0 <= i < rounds[k].0@.len() && bits::log2(
            (#[trigger] rounds[k].0@[i]).rows(),
        ) == log_height
    &&& exists|k: int, i: int|
        0 <= k < rounds.len() && 0 <= i < rounds[k].0@.len() && (
        #[trigger] rounds[k].0@[i]).width == width
}

impl Opening {
    /// What holds of the opening of `rounds`.
    pub open spec fn opens(
        &self,
        rounds: Seq<(&Vec<Matrix<Felt>>, &Vec<Vec<Ext>>)>,
        log_blowup: nat,
    ) -> bool {
        &&& all_opened(rounds, log_blowup, self.opened_values@)
        &&& self.inv_denoms.well_formed()
        &&& denominators::inverts(
            self.inv_denoms@,
            denominators::point_heights(denominators::mats_shape(rounds)),
            lde::generator(),
        )
        &&& largest(rounds, self.log_global_max_height as nat, self.global_max_width as nat)
    }
}

/// The largest height, as a logarithm, and the largest width over all matrices.
fn max_dimensions(rounds: &Vec<(&Vec<Matrix<Felt>>, &Vec<Vec<Ext>>)>, Ghost(log_blowup): Ghost<nat>) -> (r: (
    usize,
    usize,
))
    requires
        openable(rounds@, log_blowup),
    ensures
        largest(rounds@, r.0 as nat, r.1 as nat),
{
    let mut log_height: usize = 0;
    let mut width: usize = 0;
    let mut found: bool = false;
    let mut k: usize = 0;
    while k < rounds.len()
        invariant
            k <= rounds@.len(),
            openable(rounds@, log_blowup),
            !found ==> log_height == 0 && width == 0 && forall|r: int|
                0 <= r < k ==> (#[trigger] rounds@[r]).0@.len() == 0,
            forall|r: int, i: int|
                0 <= r < k && 0 <= i < rounds@[r].0@.len() ==> bits::log2(
                    (#[trigger] rounds@[r].0@[i]).rows(),
                ) <= log_height && rounds@[r].0@[i].width <= width,
            found ==> exists|r: int, i: int|
                0 <= r < k && 0 <= i < rounds@[r].0@.len() && bits::log2(
                    (#[trigger] rounds@[r].0@[i]).rows(),
                ) == log_height,
            found ==> exists|r: int, i: int|
                0 <= r < k && 0 <= i < rounds@[r].0@.len() && (
                #[trigger] rounds@[r].0@[i]).width == width,
        decreases rounds@.len() - k,
    {
        let mats: &Vec<Matrix<Felt>> = rounds[k].0;
        let mut i: usize = 0;
        while i < mats.len()
            invariant
                k < rounds@.len(),
                mats@ == rounds@[k as int].0@,
                i <= mats@.len(),
                openable(rounds@, log_blowup),
                !found ==> log_height == 0 && width == 0 && i == 0 && forall|r: int|
                    0 <= r < k ==> (#[trigger] rounds@[r]).0@.len() == 0,
                forall|r: int, e: int|
                    (0 <= r < k && 0 <= e < rounds@[r].0@.len()) || (r == k && 0 <= e < i)
                        ==> bits::log2((#[trigger] rounds@[r].0@[e]).rows()) <= log_height
                        && rounds@[r].0@[e].width <= width,
                found ==> exists|r: int, e: int|
                    0 <= r <= k && 0 <= e < rounds@[r].0@.len() && (r == k ==> e < i) && bits::log2(
                        (#[trigger] rounds@[r].0@[e]).rows(),
                    ) == log_height,
                found ==> exists|r: int, e: int|
                    0 <= r <= k && 0 <= e < rounds@[r].0@.len() && (r == k ==> e < i) && (
                    #[trigger] rounds@[r].0@[e]).width == width,
            decreases mats@.len() - i,
        {
            assert(is_leaf(rounds@[k as int].0@[i as int], log_blowup));
            let lh: usize = p3_util::log2_strict_usize(mats[i].height());
            if !found || lh > log_height {
                log_height = lh;
                assert(bits::log2(rounds@[k as int].0@[i as int].rows()) == log_height);
            }
            if !found || mats[i].width > width {
                width = mats[i].width;
                assert(rounds@[k as int].0@[i as int].width == width);
            }
            found = true;
            i = i + 1;
        }
        k = k + 1;
    }
    proof {
        if !found {
            lemma_no_points(rounds@);
            assert(false);
        }
    }
    (log_height, width)
}

/// Without matrices no point is opened.
pub proof fn lemma_no_points(rounds: Seq<(&Vec<Matrix<Felt>>, &Vec<Vec<Ext>>)>)
    requires
        forall|r: int| 0 <= r < rounds.len() ==> (#[trigger] rounds[r]).0@.len() == 0,
    ensures
        denominators::point_heights(denominators::mats_shape(rounds)) == Map::<
            PointKey,
            usize,
        >::empty(),
{
    lemma_no_points_prefix(rounds, rounds.len());
    assert(denominators::mats_shape(rounds).len() == rounds.len());
}

proof fn lemma_no_points_prefix(rounds: Seq<(&Vec<Matrix<Felt>>, &Vec<Vec<Ext>>)>, n: nat)
    requires
        n <= rounds.len(),
        forall|r: int| 0 <= r < rounds.len() ==> (#[trigger] rounds[r]).0@.len() == 0,
    ensures
        denominators::note_rounds(denominators::mats_shape(rounds), n) == Map::<
            PointKey,
            usize,
        >::empty(),
    decreases n,
{
    if n > 0 {
        lemma_no_points_prefix(rounds, (n - 1) as nat);
        let shape = denominators::mats_shape(rounds);
        assert(shape[n - 1].0.len() == rounds[n - 1].0@.len());
    }
}

impl TwoAdicFriPcs {
    /// Opens the matrices of one round.
    fn open_round(
        &self,
        mats: &Vec<Matrix<Felt>>,
        points: &Vec<Vec<Ext>>,
        inv_denoms: &InverseDenominators,
    ) -> (r: Vec<Vec<Vec<Ext>>>)
        requires
            forall|i: int|
                0 <= i < mats@.len() ==> is_leaf(
                    #[trigger] mats@[i],
                    self.fri.log_blowup as nat,
                ),
            inv_denoms.well_formed(),
            covers_round(inv_denoms@, mats@, points@),
        ensures
            round_opened(mats@, points@, self.fri.log_blowup as nat, r@),
    {
        let mut r: Vec<Vec<Vec<Ext>>> = Vec::new();
        let mut i: usize = 0;
        while i < mats.len() && i < points.len()
            invariant
                i <= opened_count(mats@, points@),
                forall|i: int|
                    0 <= i < mats@.len() ==> is_leaf(
                        #[trigger] mats@[i],
                        self.fri.log_blowup as nat,
                    ),
                inv_denoms.well_formed(),
                covers_round(inv_denoms@, mats@, points@),
                r@.len() == i,
                forall|k: int| 0 <= k < i ==> (#[trigger] r@[k])@.len() == points@[k]@.len(),
                forall|k: int, p: int|
                    0 <= k < i && 0 <= p < points@[k]@.len() ==> (#[trigger] r@[k]@[p])@
                        == opened_row(mats@[k], self.fri.log_blowup as nat, points@[k]@[p]),
            decreases mats@.len() - i,
        {
            assert forall|p: int| 0 <= p < points@[i as int]@.len() implies covers(
                inv_denoms@,
                #[trigger] points@[i as int]@[p],
                bits::log2(mats@[i as int].rows()),
            ) by {}
            let opened: Vec<Vec<Ext>> = self.open_matrix(&mats[i], &points[i], inv_denoms);
            r.push(opened);
            i = i + 1;
        }
        r
    }

    /// Opens the matrices of one round, one point after the other.
    pub(crate) fn open_round_sequential(
        &self,
        mats: &Vec<Matrix<Felt>>,
        points: &Vec<Vec<Ext>>,
        inv_denoms: &InverseDenominators,
    ) -> (r: Vec<Vec<Vec<Ext>>>)
        requires
            forall|i: int|
                0 <= i < mats@.len() ==> is_leaf(
                    #[trigger] mats@[i],
                    self.fri.log_blowup as nat,
                ),
            inv_denoms.well_formed(),
            covers_round(inv_denoms@, mats@, points@),
        ensures
            round_opened(mats@, points@, self.fri.log_blowup as nat, r@),
    {
        let mut r: Vec<Vec<Vec<Ext>>> = Vec::new();
        let mut i: usize = 0;
        while i < mats.len() && i < points.len()
            invariant
                i <= opened_count(mats@, points@),
                forall|i: int|
                    0 <= i < mats@.len() ==> is_leaf(
                        #[trigger] mats@[i],
                        self.fri.log_blowup as nat,
                    ),
                inv_denoms.well_formed(),
                covers_round(inv_denoms@, mats@, points@),
                r@.len() == i,
                forall|k: int| 0 <= k < i ==> (#[trigger] r@[k])@.len() == points@[k]@.len(),
                forall|k: int, p: int|
                    0 <= k < i && 0 <= p < points@[k]@.len() ==> (#[trigger] r@[k]@[p])@
                        == opened_row(mats@[k], self.fri.log_blowup as nat, points@[k]@[p]),
            decreases mats@.len() - i,
        {
            assert forall|p: int| 0 <= p < points@[i as int]@.len() implies covers(
                inv_denoms@,
                #[trigger] points@[i as int]@[p],
                bits::log2(mats@[i as int].rows()),
            ) by {}
            let opened: Vec<Vec<Ext>> = self.open_matrix_sequential(&mats[i], &points[i], inv_denoms);
            r.push(opened);
            i = i + 1;
        }
        r
    }

    /// Opens committed matrices: the values of their columns at the points. The values are to be
    /// observed by the challenger before the batching challenge is drawn.
    pub fn open(&self, rounds: &Vec<(&Vec<Matrix<Felt>>, &Vec<Vec<Ext>>)>) -> (r: Opening)
        requires
            openable(rounds@, self.fri.log_blowup as nat),
        ensures
            r.opens(rounds@, self.fri.log_blowup as nat),
    {
        let (log_global_max_height, global_max_width) = max_dimensions(
            rounds,
            Ghost(self.fri.log_blowup as nat),
        );
        proof {
            lemma_shape_ok(rounds@, self.fri.log_blowup as nat);
        }
        let inv_denoms: InverseDenominators = denominators::compute_inverse_denominators(
            rounds,
            Felt { value: 31 },
        );
        proof {
            lemma_covers_rounds(rounds@, self.fri.log_blowup as nat, inv_denoms@);
        }
        let mut opened_values: OpenedValues = Vec::new();
        let mut k: usize = 0;
        while k < rounds.len()
            invariant
                k <= rounds@.len(),
                openable(rounds@, self.fri.log_blowup as nat),
                inv_denoms.well_formed(),
                forall|k: int|
                    0 <= k < rounds@.len() ==> covers_round(
                        inv_denoms@,
                        (#[trigger] rounds@[k]).0@,
                        rounds@[k].1@,
                    ),
                opened_values@.len() == k,
                forall|e: int|
                    0 <= e < k ==> round_opened(
                        rounds@[e].0@,
                        rounds@[e].1@,
                        self.fri.log_blowup as nat,
                        (#[trigger] opened_values@[e])@,
                    ),
            decreases rounds@.len() - k,
        {
            assert forall|i: int| 0 <= i < rounds@[k as int].0@.len() implies is_leaf(
                #[trigger] rounds@[k as int].0@[i],
                self.fri.log_blowup as nat,
            ) by {}
            let opened = self.open_round(rounds[k].0, rounds[k].1, &inv_denoms);
            opened_values.push(opened);
            k = k + 1;
        }
        Opening { opened_values, inv_denoms, log_global_max_height, global_max_width }
    }
}

/// The value that a matrix is opened to at `z` is the value at `z` of the polynomial that was
/// committed: reading a commitment gives back what was written.
proof fn lemma_opened_value(
    domain: Coset,
    evals: Matrix<Felt>,
    log_blowup: nat,
    mat: Matrix<Felt>,
    z: Ext,
    c: int,
    coeffs: Seq<Felt>,
    view: Map<PointKey, Seq<Ext>>,
)
    requires
        lde::is_lde(domain, evals, log_blowup, mat),
        evals.well_formed(),
        evals.rows() == pow2(domain.log_n as nat),
        domain.log_n + log_blowup <= 27,
        0 <= c < evals.width,
        lde::column_is(evals, c, domain.log_n as nat, domain.shift, coeffs),
        covers(view, z, domain.log_n as nat + log_blowup),
    ensures
        opened_value(mat, log_blowup, z, c) == ring::poly(interpolation::embedded(coeffs), z),
{
    let log_h = domain.log_n as nat;
    let large = log_h + log_blowup;
    lde::lemma_lde_rows(evals, log_blowup, mat);
    lemma_pow2_adds(log_h, log_blowup);
    bits::lemma_log2_pow2(large);
    lemma_covers_smaller(view, z, large, log_h);
    let g = lde::generator();
    let invs = diff_invs(log_h, z);
    if log_h < large {
        lemma_pow2_strictly_increases(log_h, large);
    }
    assert forall|i: int| 0 <= i < pow2(log_h) implies #[trigger] invs[i].times(
        ring::minus(z, ext::embed(barycentric::coset_point(g, log_h, i as nat))),
    ) == Ext::one_spec() by {
        let j = bits::bitrev(i as nat, log_h);
        bits::lemma_bitrev_bound(i as nat, log_h);
        bits::lemma_bitrev_involution(i as nat, log_h);
        let x = denominators::reversed_point(g, log_h, j);
        let ex = ext::embed(x);
        let d = ring::minus(ex, z);
        assert(ring::invertible(d));
        let s = choose|s: Ext| d.times(s) == Ext::one_spec();
        ring::lemma_inv(d, s);
        // (-1 / (x - z)) (z - x) = 1
        let w = ring::inv(d);
        let e = ring::minus(z, ex);
        assert(e == d.negated()) by {
            ring::lemma_neg_add(ex, z.negated());
            ring::lemma_neg_neg(z);
            Ext::law_add_comm(ex.negated(), ring::reduced(z));
            ring::lemma_add_reduced(z, ex.negated());
        }
        ring::lemma_mul_neg(w.negated(), d);
        ring::lemma_mul_neg(d, w);
        ring::lemma_neg_neg(d.times(w));
        ring::lemma_mul_reduced(d, w);
        Ext::law_mul_comm(w.negated(), d);
    }
    assert forall|i: int| 0 <= i < pow2(log_h) implies #[trigger] mat.at(
        bits::bitrev(i as nat, log_h) as int,
        c,
    ) == ring::poly(coeffs, barycentric::coset_point(g, log_h, i as nat)) by {
        let j = bits::bitrev(i as nat, log_h);
        bits::lemma_bitrev_bound(i as nat, log_h);
        bits::lemma_bitrev_involution(i as nat, log_h);
        denominators::lemma_reversed_prefix(g, log_h, large, j);
        assert(mat.at(j as int, c) == ring::poly(coeffs, denominators::reversed_point(g, large, j)));
    }
    interpolation::law_interpolation(mat, log_h, g, z, invs, c, coeffs);
}

/// Opening a commitment gives back what was committed: where column `c` of a matrix was committed
/// from the values of a polynomial on its domain, each opened value of that column is the value
/// of the polynomial at the opening point.
pub proof fn law_open_returns_committed(
    rounds: Seq<(&Vec<Matrix<Felt>>, &Vec<Vec<Ext>>)>,
    opening: Opening,
    log_blowup: nat,
    k: int,
    i: int,
    p: int,
    c: int,
    domain: Coset,
    evals: Matrix<Felt>,
    coeffs: Seq<Felt>,
)
    requires
        openable(rounds, log_blowup),
        opening.opens(rounds, log_blowup),
        0 <= k < rounds.len(),
        0 <= i < opened_count(rounds[k].0@, rounds[k].1@),
        0 <= p < rounds[k].1@[i]@.len(),
        lde::is_lde(domain, evals, log_blowup, rounds[k].0@[i]),
        evals.well_formed(),
        evals.rows() == pow2(domain.log_n as nat),
        0 <= c < evals.width,
        lde::column_is(evals, c, domain.log_n as nat, domain.shift, coeffs),
    ensures
        opening.opened_values@[k]@[i]@[p]@[c] == ring::poly(
            interpolation::embedded(coeffs),
            rounds[k].1@[i]@[p],
        ),
{
    let mat = rounds[k].0@[i];
    let z = rounds[k].1@[i]@[p];
    assert(is_leaf(rounds[k].0@[i], log_blowup));
    lemma_covers_rounds(rounds, log_blowup, opening.inv_denoms@);
    assert(covers_round(opening.inv_denoms@, rounds[k].0@, rounds[k].1@));
    lde::lemma_lde_rows(evals, log_blowup, mat);
    lemma_pow2_adds(domain.log_n as nat, log_blowup);
    bits::lemma_log2_pow2(domain.log_n as nat + log_blowup);
    lemma_opened_value(domain, evals, log_blowup, mat, z, c, coeffs, opening.inv_denoms@);
    assert(round_opened(rounds[k].0@, rounds[k].1@, log_blowup, opening.opened_values@[k]@));
    assert(opening.opened_values@[k]@[i]@[p]@ == opened_row(mat, log_blowup, z));
}

} // verus!
