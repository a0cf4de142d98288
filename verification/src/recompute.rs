//! Opening with matrices that are computed again from their evaluations, one round at a time.

use vstd::prelude::*;
use vstd::arithmetic::power2::*;
use crate::babybear::Felt;
use crate::bits;
use crate::denominators;
use crate::denominators::{InverseDenominators, PointKey, RoundShape};
use crate::ext;
use crate::ext::Ext;
use crate::honest;
use crate::interpolation;
use crate::lde;
use crate::lde::Coset;
use crate::matrix::{Dimensions, Matrix};
use crate::opening;
use crate::pcs;
use crate::pcs::{OpenedValues, Opening, TwoAdicFriPcs};
use crate::reduction;
use crate::ring;
use crate::ring::Ring;
use crate::sequential;
use crate::sequential::CachedRound;

verus! {

/// The evaluations from which the matrices of a round are computed again; none for a round that
/// has its matrices.
pub type RoundOriginals = Option<Vec<(Coset, Matrix<Felt>)>>;

/// Whether evaluations can be extended.
pub open spec fn extendable(evals: Matrix<Felt>, domain: Coset, log_blowup: nat) -> bool {
    &&& evals.well_formed()
    &&& bits::is_pow2(evals.rows())
    &&& bits::log2(evals.rows()) + log_blowup <= 27
    &&& ring::reduced(domain.shift) != Felt::zero_spec()
}

/// What is committed of `evals`, on the coset of as many points as there are rows.
pub open spec fn extends(
    domain: Coset,
    evals: Matrix<Felt>,
    log_blowup: nat,
    mat: Matrix<Felt>,
) -> bool {
    lde::is_lde(
        (Coset { log_n: bits::log2(evals.rows()) as usize, shift: domain.shift }),
        evals,
        log_blowup,
        mat,
    )
}

/// Whether `mats` are the matrices of a round: those that it has, or those computed from its
/// evaluations.
pub open spec fn restores<D>(
    mats: Vec<Matrix<Felt>>,
    round: CachedRound<D>,
    originals: RoundOriginals,
    log_blowup: nat,
) -> bool {
    match originals {
        Some(v) => mats@.len() == v@.len() && forall|i: int|
            0 <= i < v@.len() ==> extends(v@[i].0, v@[i].1, log_blowup, #[trigger] mats@[i]),
        None => mats == round.matrices(),
    }
}

/// As [`restores`], for all rounds.
pub open spec fn restores_all<D>(
    mats: Seq<Vec<Matrix<Felt>>>,
    rounds: Seq<CachedRound<D>>,
    originals: Seq<RoundOriginals>,
    log_blowup: nat,
) -> bool {
    &&& mats.len() == rounds.len()
    &&& forall|k: int|
        0 <= k < mats.len() ==> restores(#[trigger] mats[k], rounds[k], originals[k], log_blowup)
}

/// The matrices of the rounds with their points.
pub open spec fn restored_refs<'a, D>(
    mats: Seq<Vec<Matrix<Felt>>>,
    rounds: Seq<CachedRound<D>>,
) -> Seq<(&'a Vec<Matrix<Felt>>, &'a Vec<Vec<Ext>>)> {
    Seq::new(mats.len(), |k: int| (&mats[k], &rounds[k].points))
}

/// The heights that the matrices of a round have.
pub open spec fn planned_heights<D>(
    round: CachedRound<D>,
    originals: RoundOriginals,
    log_blowup: nat,
) -> Seq<nat> {
    match originals {
        Some(v) => Seq::new(v@.len(), |i: int| v@[i].1.rows() * pow2(log_blowup)),
        None => round.matrices()@.map_values(|m: Matrix<Felt>| m.rows()),
    }
}

/// The heights and points of all rounds.
pub open spec fn planned_shape<D>(
    rounds: Seq<CachedRound<D>>,
    originals: Seq<RoundOriginals>,
    log_blowup: nat,
) -> Seq<RoundShape> {
    Seq::new(
        rounds.len(),
        |k: int|
            (
                planned_heights(rounds[k], originals[k], log_blowup),
                rounds[k].points@.map_values(|p: Vec<Ext>| p@),
            ),
    )
}

/// Whether the matrices of a round can be had, and are extensions by the blowup factor.
pub open spec fn round_ready<D>(
    round: CachedRound<D>,
    originals: RoundOriginals,
    log_blowup: nat,
) -> bool {
    match originals {
        Some(v) => forall|i: int|
            0 <= i < v@.len() ==> extendable((#[trigger] v@[i]).1, v@[i].0, log_blowup),
        None => forall|i: int|
            0 <= i < round.matrices()@.len() ==> pcs::is_leaf(
                #[trigger] round.matrices()@[i],
                log_blowup,
            ),
    }
}

/// Every round's matrices can be had, some matrix is opened at some point, and no point is on the
/// coset of a matrix that is opened at it.
pub open spec fn recomputable<D>(
    rounds: Seq<CachedRound<D>>,
    originals: Seq<RoundOriginals>,
    log_blowup: nat,
) -> bool {
    let heights = denominators::point_heights(planned_shape(rounds, originals, log_blowup));
    &&& originals.len() == rounds.len()
    &&& forall|k: int|
        0 <= k < rounds.len() ==> round_ready(#[trigger] rounds[k], originals[k], log_blowup)
    &&& exists|key: PointKey| heights.contains_key(key)
    &&& denominators::points_off_coset(heights, lde::generator())
}

/// The matrices of a round have the planned heights.
proof fn lemma_restored<D>(
    mats: Vec<Matrix<Felt>>,
    round: CachedRound<D>,
    originals: RoundOriginals,
    log_blowup: nat,
)
    requires
        round_ready(round, originals, log_blowup),
        restores(mats, round, originals, log_blowup),
    ensures
        mats@.map_values(|m: Matrix<Felt>| m.rows()) == planned_heights(
            round,
            originals,
            log_blowup,
        ),
        forall|i: int|
            0 <= i < mats@.len() ==> pcs::is_leaf(#[trigger] mats@[i], log_blowup),
{
    if let Some(v) = originals {
        assert forall|i: int| 0 <= i < mats@.len() implies pcs::is_leaf(
            #[trigger] mats@[i],
            log_blowup,
        ) && mats@[i].rows() == v@[i].1.rows() * pow2(log_blowup) by {
            assert(extendable(v@[i].1, v@[i].0, log_blowup));
            assert(extends(v@[i].0, v@[i].1, log_blowup, mats@[i]));
            let log_n = bits::log2(v@[i].1.rows());
            lde::lemma_lde_rows(v@[i].1, log_blowup, mats@[i]);
            lemma_pow2_adds(log_n, log_blowup);
            bits::lemma_log2_pow2(log_n + log_blowup);
        }
        assert(mats@.map_values(|m: Matrix<Felt>| m.rows()) =~= planned_heights(
            round,
            originals,
            log_blowup,
        ));
    }
}

/// The rounds can be opened.
proof fn lemma_openable<D>(
    mats: Seq<Vec<Matrix<Felt>>>,
    rounds: Seq<CachedRound<D>>,
    originals: Seq<RoundOriginals>,
    log_blowup: nat,
)
    requires
        recomputable(rounds, originals, log_blowup),
        restores_all(mats, rounds, originals, log_blowup),
    ensures
        denominators::mats_shape(restored_refs(mats, rounds)) == planned_shape(
            rounds,
            originals,
            log_blowup,
        ),
        pcs::openable(restored_refs(mats, rounds), log_blowup),
{
    let refs = restored_refs(mats, rounds);
    let shape = planned_shape(rounds, originals, log_blowup);
    assert forall|k: int| 0 <= k < rounds.len() implies #[trigger] denominators::mats_shape(refs)[k]
        == shape[k] by {
        assert(round_ready(rounds[k], originals[k], log_blowup));
        assert(restores(mats[k], rounds[k], originals[k], log_blowup));
        lemma_restored(mats[k], rounds[k], originals[k], log_blowup);
    }
    assert(denominators::mats_shape(refs) =~= shape);
    assert forall|k: int, i: int|
        0 <= k < refs.len() && 0 <= i < refs[k].0@.len() implies pcs::is_leaf(
        #[trigger] refs[k].0@[i],
        log_blowup,
    ) by {
        assert(round_ready(rounds[k], originals[k], log_blowup));
        assert(restores(mats[k], rounds[k], originals[k], log_blowup));
        lemma_restored(mats[k], rounds[k], originals[k], log_blowup);
        assert(pcs::is_leaf(mats[k]@[i], log_blowup));
    }
}

/// The planned heights are powers of two that the roots of unity reach.
proof fn lemma_planned<D>(
    rounds: Seq<CachedRound<D>>,
    originals: Seq<RoundOriginals>,
    log_blowup: nat,
)
    requires
        recomputable(rounds, originals, log_blowup),
    ensures
        denominators::heights_ok(planned_shape(rounds, originals, log_blowup)),
{
    let shape = planned_shape(rounds, originals, log_blowup);
    assert forall|k: int, i: int|
        0 <= k < shape.len() && 0 <= i < denominators::round_len(shape[k]) implies bits::is_pow2(
        #[trigger] shape[k].0[i],
    ) && bits::log2(shape[k].0[i]) <= 27 by {
        assert(round_ready(rounds[k], originals[k], log_blowup));
        match originals[k] {
            Some(v) => {
                assert(extendable(v@[i].1, v@[i].0, log_blowup));
                let log_n = bits::log2(v@[i].1.rows());
                lemma_pow2_adds(log_n, log_blowup);
                bits::lemma_log2_pow2(log_n + log_blowup);
            },
            None => {
                assert(pcs::is_leaf(rounds[k].matrices()@[i], log_blowup));
            },
        }
    }
}

fn copy_originals(v: &Vec<(Coset, Matrix<Felt>)>) -> (r: Vec<(Coset, Matrix<Felt>)>)
    ensures
        r@.len() == v@.len(),
        forall|i: int|
            0 <= i < v@.len() ==> (#[trigger] r@[i]).0 == v@[i].0 && opening::same_matrix(
                r@[i].1,
                v@[i].1,
            ),
{
    let mut r: Vec<(Coset, Matrix<Felt>)> = Vec::new();
    let mut i: usize = 0;
    while i < v.len()
        invariant
            i <= v@.len(),
            r@.len() == i,
            forall|e: int|
                0 <= e < i ==> (#[trigger] r@[e]).0 == v@[e].0 && opening::same_matrix(
                    r@[e].1,
                    v@[e].1,
                ),
        decreases v@.len() - i,
    {
        r.push((v[i].0, opening::copy_matrix(&v[i].1)));
        i = i + 1;
    }
    r
}

proof fn lemma_same_extension(
    domain: Coset,
    a: Matrix<Felt>,
    b: Matrix<Felt>,
    log_blowup: nat,
    mat: Matrix<Felt>,
)
    requires
        opening::same_matrix(a, b),
        extends(domain, a, log_blowup, mat),
    ensures
        extends(domain, b, log_blowup, mat),
{
    let log_n = bits::log2(b.rows()) as usize as nat;
    assert forall|c: int, coeffs: Seq<Felt>| #[trigger] lde::column_is(
        b,
        c,
        log_n,
        domain.shift,
        coeffs,
    ) implies lde::column_is(a, c, log_n, domain.shift, coeffs) by {
        assert forall|i: nat| i < pow2(log_n) implies #[trigger] a.at(i as int, c) == b.at(
            i as int,
            c,
        ) by {}
    }
}

/// The sizes that the matrices of a round have.
fn planned_dimensions<D>(
    round: &CachedRound<D>,
    originals: &RoundOriginals,
    log_blowup: usize,
) -> (r: Vec<Dimensions>)
    requires
        round_ready(*round, *originals, log_blowup as nat),
    ensures
        r@.map_values(|d: Dimensions| d.height as nat) == planned_heights(
            *round,
            *originals,
            log_blowup as nat,
        ),
        forall|mats: Vec<Matrix<Felt>>, i: int|
            restores(mats, *round, *originals, log_blowup as nat) && 0 <= i < r@.len()
                ==> r@[i].width == (#[trigger] mats@[i]).width,
{
    match originals {
        Some(v) => {
            let mut r: Vec<Dimensions> = Vec::new();
            let mut i: usize = 0;
            while i < v.len()
                invariant
                    i <= v@.len(),
                    r@.len() == i,
                    forall|e: int|
                        0 <= e < v@.len() ==> extendable(
                            (#[trigger] v@[e]).1,
                            v@[e].0,
                            log_blowup as nat,
                        ),
                    forall|e: int|
                        0 <= e < i ==> (#[trigger] r@[e]).height == v@[e].1.rows() * pow2(
                            log_blowup as nat,
                        ) && r@[e].width == v@[e].1.width,
                decreases v@.len() - i,
            {
                assert(extendable(v@[i as int].1, v@[i as int].0, log_blowup as nat));
                let rows: usize = v[i].1.height();
                proof {
                    let log_n = bits::log2(rows as nat);
                    vstd::layout::unsigned_int_max_values();
                    lemma_pow2_adds(log_n, log_blowup as nat);
                    bits::lemma_pow2_fits(log_n + log_blowup as nat);
                    bits::lemma_pow2_fits(log_blowup as nat);
                    vstd::bits::lemma_usize_shl_is_mul(1, log_blowup);
                }
                let blowup: usize = 1usize << log_blowup;
                r.push(Dimensions { width: v[i].1.width, height: rows * blowup });
                i = i + 1;
            }
            assert(r@.map_values(|d: Dimensions| d.height as nat) =~= planned_heights(
                *round,
                *originals,
                log_blowup as nat,
            ));
            assert forall|mats: Vec<Matrix<Felt>>, i: int|
                restores(mats, *round, *originals, log_blowup as nat) && 0 <= i
                    < r@.len() implies r@[i].width == (#[trigger] mats@[i]).width by {
                assert(extends(v@[i].0, v@[i].1, log_blowup as nat, mats@[i]));
            }
            r
        },
        None => {
            let r: Vec<Dimensions> = match &round.saved {
                Some(mats) => {
                    assert(round.matrices() == *mats);
                    assert forall|i: int| 0 <= i < mats@.len() implies (#[trigger] mats@[i]).width
                        > 0 by {
                        assert(pcs::is_leaf(round.matrices()@[i], log_blowup as nat));
                    }
                    denominators::dimensions_of(mats)
                },
                None => {
                    let mats = &round.data.leaves;
                    assert(round.matrices() == *mats);
                    assert forall|i: int| 0 <= i < mats@.len() implies (#[trigger] mats@[i]).width
                        > 0 by {
                        assert(pcs::is_leaf(round.matrices()@[i], log_blowup as nat));
                    }
                    denominators::dimensions_of(mats)
                },
            };
            assert(r@.map_values(|d: Dimensions| d.height as nat) =~= planned_heights(
                *round,
                *originals,
                log_blowup as nat,
            ));
            r
        },
    }
}

/// The largest height, as a logarithm, and the largest width.
fn largest_of(
    dims: &Vec<(Vec<Dimensions>, &Vec<Vec<Ext>>)>,
    Ghost(refs): Ghost<Seq<(&Vec<Matrix<Felt>>, &Vec<Vec<Ext>>)>>,
    Ghost(log_blowup): Ghost<nat>,
) -> (r: (usize, usize))
    requires
        pcs::openable(refs, log_blowup),
        dims@.len() == refs.len(),
        forall|k: int| 0 <= k < refs.len() ==> (#[trigger] dims@[k]).0@.len() == refs[k].0@.len(),
        forall|k: int, i: int|
            0 <= k < refs.len() && 0 <= i < refs[k].0@.len() ==> (#[trigger] dims@[k].0@[i]).height
                == refs[k].0@[i].rows() && dims@[k].0@[i].width == refs[k].0@[i].width,
    ensures
        pcs::largest(refs, r.0 as nat, r.1 as nat),
{
    let mut log_height: usize = 0;
    let mut width: usize = 0;
    let mut found: bool = false;
    let mut k: usize = 0;
    while k < dims.len()
        invariant
            k <= dims@.len(),
            pcs::openable(refs, log_blowup),
            dims@.len() == refs.len(),
            forall|k: int|
                0 <= k < refs.len() ==> (#[trigger] dims@[k]).0@.len() == refs[k].0@.len(),
            forall|k: int, i: int|
                0 <= k < refs.len() && 0 <= i < refs[k].0@.len() ==> (
                #[trigger] dims@[k].0@[i]).height == refs[k].0@[i].rows() && dims@[k].0@[i].width
                    == refs[k].0@[i].width,
            !found ==> log_height == 0 && width == 0 && forall|r: int|
                0 <= r < k ==> (#[trigger] refs[r]).0@.len() == 0,
            forall|r: int, i: int|
                0 <= r < k && 0 <= i < refs[r].0@.len() ==> bits::log2(
                    (#[trigger] refs[r].0@[i]).rows(),
                ) <= log_height && refs[r].0@[i].width <= width,
            found ==> exists|r: int, i: int|
                0 <= r < k && 0 <= i < refs[r].0@.len() && bits::log2(
                    (#[trigger] refs[r].0@[i]).rows(),
                ) == log_height,
            found ==> exists|r: int, i: int|
                0 <= r < k && 0 <= i < refs[r].0@.len() && (#[trigger] refs[r].0@[i]).width == width,
        decreases dims@.len() - k,
    {
        let sizes = &dims[k].0;
        let ghost kk = k as int;
        let mut i: usize = 0;
        while i < sizes.len()
            invariant
                k < dims@.len(),
                kk == k,
                *sizes == dims@[kk].0,
                dims@.len() == refs.len(),
                sizes@.len() == refs[kk].0@.len(),
                pcs::openable(refs, log_blowup),
                forall|e: int|
                    0 <= e < sizes@.len() ==> (#[trigger] sizes@[e]).height == refs[kk].0@[e].rows()
                        && sizes@[e].width == refs[kk].0@[e].width,
                i <= sizes@.len(),
                !found ==> log_height == 0 && width == 0 && i == 0 && forall|r: int|
                    0 <= r < k ==> (#[trigger] refs[r]).0@.len() == 0,
                forall|r: int, e: int|
                    (0 <= r < k && 0 <= e < refs[r].0@.len()) || (r == k && 0 <= e < i)
                        ==> bits::log2((#[trigger] refs[r].0@[e]).rows()) <= log_height
                        && refs[r].0@[e].width <= width,
                found ==> exists|r: int, e: int|
                    0 <= r <= k && 0 <= e < refs[r].0@.len() && (r == k ==> e < i) && bits::log2(
                        (#[trigger] refs[r].0@[e]).rows(),
                    ) == log_height,
                found ==> exists|r: int, e: int|
                    0 <= r <= k && 0 <= e < refs[r].0@.len() && (r == k ==> e < i) && (
                    #[trigger] refs[r].0@[e]).width == width,
            decreases sizes@.len() - i,
        {
            assert(pcs::is_leaf(refs[kk].0@[i as int], log_blowup));
            let lh: usize = p3_util::log2_strict_usize(sizes[i].height);
            if !found || lh > log_height {
                log_height = lh;
                assert(bits::log2(refs[kk].0@[i as int].rows()) == log_height);
            }
            if !found || sizes[i].width > width {
                width = sizes[i].width;
                assert(refs[kk].0@[i as int].width == width);
            }
            found = true;
            i = i + 1;
        }
        k = k + 1;
    }
    proof {
        if !found {
            pcs::lemma_no_points(refs);
            assert(false);
        }
    }
    (log_height, width)
}

impl TwoAdicFriPcs {
    /// The values of one round, whose matrices are computed again where it has none.
    fn open_restored<D>(
        &self,
        round: &CachedRound<D>,
        originals: &RoundOriginals,
        inv_denoms: &InverseDenominators,
    ) -> (r: (Vec<Vec<Vec<Ext>>>, Ghost<Vec<Matrix<Felt>>>))
        requires
            round_ready(*round, *originals, self.fri.log_blowup as nat),
            inv_denoms.well_formed(),
            forall|i: int, p: int|
                0 <= i < planned_heights(*round, *originals, self.fri.log_blowup as nat).len() && 0
                    <= i < round.points@.len() && 0 <= p < round.points@[i]@.len() ==> pcs::covers(
                    inv_denoms@,
                    #[trigger] round.points@[i]@[p],
                    bits::log2(
                        planned_heights(*round, *originals, self.fri.log_blowup as nat)[i],
                    ),
                ),
        ensures
            restores(r.1@, *round, *originals, self.fri.log_blowup as nat),
            pcs::round_opened(r.1@@, round.points@, self.fri.log_blowup as nat, r.0@),
    {
        let ghost log_blowup = self.fri.log_blowup as nat;
        match originals {
            Some(v) => {
                let copy = copy_originals(v);
                assert forall|i: int| 0 <= i < copy@.len() implies {
                    let (domain, evals) = #[trigger] copy@[i];
                    extendable(evals, domain, log_blowup)
                } by {
                    assert(extendable(v@[i].1, v@[i].0, log_blowup));
                }
                let ghost all = copy@;
                let ldes: Vec<Matrix<Felt>> = self.recompute_lde_owned(copy);
                proof {
                    assert forall|i: int| 0 <= i < v@.len() implies extends(
                        v@[i].0,
                        v@[i].1,
                        log_blowup,
                        #[trigger] ldes@[i],
                    ) by {
                        assert(all[i].0 == v@[i].0);
                        lemma_same_extension(v@[i].0, all[i].1, v@[i].1, log_blowup, ldes@[i]);
                    }
                    assert(restores(ldes, *round, *originals, log_blowup));
                    lemma_round_covered(ldes, *round, *originals, inv_denoms@, log_blowup);
                }
                let opened = self.open_round_sequential(&ldes, &round.points, inv_denoms);
                (opened, Ghost(ldes))
            },
            None => {
                let mats: &Vec<Matrix<Felt>> = match &round.saved {
                    Some(mats) => mats,
                    None => &round.data.leaves,
                };
                proof {
                    assert(restores(*mats, *round, *originals, log_blowup));
                    lemma_round_covered(*mats, *round, *originals, inv_denoms@, log_blowup);
                }
                let opened = self.open_round_sequential(mats, &round.points, inv_denoms);
                (opened, Ghost(*mats))
            },
        }
    }

    /// Opens committed matrices as [`TwoAdicFriPcs::open`] does. The matrices of a round with
    /// evaluations are computed from them, used and dropped before those of the next round are, so
    /// that those of at most one round are held at a time.
    pub fn open_sequential<D>(
        &self,
        rounds: &Vec<CachedRound<D>>,
        originals: &Vec<RoundOriginals>,
    ) -> (r: Opening)
        requires
            recomputable(rounds@, originals@, self.fri.log_blowup as nat),
        ensures
            exists|mats: Seq<Vec<Matrix<Felt>>>| #[trigger]
                restores_all(mats, rounds@, originals@, self.fri.log_blowup as nat),
            opens_restored(r, rounds@, originals@, self.fri.log_blowup as nat),
    {
        let ghost log_blowup = self.fri.log_blowup as nat;
        let ghost shape = planned_shape(rounds@, originals@, log_blowup);
        let ghost heights = denominators::point_heights(shape);
        let mut dims: Vec<(Vec<Dimensions>, &Vec<Vec<Ext>>)> = Vec::new();
        let mut k: usize = 0;
        while k < rounds.len()
            invariant
                k <= rounds@.len(),
                log_blowup == self.fri.log_blowup as nat,
                recomputable(rounds@, originals@, log_blowup),
                dims@.len() == k,
                forall|e: int|
                    0 <= e < k ==> (#[trigger] dims@[e]).0@.map_values(|d: Dimensions| d.height as nat)
                        == planned_heights(rounds@[e], originals@[e], log_blowup) && dims@[e].1
                        == &rounds@[e].points,
                forall|e: int, mats: Vec<Matrix<Felt>>, i: int|
                    0 <= e < k && restores(mats, rounds@[e], originals@[e], log_blowup) && 0 <= i
                        < dims@[e].0@.len() ==> (#[trigger] dims@[e].0@[i]).width == (
                    #[trigger] mats@[i]).width,
            decreases rounds@.len() - k,
        {
            assert(round_ready(rounds@[k as int], originals@[k as int], log_blowup));
            let sizes = planned_dimensions(&rounds[k], &originals[k], self.fri.log_blowup);
            dims.push((sizes, &rounds[k].points));
            k = k + 1;
        }
        proof {
            lemma_planned(rounds@, originals@, log_blowup);
            assert(denominators::dims_shape(dims@) =~= shape) by {
                assert forall|e: int| 0 <= e < shape.len() implies #[trigger] denominators::dims_shape(
                    dims@,
                )[e] == shape[e] by {
                    assert(dims@[e].1 == &rounds@[e].points);
                }
            }
            denominators::lemma_note_rounds(shape, shape.len());
        }
        let inv_denoms: InverseDenominators = denominators::compute_inverse_denominators_from_dims(
            &dims,
            self.fri.log_blowup,
            Felt { value: 31 },
        );
        let mut opened_values: OpenedValues = Vec::new();
        let ghost mut mats: Seq<Vec<Matrix<Felt>>> = Seq::empty();
        let mut k: usize = 0;
        while k < rounds.len()
            invariant
                k <= rounds@.len(),
                log_blowup == self.fri.log_blowup as nat,
                recomputable(rounds@, originals@, log_blowup),
                shape == planned_shape(rounds@, originals@, log_blowup),
                heights == denominators::point_heights(shape),
                denominators::heights_bounded(heights),
                forall|r: int, i: int, p: int|
                    0 <= r < shape.len() && 0 <= i < denominators::round_len(shape[r]) && 0 <= p
                        < shape[r].1[i].len() ==> heights.contains_key(
                        #[trigger] denominators::point_key(shape[r].1[i][p]),
                    ) && heights[denominators::point_key(shape[r].1[i][p])] >= bits::log2(
                        shape[r].0[i],
                    ),
                inv_denoms.well_formed(),
                denominators::inverts(inv_denoms@, heights, lde::generator()),
                mats.len() == k,
                opened_values@.len() == k,
                forall|e: int|
                    0 <= e < k ==> restores(
                        #[trigger] mats[e],
                        rounds@[e],
                        originals@[e],
                        log_blowup,
                    ),
                forall|e: int|
                    0 <= e < k ==> pcs::round_opened(
                        mats[e]@,
                        rounds@[e].points@,
                        log_blowup,
                        (#[trigger] opened_values@[e])@,
                    ),
            decreases rounds@.len() - k,
        {
            let ghost kk = k as int;
            assert(round_ready(rounds@[kk], originals@[kk], log_blowup));
            proof {
                let points = rounds@[kk].points@;
                let planned = planned_heights(rounds@[kk], originals@[kk], log_blowup);
                assert forall|i: int, p: int|
                    0 <= i < planned.len() && 0 <= i < points.len() && 0 <= p
                        < points[i]@.len() implies pcs::covers(
                    inv_denoms@,
                    #[trigger] points[i]@[p],
                    bits::log2(planned[i]),
                ) by {
                    assert(shape[kk].1[i] == points[i]@);
                    assert(shape[kk].1[i][p] == points[i]@[p]);
                    assert(shape[kk].0[i] == planned[i]);
                    assert(heights.contains_key(denominators::point_key(shape[kk].1[i][p])));
                    pcs::lemma_covers(inv_denoms@, heights, points[i]@[p], bits::log2(planned[i]));
                }
            }
            let (opened, restored) = self.open_restored(&rounds[k], &originals[k], &inv_denoms);
            opened_values.push(opened);
            proof {
                mats = mats.push(restored@);
            }
            k = k + 1;
        }
        let ghost refs = restored_refs(mats, rounds@);
        proof {
            assert(restores_all(mats, rounds@, originals@, log_blowup));
            lemma_openable(mats, rounds@, originals@, log_blowup);
            assert forall|e: int| 0 <= e < refs.len() implies (#[trigger] dims@[e]).0@.len()
                == refs[e].0@.len() by {
                lemma_sizes(dims@[e].0@, mats[e], rounds@[e], originals@[e], log_blowup);
            }
            assert forall|e: int, i: int| 0 <= e < refs.len() && 0 <= i < refs[e].0@.len() implies (
            #[trigger] dims@[e].0@[i]).height == refs[e].0@[i].rows() && dims@[e].0@[i].width
                == refs[e].0@[i].width by {
                lemma_sizes(dims@[e].0@, mats[e], rounds@[e], originals@[e], log_blowup);
                assert(restores(mats[e], rounds@[e], originals@[e], log_blowup));
                assert(dims@[e].0@[i].width == mats[e]@[i].width);
            }
        }
        let (log_global_max_height, global_max_width) = largest_of(
            &dims,
            Ghost(refs),
            Ghost(log_blowup),
        );
        let r = Opening { opened_values, inv_denoms, log_global_max_height, global_max_width };
        proof {
            assert(r.opens(refs, log_blowup));
            assert forall|others: Seq<Vec<Matrix<Felt>>>| #[trigger]
                restores_all(others, rounds@, originals@, log_blowup) implies {
                &&& pcs::openable(restored_refs(others, rounds@), log_blowup)
                &&& r.opens(restored_refs(others, rounds@), log_blowup)
            } by {
                lemma_openable(others, rounds@, originals@, log_blowup);
                lemma_restored_same(mats, others, rounds@, originals@, log_blowup);
                lemma_same_opens(refs, restored_refs(others, rounds@), r, log_blowup);
            }
        }
        r
    }
}

/// Whether an opening is that of the rounds with all matrices in place: those that the rounds have,
/// and those that are committed of the evaluations.
pub open spec fn opens_restored<D>(
    opening: Opening,
    rounds: Seq<CachedRound<D>>,
    originals: Seq<RoundOriginals>,
    log_blowup: nat,
) -> bool {
    forall|mats: Seq<Vec<Matrix<Felt>>>| #[trigger]
        restores_all(mats, rounds, originals, log_blowup) ==> {
            &&& pcs::openable(restored_refs(mats, rounds), log_blowup)
            &&& opening.opens(restored_refs(mats, rounds), log_blowup)
        }
}

/// Whether two lists of rounds have the same matrices and points.
pub open spec fn same_refs(
    a: Seq<(&Vec<Matrix<Felt>>, &Vec<Vec<Ext>>)>,
    b: Seq<(&Vec<Matrix<Felt>>, &Vec<Vec<Ext>>)>,
) -> bool {
    &&& a.len() == b.len()
    &&& forall|k: int|
        0 <= k < a.len() ==> (#[trigger] a[k]).1 == b[k].1 && a[k].0@.len() == b[k].0@.len()
    &&& forall|k: int, i: int|
        0 <= k < a.len() && 0 <= i < a[k].0@.len() ==> opening::same_matrix(
            #[trigger] a[k].0@[i],
            b[k].0@[i],
        )
}

/// However the matrices are had, they are the same.
proof fn lemma_restored_same<D>(
    a: Seq<Vec<Matrix<Felt>>>,
    b: Seq<Vec<Matrix<Felt>>>,
    rounds: Seq<CachedRound<D>>,
    originals: Seq<RoundOriginals>,
    log_blowup: nat,
)
    requires
        recomputable(rounds, originals, log_blowup),
        restores_all(a, rounds, originals, log_blowup),
        restores_all(b, rounds, originals, log_blowup),
    ensures
        same_refs(restored_refs(a, rounds), restored_refs(b, rounds)),
{
    let (ra, rb) = (restored_refs(a, rounds), restored_refs(b, rounds));
    assert forall|k: int| 0 <= k < ra.len() implies (#[trigger] ra[k]).1 == rb[k].1
        && ra[k].0@.len() == rb[k].0@.len() by {
        assert(restores(a[k], rounds[k], originals[k], log_blowup));
        assert(restores(b[k], rounds[k], originals[k], log_blowup));
    }
    assert forall|k: int, i: int| 0 <= k < ra.len() && 0 <= i < ra[k].0@.len() implies
        opening::same_matrix(#[trigger] ra[k].0@[i], rb[k].0@[i]) by {
        assert(restores(a[k], rounds[k], originals[k], log_blowup));
        assert(restores(b[k], rounds[k], originals[k], log_blowup));
        assert(round_ready(rounds[k], originals[k], log_blowup));
        if let Some(v) = originals[k] {
            let (domain, evals) = v@[i];
            assert(extendable(v@[i].1, v@[i].0, log_blowup));
            assert(extends(domain, evals, log_blowup, a[k]@[i]));
            assert(extends(domain, evals, log_blowup, b[k]@[i]));
            let coset = Coset { log_n: bits::log2(evals.rows()) as usize, shift: domain.shift };
            honest::law_extension_is_determined(coset, evals, log_blowup, a[k]@[i], b[k]@[i]);
        }
    }
}

/// Matrices that hold the same have the same values at a point.
proof fn lemma_same_row(a: Matrix<Felt>, b: Matrix<Felt>, log_blowup: nat, z: Ext)
    requires
        opening::same_matrix(a, b),
    ensures
        pcs::opened_row(a, log_blowup, z) == pcs::opened_row(b, log_blowup, z),
{
    let log_h = (bits::log2(a.rows()) - log_blowup) as nat;
    let invs = pcs::diff_invs(log_h, z);
    assert forall|c: int| 0 <= c < a.width implies #[trigger] pcs::opened_value(a, log_blowup, z, c)
        == pcs::opened_value(b, log_blowup, z, c) by {
        let f = |i: int|
            interpolation::weight(log_h, invs, i).times(
                ext::embed(a.at(bits::bitrev(i as nat, log_h) as int, c)),
            );
        let g = |i: int|
            interpolation::weight(log_h, invs, i).times(
                ext::embed(b.at(bits::bitrev(i as nat, log_h) as int, c)),
            );
        ring::lemma_sum_ext(pow2(log_h), f, g);
    }
    assert(pcs::opened_row(a, log_blowup, z) =~= pcs::opened_row(b, log_blowup, z));
}

proof fn lemma_same_shape(
    a: Seq<(&Vec<Matrix<Felt>>, &Vec<Vec<Ext>>)>,
    b: Seq<(&Vec<Matrix<Felt>>, &Vec<Vec<Ext>>)>,
)
    requires
        same_refs(a, b),
    ensures
        denominators::mats_shape(a) == denominators::mats_shape(b),
{
    let (sa, sb) = (denominators::mats_shape(a), denominators::mats_shape(b));
    assert forall|k: int| 0 <= k < a.len() implies #[trigger] sa[k] == sb[k] by {
        assert(a[k].1 == b[k].1);
        assert forall|i: int| 0 <= i < sa[k].0.len() implies sa[k].0[i] == sb[k].0[i] by {
            assert(opening::same_matrix(a[k].0@[i], b[k].0@[i]));
        }
        assert(sa[k].0 =~= sb[k].0);
    }
    assert(sa =~= sb);
}

/// An opening of rounds is one of all rounds with the same matrices and points.
proof fn lemma_same_opens(
    a: Seq<(&Vec<Matrix<Felt>>, &Vec<Vec<Ext>>)>,
    b: Seq<(&Vec<Matrix<Felt>>, &Vec<Vec<Ext>>)>,
    opening: Opening,
    log_blowup: nat,
)
    requires
        same_refs(a, b),
        opening.opens(a, log_blowup),
    ensures
        opening.opens(b, log_blowup),
{
    let values = opening.opened_values@;
    lemma_same_shape(a, b);
    assert forall|k: int| 0 <= k < values.len() implies pcs::round_opened(
        b[k].0@,
        b[k].1@,
        log_blowup,
        (#[trigger] values[k])@,
    ) by {
        assert(pcs::round_opened(a[k].0@, a[k].1@, log_blowup, values[k]@));
        assert(a[k].1 == b[k].1);
        assert forall|i: int, p: int|
            0 <= i < values[k]@.len() && 0 <= p < b[k].1@[i]@.len() implies (
        #[trigger] values[k]@[i]@[p])@ == pcs::opened_row(
            b[k].0@[i],
            log_blowup,
            b[k].1@[i]@[p],
        ) by {
            assert(opening::same_matrix(a[k].0@[i], b[k].0@[i]));
            lemma_same_row(a[k].0@[i], b[k].0@[i], log_blowup, b[k].1@[i]@[p]);
        }
    }
    let (l, w) = (opening.log_global_max_height as nat, opening.global_max_width as nat);
    assert(pcs::largest(b, l, w)) by {
        assert forall|k: int, i: int| 0 <= k < b.len() && 0 <= i < b[k].0@.len() implies bits::log2(
            (#[trigger] b[k].0@[i]).rows(),
        ) <= l && b[k].0@[i].width <= w by {
            assert(a[k].1 == b[k].1);
            assert(opening::same_matrix(a[k].0@[i], b[k].0@[i]));
        }
        let (k1, i1) = choose|k: int, i: int|
            0 <= k < a.len() && 0 <= i < a[k].0@.len() && bits::log2(
                (#[trigger] a[k].0@[i]).rows(),
            ) == l;
        assert(a[k1].1 == b[k1].1);
        assert(opening::same_matrix(a[k1].0@[i1], b[k1].0@[i1]));
        assert(bits::log2(b[k1].0@[i1].rows()) == l);
        let (k2, i2) = choose|k: int, i: int|
            0 <= k < a.len() && 0 <= i < a[k].0@.len() && (#[trigger] a[k].0@[i]).width == w;
        assert(a[k2].1 == b[k2].1);
        assert(opening::same_matrix(a[k2].0@[i2], b[k2].0@[i2]));
        assert(b[k2].0@[i2].width == w);
    }
}

proof fn lemma_same_claims(
    s: reduction::Combined,
    a: Matrix<Felt>,
    b: Matrix<Felt>,
    points: Seq<Ext>,
    ys: Seq<Vec<Ext>>,
    alpha: Ext,
    j: nat,
    n: nat,
)
    requires
        opening::same_matrix(a, b),
    ensures
        reduction::add_points(s, a, points, ys, alpha, j, n) == reduction::add_points(
            s,
            b,
            points,
            ys,
            alpha,
            j,
            n,
        ),
    decreases n,
{
    if n > 0 {
        lemma_same_claims(s, a, b, points, ys, alpha, j, (n - 1) as nat);
        let f = |c: int| ring::pow(alpha, c as nat).times(ext::embed(a.at(j as int, c)));
        let g = |c: int| ring::pow(alpha, c as nat).times(ext::embed(b.at(j as int, c)));
        ring::lemma_sum_ext(a.width as nat, f, g);
        assert(reduction::row_sum(a, alpha, j as int) == reduction::row_sum(b, alpha, j as int));
    }
}

proof fn lemma_same_combined_matrices(
    s: reduction::Combined,
    l: nat,
    a: Seq<Matrix<Felt>>,
    b: Seq<Matrix<Felt>>,
    points: Seq<Vec<Ext>>,
    opened: Seq<Vec<Vec<Ext>>>,
    alpha: Ext,
    j: nat,
    n: nat,
)
    requires
        n <= a.len() == b.len(),
        forall|i: int| 0 <= i < a.len() ==> opening::same_matrix(#[trigger] a[i], b[i]),
    ensures
        reduction::add_matrices(s, l, a, points, opened, alpha, j, n) == reduction::add_matrices(
            s,
            l,
            b,
            points,
            opened,
            alpha,
            j,
            n,
        ),
    decreases n,
{
    if n > 0 {
        let m = (n - 1) as nat;
        lemma_same_combined_matrices(s, l, a, b, points, opened, alpha, j, m);
        assert(opening::same_matrix(a[n - 1], b[n - 1]));
        lemma_same_claims(
            reduction::add_matrices(s, l, a, points, opened, alpha, j, m),
            a[n - 1],
            b[n - 1],
            points[n - 1]@,
            opened[n - 1]@,
            alpha,
            j,
            points[n - 1]@.len(),
        );
    }
}

proof fn lemma_same_combined_rounds(
    l: nat,
    a: Seq<(&Vec<Matrix<Felt>>, &Vec<Vec<Ext>>)>,
    b: Seq<(&Vec<Matrix<Felt>>, &Vec<Vec<Ext>>)>,
    opened: Seq<Vec<Vec<Vec<Ext>>>>,
    alpha: Ext,
    j: nat,
    n: nat,
)
    requires
        same_refs(a, b),
        n <= a.len(),
    ensures
        reduction::add_rounds(l, a, opened, alpha, j, n) == reduction::add_rounds(
            l,
            b,
            opened,
            alpha,
            j,
            n,
        ),
    decreases n,
{
    if n > 0 {
        let k = n - 1;
        lemma_same_combined_rounds(l, a, b, opened, alpha, j, k as nat);
        assert(a[k].1 == b[k].1);
        assert forall|i: int| 0 <= i < a[k].0@.len() implies opening::same_matrix(
            #[trigger] a[k].0@[i],
            b[k].0@[i],
        ) by {}
        lemma_same_combined_matrices(
            reduction::add_rounds(l, a, opened, alpha, j, k as nat),
            l,
            a[k].0@,
            b[k].0@,
            a[k].1@,
            opened[k]@,
            alpha,
            j,
            pcs::opened_count(a[k].0@, a[k].1@),
        );
    }
}

/// The combined codewords of rounds are those of all rounds with the same matrices and points.
proof fn lemma_same_combined(
    words: Seq<Option<Vec<Ext>>>,
    a: Seq<(&Vec<Matrix<Felt>>, &Vec<Vec<Ext>>)>,
    b: Seq<(&Vec<Matrix<Felt>>, &Vec<Vec<Ext>>)>,
    opened: Seq<Vec<Vec<Vec<Ext>>>>,
    alpha: Ext,
)
    requires
        same_refs(a, b),
        reduction::combined(words, a, opened, alpha),
    ensures
        reduction::combined(words, b, opened, alpha),
{
    assert forall|l: nat| reduction::has_height(l, a, a.len()) == #[trigger] reduction::has_height(
        l,
        b,
        b.len(),
    ) by {
        if reduction::has_height(l, a, a.len()) {
            let (k, i) = choose|k: int, i: int|
                0 <= k < a.len() && 0 <= i < pcs::opened_count(a[k].0@, a[k].1@) && bits::log2(
                    (#[trigger] a[k].0@[i]).rows(),
                ) == l;
            assert(a[k].1 == b[k].1);
            assert(opening::same_matrix(a[k].0@[i], b[k].0@[i]));
            assert(bits::log2(b[k].0@[i].rows()) == l);
        }
        if reduction::has_height(l, b, b.len()) {
            let (k, i) = choose|k: int, i: int|
                0 <= k < b.len() && 0 <= i < pcs::opened_count(b[k].0@, b[k].1@) && bits::log2(
                    (#[trigger] b[k].0@[i]).rows(),
                ) == l;
            assert(a[k].1 == b[k].1);
            assert(opening::same_matrix(a[k].0@[i], b[k].0@[i]));
            assert(bits::log2(a[k].0@[i].rows()) == l);
        }
    }
    assert forall|l: nat| l < 32 && (#[trigger] words[l as int]) is Some implies words[l as int]->0@
        == Seq::new(
        pow2(l),
        |j: int| reduction::add_rounds(l, b, opened, alpha, j as nat, b.len()).1,
    ) by {
        let word = words[l as int]->0@;
        assert forall|j: int| 0 <= j < word.len() implies #[trigger] word[j]
            == reduction::add_rounds(l, b, opened, alpha, j as nat, b.len()).1 by {
            lemma_same_combined_rounds(l, a, b, opened, alpha, j as nat, a.len());
        }
        assert(word =~= Seq::new(
            pow2(l),
            |j: int| reduction::add_rounds(l, b, opened, alpha, j as nat, b.len()).1,
        ));
    }
}

/// Opening with matrices that are computed again gives what opening the committed ones gives: the
/// same values, and, with whatever matrices the openings are then combined, the same codewords.
pub proof fn law_recomputed_same_as_open<D>(
    rounds: Seq<CachedRound<D>>,
    originals: Seq<RoundOriginals>,
    log_blowup: nat,
    committed: Seq<Vec<Matrix<Felt>>>,
    again: Seq<Vec<Matrix<Felt>>>,
    a: Opening,
    b: Opening,
    words_a: Seq<Option<Vec<Ext>>>,
    words_b: Seq<Option<Vec<Ext>>>,
    alpha: Ext,
)
    requires
        recomputable(rounds, originals, log_blowup),
        restores_all(committed, rounds, originals, log_blowup),
        restores_all(again, rounds, originals, log_blowup),
        a.opens(restored_refs(committed, rounds), log_blowup),
        opens_restored(b, rounds, originals, log_blowup),
        reduction::combined(
            words_a,
            restored_refs(committed, rounds),
            a.opened_values@,
            alpha,
        ),
        reduction::combined(words_b, restored_refs(again, rounds), b.opened_values@, alpha),
    ensures
        sequential::same_values(a.opened_values@, b.opened_values@),
        a.log_global_max_height == b.log_global_max_height,
        a.global_max_width == b.global_max_width,
        forall|l: int|
            0 <= l < 32 ==> ((#[trigger] words_a[l]) is Some <==> words_b[l] is Some) && (words_a[l]
                is Some ==> words_a[l]->0@ == words_b[l]->0@),
{
    let refs = restored_refs(committed, rounds);
    lemma_restored_same(again, committed, rounds, originals, log_blowup);
    lemma_same_combined(
        words_b,
        restored_refs(again, rounds),
        refs,
        b.opened_values@,
        alpha,
    );
    sequential::law_sequential_same_as_open(refs, log_blowup, a, b, words_a, words_b, alpha);
}

proof fn lemma_sizes<D>(
    sizes: Seq<Dimensions>,
    mats: Vec<Matrix<Felt>>,
    round: CachedRound<D>,
    originals: RoundOriginals,
    log_blowup: nat,
)
    requires
        round_ready(round, originals, log_blowup),
        restores(mats, round, originals, log_blowup),
        sizes.map_values(|d: Dimensions| d.height as nat) == planned_heights(
            round,
            originals,
            log_blowup,
        ),
    ensures
        sizes.len() == mats@.len(),
        forall|i: int| 0 <= i < sizes.len() ==> (#[trigger] sizes[i]).height == mats@[i].rows(),
{
    lemma_restored(mats, round, originals, log_blowup);
    let rows = mats@.map_values(|m: Matrix<Felt>| m.rows());
    let planned = sizes.map_values(|d: Dimensions| d.height as nat);
    assert(planned.len() == rows.len());
    assert forall|i: int| 0 <= i < sizes.len() implies (#[trigger] sizes[i]).height
        == mats@[i].rows() by {
        assert(planned[i] == rows[i]);
    }
}

/// The inverse denominators cover the matrices of a round.
proof fn lemma_round_covered<D>(
    mats: Vec<Matrix<Felt>>,
    round: CachedRound<D>,
    originals: RoundOriginals,
    view: Map<PointKey, Seq<Ext>>,
    log_blowup: nat,
)
    requires
        round_ready(round, originals, log_blowup),
        restores(mats, round, originals, log_blowup),
        forall|i: int, p: int|
            0 <= i < planned_heights(round, originals, log_blowup).len() && 0 <= i
                < round.points@.len() && 0 <= p < round.points@[i]@.len() ==> pcs::covers(
                view,
                #[trigger] round.points@[i]@[p],
                bits::log2(planned_heights(round, originals, log_blowup)[i]),
            ),
    ensures
        forall|i: int|
            0 <= i < mats@.len() ==> pcs::is_leaf(#[trigger] mats@[i], log_blowup),
        pcs::covers_round(view, mats@, round.points@),
{
    lemma_restored(mats, round, originals, log_blowup);
    let planned = planned_heights(round, originals, log_blowup);
    assert forall|i: int, p: int|
        0 <= i < pcs::opened_count(mats@, round.points@) && 0 <= p
            < round.points@[i]@.len() implies pcs::covers(
        view,
        #[trigger] round.points@[i]@[p],
        bits::log2(mats@[i].rows()),
    ) by {
        assert(mats@.map_values(|m: Matrix<Felt>| m.rows())[i] == planned[i]);
    }
}

} // verus!
