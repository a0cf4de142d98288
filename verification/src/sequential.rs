//! Opening with committed matrices that are set aside between the phases.

use vstd::prelude::*;
use crate::babybear::Felt;
use crate::bits;
use crate::denominators;
use crate::denominators::InverseDenominators;
use crate::ext::Ext;
use crate::lde;
use crate::matrix::{Dimensions, Matrix};
use crate::merkle::{LeafManageable, ProverData};
use crate::pcs;
use crate::pcs::{OpenedValues, Opening, TwoAdicFriPcs};
use crate::reducer::PowersReducer;
use crate::reduction;
use crate::reduction::Accumulator;
use crate::ring;

verus! {

/// A round whose matrices may have been taken out of the prover data.
pub struct CachedRound<D> {
    pub data: ProverData<Felt, D>,
    pub points: Vec<Vec<Ext>>,
    /// The matrices, if they were taken out.
    pub saved: Option<Vec<Matrix<Felt>>>,
}

impl<D> CachedRound<D> {
    /// The committed matrices, wherever they are.
    pub open spec fn matrices(&self) -> Vec<Matrix<Felt>> {
        match self.saved {
            Some(v) => v,
            None => self.data.leaves,
        }
    }

    /// The same commitment and points.
    pub open spec fn same_round(&self, other: &Self) -> bool {
        &&& self.matrices() == other.matrices()
        &&& self.points == other.points
        &&& self.data.same_tree(&other.data)
    }

    /// Puts saved matrices back into the prover data; says whether there were any.
    pub fn restore(&mut self) -> (r: bool)
        ensures
            r == (old(self).saved is Some),
            final(self).saved is None,
            final(self).data.leaves == old(self).matrices(),
            final(self).same_round(old(self)),
    {
        match self.saved.take() {
            Some(ldes) => {
                self.data.restore_leaves_rm(ldes);
                true
            },
            None => false,
        }
    }

    /// Takes the matrices out of the prover data.
    pub fn set_aside(&mut self)
        requires
            old(self).saved is None,
        ensures
            final(self).saved is Some,
            final(self).data.leaves@.len() == 0,
            final(self).same_round(old(self)),
    {
        let leaves: Vec<Matrix<Felt>> = self.data.take_leaves_rm();
        self.saved = Some(leaves);
    }
}

/// The committed matrices and points of the rounds.
pub open spec fn round_refs<'a, D>(rounds: Seq<CachedRound<D>>) -> Seq<
    (&'a Vec<Matrix<Felt>>, &'a Vec<Vec<Ext>>),
> {
    rounds.map_values(|r: CachedRound<D>| (&r.matrices(), &r.points))
}

/// The same commitments and points, with the same matrices set aside.
pub open spec fn same_rounds<D>(after: Seq<CachedRound<D>>, before: Seq<CachedRound<D>>) -> bool {
    &&& after.len() == before.len()
    &&& forall|k: int|
        0 <= k < after.len() ==> (#[trigger] after[k]).same_round(&before[k]) && (after[k].saved
            is Some <==> before[k].saved is Some)
}

/// Whether, while round `k` is in use, the matrices that were set aside in the others still are.
pub open spec fn others_set_aside<D>(
    now: Seq<CachedRound<D>>,
    before: Seq<CachedRound<D>>,
    k: int,
) -> bool {
    forall|e: int|
        0 <= e < now.len() && e != k && before[e].saved is Some ==> (#[trigger] now[e]).saved is Some
}

/// The sizes of the matrices of a round, which are put back while they are read.
fn read_dimensions<D>(round: &mut CachedRound<D>, Ghost(log_blowup): Ghost<nat>) -> (r: Vec<Dimensions>)
    requires
        forall|i: int|
            0 <= i < old(round).matrices()@.len() ==> pcs::is_leaf(
                #[trigger] old(round).matrices()@[i],
                log_blowup,
            ),
    ensures
        final(round).same_round(old(round)),
        final(round).saved is Some <==> old(round).saved is Some,
        r@.len() == old(round).matrices()@.len(),
        forall|i: int|
            0 <= i < r@.len() ==> (#[trigger] r@[i]).height == old(round).matrices()@[i].rows()
                && r@[i].width == old(round).matrices()@[i].width,
{
    let ghost mats = round.matrices()@;
    let restored: bool = round.restore();
    let r: Vec<Dimensions> = denominators::dimensions_of(&round.data.leaves);
    if restored {
        round.set_aside();
    }
    r
}

/// The rounds' matrices and points do not depend on which matrices are set aside.
proof fn lemma_same_refs<D>(after: Seq<CachedRound<D>>, before: Seq<CachedRound<D>>)
    requires
        after.len() == before.len(),
        forall|k: int| 0 <= k < after.len() ==> (#[trigger] after[k]).same_round(&before[k]),
    ensures
        round_refs(after) == round_refs(before),
{
    assert forall|k: int| 0 <= k < after.len() implies #[trigger] round_refs(after)[k]
        == round_refs(before)[k] by {
        assert(after[k].same_round(&before[k]));
    }
    assert(round_refs(after) =~= round_refs(before));
}

/// Puts the saved matrices of all rounds back.
fn restore_all<D>(rounds: &mut Vec<CachedRound<D>>)
    ensures
        final(rounds)@.len() == old(rounds)@.len(),
        forall|k: int|
            0 <= k < old(rounds)@.len() ==> (#[trigger] final(rounds)@[k]).same_round(
                &old(rounds)@[k],
            ) && final(rounds)@[k].saved is None && final(rounds)@[k].data.leaves
                == old(rounds)@[k].matrices(),
{
    let ghost before = rounds@;
    let mut k: usize = 0;
    while k < rounds.len()
        invariant
            k <= rounds@.len(),
            rounds@.len() == before.len(),
            forall|e: int|
                0 <= e < k ==> (#[trigger] rounds@[e]).same_round(&before[e]) && rounds@[e].saved
                    is None && rounds@[e].data.leaves == before[e].matrices(),
            forall|e: int| k <= e < rounds@.len() ==> #[trigger] rounds@[e] == before[e],
        decreases rounds@.len() - k,
    {
        rounds[k].restore();
        k = k + 1;
    }
}

/// The matrices, in place, and points of the rounds, after those of `first`.
fn collect_refs<'a, D>(
    first: Vec<(&'a Vec<Matrix<Felt>>, &'a Vec<Vec<Ext>>)>,
    rounds: &'a Vec<CachedRound<D>>,
) -> (r: Vec<(&'a Vec<Matrix<Felt>>, &'a Vec<Vec<Ext>>)>)
    requires
        forall|k: int| 0 <= k < rounds@.len() ==> (#[trigger] rounds@[k]).saved is None,
    ensures
        r@ == first@ + round_refs(rounds@),
{
    let mut r: Vec<(&'a Vec<Matrix<Felt>>, &'a Vec<Vec<Ext>>)> = first;
    let ghost start = r@;
    let mut k: usize = 0;
    while k < rounds.len()
        invariant
            k <= rounds@.len(),
            forall|k: int| 0 <= k < rounds@.len() ==> (#[trigger] rounds@[k]).saved is None,
            r@ == start + round_refs(rounds@).take(k as int),
        decreases rounds@.len() - k,
    {
        assert(rounds@[k as int].saved is None);
        r.push((&rounds[k].data.leaves, &rounds[k].points));
        k = k + 1;
        assert(r@ =~= start + round_refs(rounds@).take(k as int));
    }
    assert(round_refs(rounds@).take(k as int) =~= round_refs(rounds@));
    r
}

impl TwoAdicFriPcs {
    /// The sizes of all matrices, round by round, with the largest height, as a logarithm, and
    /// the largest width.
    fn dimensions_of_rounds<D>(&self, rounds: &mut Vec<CachedRound<D>>) -> (r: (
        Vec<Vec<Dimensions>>,
        usize,
        usize,
    ))
        requires
            pcs::openable(round_refs(old(rounds)@), self.fri.log_blowup as nat),
        ensures
            same_rounds(final(rounds)@, old(rounds)@),
            r.0@.len() == old(rounds)@.len(),
            forall|k: int|
                0 <= k < r.0@.len() ==> (#[trigger] r.0@[k])@.len()
                    == old(rounds)@[k].matrices()@.len(),
            forall|k: int, i: int|
                0 <= k < r.0@.len() && 0 <= i < r.0@[k]@.len() ==> (#[trigger] r.0@[k]@[i]).height
                    == old(rounds)@[k].matrices()@[i].rows(),
            pcs::largest(round_refs(old(rounds)@), r.1 as nat, r.2 as nat),
    {
        let ghost before = rounds@;
        let ghost refs = round_refs(before);
        let ghost log_blowup = self.fri.log_blowup as nat;
        let mut dims: Vec<Vec<Dimensions>> = Vec::new();
        let mut log_height: usize = 0;
        let mut width: usize = 0;
        let mut found: bool = false;
        let mut k: usize = 0;
        while k < rounds.len()
            invariant
                k <= rounds@.len(),
                rounds@.len() == before.len(),
                refs == round_refs(before),
                pcs::openable(refs, log_blowup),
                same_rounds(rounds@, before),
                dims@.len() == k,
                forall|e: int|
                    0 <= e < k ==> (#[trigger] dims@[e])@.len() == before[e].matrices()@.len(),
                forall|e: int, i: int|
                    0 <= e < k && 0 <= i < dims@[e]@.len() ==> (#[trigger] dims@[e]@[i]).height
                        == before[e].matrices()@[i].rows(),
                !found ==> log_height == 0 && width == 0 && forall|r: int|
                    0 <= r < k ==> (#[trigger] refs[r]).0@.len() == 0,
                forall|r: int, i: int|
                    0 <= r < k && 0 <= i < refs[r].0@.len() ==> bits::log2(
                        (#[trigger] refs[r].0@[i]).rows(),
                    ) <= log_height && refs[r].0@[i].width <= width,
                found ==> exists|r: int, i: int|
                    0 <= r < k && 0 <= i < refs[r].0@.len() && bits::log2(
                        (#[trigger] refs[r].0@[i]).rows(),
                    ) == log_height,
                found ==> exists|r: int, i: int|
                    0 <= r < k && 0 <= i < refs[r].0@.len() && (#[trigger] refs[r].0@[i]).width
                        == width,
            decreases rounds@.len() - k,
        {
            let ghost mats = refs[k as int].0@;
            let ghost middle = rounds@;
            assert(rounds@[k as int].same_round(&before[k as int]));
            assert(mats == rounds@[k as int].matrices()@);
            assert forall|i: int| 0 <= i < mats.len() implies pcs::is_leaf(
                #[trigger] rounds@[k as int].matrices()@[i],
                log_blowup,
            ) by {
                assert(pcs::is_leaf(refs[k as int].0@[i], log_blowup));
            }
            let sizes: Vec<Dimensions> = read_dimensions(&mut rounds[k], Ghost(log_blowup));
            assert forall|e: int| 0 <= e < rounds@.len() implies (
            #[trigger] rounds@[e]).same_round(&before[e]) && (rounds@[e].saved is Some
                <==> before[e].saved is Some) by {
                assert(middle[e].same_round(&before[e]));
            }
            let mut i: usize = 0;
            while i < sizes.len()
                invariant
                    k < before.len(),
                    refs.len() == before.len(),
                    mats == refs[k as int].0@,
                    sizes@.len() == mats.len(),
                    pcs::openable(refs, log_blowup),
                    forall|e: int|
                        0 <= e < sizes@.len() ==> (#[trigger] sizes@[e]).height == mats[e].rows()
                            && sizes@[e].width == mats[e].width,
                    i <= sizes@.len(),
                    !found ==> log_height == 0 && width == 0 && i == 0 && forall|r: int|
                        0 <= r < k ==> (#[trigger] refs[r]).0@.len() == 0,
                    forall|r: int, e: int|
                        (0 <= r < k && 0 <= e < refs[r].0@.len()) || (r == k && 0 <= e < i)
                            ==> bits::log2((#[trigger] refs[r].0@[e]).rows()) <= log_height
                            && refs[r].0@[e].width <= width,
                    found ==> exists|r: int, e: int|
                        0 <= r <= k && 0 <= e < refs[r].0@.len() && (r == k ==> e < i)
                            && bits::log2((#[trigger] refs[r].0@[e]).rows()) == log_height,
                    found ==> exists|r: int, e: int|
                        0 <= r <= k && 0 <= e < refs[r].0@.len() && (r == k ==> e < i) && (
                        #[trigger] refs[r].0@[e]).width == width,
                decreases sizes@.len() - i,
            {
                assert(pcs::is_leaf(refs[k as int].0@[i as int], log_blowup));
                let lh: usize = p3_util::log2_strict_usize(sizes[i].height);
                if !found || lh > log_height {
                    log_height = lh;
                    assert(bits::log2(refs[k as int].0@[i as int].rows()) == log_height);
                }
                if !found || sizes[i].width > width {
                    width = sizes[i].width;
                    assert(refs[k as int].0@[i as int].width == width);
                }
                found = true;
                i = i + 1;
            }
            dims.push(sizes);
            k = k + 1;
        }
        proof {
            if !found {
                pcs::lemma_no_points(refs);
                assert(false);
            }
        }
        (dims, log_height, width)
    }

    /// Opens committed matrices as [`TwoAdicFriPcs::open`] does, with the saved matrices of at most
    /// one round in place at a time.
    pub fn open_sequential_cached<D>(&self, rounds: &mut Vec<CachedRound<D>>) -> (r: Opening)
        requires
            pcs::openable(round_refs(old(rounds)@), self.fri.log_blowup as nat),
        ensures
            r.opens(round_refs(old(rounds)@), self.fri.log_blowup as nat),
            same_rounds(final(rounds)@, old(rounds)@),
    {
        let ghost before = rounds@;
        let ghost refs = round_refs(before);
        let ghost log_blowup = self.fri.log_blowup as nat;
        let (dims, log_global_max_height, global_max_width) = self.dimensions_of_rounds(rounds);
        let inv_denoms: InverseDenominators = self.inverse_denominators_of(
            rounds,
            dims,
            Ghost(before),
        );
        proof {
            pcs::lemma_covers_rounds(refs, log_blowup, inv_denoms@);
        }
        let mut opened_values: OpenedValues = Vec::new();
        let mut k: usize = 0;
        while k < rounds.len()
            invariant
                k <= rounds@.len(),
                rounds@.len() == before.len(),
                refs == round_refs(before),
                log_blowup == self.fri.log_blowup as nat,
                pcs::openable(refs, log_blowup),
                inv_denoms.well_formed(),
                forall|e: int|
                    0 <= e < refs.len() ==> pcs::covers_round(
                        inv_denoms@,
                        (#[trigger] refs[e]).0@,
                        refs[e].1@,
                    ),
                same_rounds(rounds@, before),
                opened_values@.len() == k,
                forall|e: int|
                    0 <= e < k ==> pcs::round_opened(
                        refs[e].0@,
                        refs[e].1@,
                        log_blowup,
                        (#[trigger] opened_values@[e])@,
                    ),
            decreases rounds@.len() - k,
        {
            let ghost middle = rounds@;
            let ghost kk = k as int;
            assert(rounds@[kk].same_round(&before[kk]));
            let restored: bool = rounds[k].restore();
            assert(others_set_aside(rounds@, before, kk));
            assert(rounds@[kk].data.leaves == refs[kk].0);
            assert(rounds@[kk].points == refs[kk].1);
            assert forall|i: int| 0 <= i < refs[kk].0@.len() implies pcs::is_leaf(
                #[trigger] refs[kk].0@[i],
                log_blowup,
            ) by {}
            assert(pcs::covers_round(inv_denoms@, refs[kk].0@, refs[kk].1@));
            let opened = self.open_round_sequential(
                &rounds[k].data.leaves,
                &rounds[k].points,
                &inv_denoms,
            );
            opened_values.push(opened);
            if restored {
                rounds[k].set_aside();
            }
            assert forall|e: int| 0 <= e < rounds@.len() implies (
            #[trigger] rounds@[e]).same_round(&before[e]) && (rounds@[e].saved is Some
                <==> before[e].saved is Some) by {
                assert(middle[e].same_round(&before[e]));
            }
            k = k + 1;
        }
        Opening { opened_values, inv_denoms, log_global_max_height, global_max_width }
    }

    /// The inverse denominators from the sizes of the matrices.
    fn inverse_denominators_of<D>(
        &self,
        rounds: &Vec<CachedRound<D>>,
        dims: Vec<Vec<Dimensions>>,
        Ghost(before): Ghost<Seq<CachedRound<D>>>,
    ) -> (r: InverseDenominators)
        requires
            same_rounds(rounds@, before),
            pcs::openable(round_refs(before), self.fri.log_blowup as nat),
            dims@.len() == before.len(),
            forall|k: int|
                0 <= k < dims@.len() ==> (#[trigger] dims@[k])@.len()
                    == before[k].matrices()@.len(),
            forall|k: int, i: int|
                0 <= k < dims@.len() && 0 <= i < dims@[k]@.len() ==> (#[trigger] dims@[k]@[i]).height
                    == before[k].matrices()@[i].rows(),
        ensures
            r.well_formed(),
            denominators::inverts(
                r@,
                denominators::point_heights(denominators::mats_shape(round_refs(before))),
                lde::generator(),
            ),
    {
        let ghost all = dims@;
        let ghost shape = denominators::mats_shape(round_refs(before));
        let mut pairs: Vec<(Vec<Dimensions>, &Vec<Vec<Ext>>)> = Vec::new();
        let mut left: Vec<Vec<Dimensions>> = dims;
        let mut k: usize = rounds.len();
        while k > 0
            invariant
                k <= rounds@.len(),
                rounds@.len() == before.len(),
                same_rounds(rounds@, before),
                left@ == all.take(k as int),
                all.len() == before.len(),
                pairs@.len() == before.len() - k,
                forall|e: int|
                    0 <= e < pairs@.len() ==> (#[trigger] pairs@[e]).0 == all[before.len() - 1 - e]
                        && pairs@[e].1 == &before[before.len() - 1 - e].points,
            decreases k,
        {
            k = k - 1;
            let ghost last = left@;
            let sizes: Option<Vec<Dimensions>> = left.pop();
            assert(left@ =~= all.take(k as int));
            assert(rounds@[k as int].same_round(&before[k as int]));
            if let Some(v) = sizes {
                assert(v == all[k as int]);
                pairs.push((v, &rounds[k].points));
            }
        }
        let mut ordered: Vec<(Vec<Dimensions>, &Vec<Vec<Ext>>)> = Vec::new();
        let ghost reversed = pairs@;
        while pairs.len() > 0
            invariant
                pairs@ == reversed.take(pairs@.len() as int),
                pairs@.len() <= reversed.len(),
                reversed.len() == before.len(),
                ordered@.len() + pairs@.len() == before.len(),
                forall|e: int|
                    0 <= e < reversed.len() ==> (#[trigger] reversed[e]).0 == all[before.len() - 1
                        - e] && reversed[e].1 == &before[before.len() - 1 - e].points,
                forall|e: int|
                    0 <= e < ordered@.len() ==> (#[trigger] ordered@[e]).0 == all[e]
                        && ordered@[e].1 == &before[e].points,
            decreases pairs@.len(),
        {
            let ghost n = pairs@.len();
            if let Some(pair) = pairs.pop() {
                assert(pair == reversed[n - 1]);
                ordered.push(pair);
            }
            assert(pairs@ =~= reversed.take(pairs@.len() as int));
        }
        proof {
            pcs::lemma_shape_ok(round_refs(before), self.fri.log_blowup as nat);
            let dshape = denominators::dims_shape(ordered@);
            assert forall|e: int| 0 <= e < before.len() implies #[trigger] dshape[e]
                == shape[e] by {
                assert(ordered@[e].0 == all[e]);
                assert(dshape[e].0 =~= shape[e].0) by {
                    assert forall|i: int| 0 <= i < dshape[e].0.len() implies dshape[e].0[i]
                        == shape[e].0[i] by {
                        assert(all[e]@[i].height == before[e].matrices()@[i].rows());
                    }
                }
                assert(dshape[e].1 =~= shape[e].1);
            }
            assert(dshape =~= shape);
        }
        denominators::compute_inverse_denominators_from_dims(
            &ordered,
            self.fri.log_blowup,
            Felt { value: 31 },
        )
    }

    /// Combines all openings as [`TwoAdicFriPcs::reduce_openings`] does, with the saved matrices of
    /// at most one round in place at a time.
    pub fn reduce_sequential_cached<D>(
        &self,
        rounds: &mut Vec<CachedRound<D>>,
        opening: &Opening,
        alpha: Ext,
    ) -> (r: Vec<Option<Vec<Ext>>>)
        requires
            pcs::openable(round_refs(old(rounds)@), self.fri.log_blowup as nat),
            opening.opens(round_refs(old(rounds)@), self.fri.log_blowup as nat),
            reduction::counts_fit(round_refs(old(rounds)@), opening.opened_values@, alpha),
        ensures
            reduction::combined(r@, round_refs(old(rounds)@), opening.opened_values@, alpha),
            same_rounds(final(rounds)@, old(rounds)@),
    {
        let ghost before = rounds@;
        let ghost refs = round_refs(before);
        let ghost log_blowup = self.fri.log_blowup as nat;
        let ghost opened = opening.opened_values@;
        let reducer: PowersReducer = PowersReducer::new(alpha, opening.global_max_width);
        let mut acc: Accumulator = Accumulator::start(Ghost(refs), Ghost(opened), Ghost(alpha));
        proof {
            pcs::lemma_covers_rounds(refs, log_blowup, opening.inv_denoms@);
        }
        let mut k: usize = 0;
        while k < rounds.len()
            invariant
                k <= rounds@.len(),
                rounds@.len() == before.len(),
                refs == round_refs(before),
                opened == opening.opened_values@,
                pcs::openable(refs, log_blowup),
                opening.opens(refs, log_blowup),
                reduction::counts_fit(refs, opened, alpha),
                reducer.well_formed(),
                reducer.powers@ == Seq::new(
                    opening.global_max_width as nat,
                    |i: int| ring::pow(alpha, i as nat),
                ),
                forall|e: int|
                    0 <= e < refs.len() ==> pcs::covers_round(
                        opening.inv_denoms@,
                        (#[trigger] refs[e]).0@,
                        refs[e].1@,
                    ),
                same_rounds(rounds@, before),
                acc.reached(refs, opened, alpha, k as nat),
            decreases rounds@.len() - k,
        {
            let ghost middle = rounds@;
            let ghost kk = k as int;
            assert(rounds@[kk].same_round(&before[kk]));
            let restored: bool = rounds[k].restore();
            assert(others_set_aside(rounds@, before, kk));
            assert(rounds@[kk].data.leaves == refs[kk].0);
            assert(rounds@[kk].points == refs[kk].1);
            assert(pcs::covers_round(opening.inv_denoms@, refs[kk].0@, refs[kk].1@));
            acc.add_round(
                &rounds[k].data.leaves,
                &rounds[k].points,
                opening,
                &reducer,
                alpha,
                false,
                k,
                Ghost(refs),
                Ghost(log_blowup),
            );
            if restored {
                rounds[k].set_aside();
            }
            assert forall|e: int| 0 <= e < rounds@.len() implies (
            #[trigger] rounds@[e]).same_round(&before[e]) && (rounds@[e].saved is Some
                <==> before[e].saved is Some) by {
                assert(middle[e].same_round(&before[e]));
            }
            k = k + 1;
        }
        acc.finish(Ghost(refs), Ghost(opened), Ghost(alpha))
    }

    /// Opens a round that is kept in place, followed by rounds whose saved matrices are put back.
    pub fn open_sequential_cached_split<D>(
        &self,
        preprocessed_data: &ProverData<Felt, D>,
        preprocessed_points: &Vec<Vec<Ext>>,
        rounds: &mut Vec<CachedRound<D>>,
    ) -> (r: Opening)
        requires
            pcs::openable(
                seq![(&preprocessed_data.leaves, preprocessed_points)] + round_refs(old(rounds)@),
                self.fri.log_blowup as nat,
            ),
        ensures
            r.opens(
                seq![(&preprocessed_data.leaves, preprocessed_points)] + round_refs(old(rounds)@),
                self.fri.log_blowup as nat,
            ),
            final(rounds)@.len() == old(rounds)@.len(),
            forall|k: int|
                0 <= k < old(rounds)@.len() ==> (#[trigger] final(rounds)@[k]).same_round(
                    &old(rounds)@[k],
                ) && final(rounds)@[k].saved is None,
    {
        let ghost before = rounds@;
        restore_all(rounds);
        proof {
            lemma_same_refs(rounds@, before);
        }
        let mut first: Vec<(&Vec<Matrix<Felt>>, &Vec<Vec<Ext>>)> = Vec::new();
        first.push((&preprocessed_data.leaves, preprocessed_points));
        assert(first@ =~= seq![(&preprocessed_data.leaves, preprocessed_points)]);
        let refs: Vec<(&Vec<Matrix<Felt>>, &Vec<Vec<Ext>>)> = collect_refs(first, rounds);
        self.open(&refs)
    }
}

/// Two openings that hold the same values.
pub open spec fn same_values(a: Seq<Vec<Vec<Vec<Ext>>>>, b: Seq<Vec<Vec<Vec<Ext>>>>) -> bool {
    &&& a.len() == b.len()
    &&& forall|k: int| 0 <= k < a.len() ==> (#[trigger] a[k])@.len() == b[k]@.len()
    &&& forall|k: int, i: int|
        0 <= k < a.len() && 0 <= i < a[k]@.len() ==> (#[trigger] a[k]@[i])@.len()
            == b[k]@[i]@.len()
    &&& forall|k: int, i: int, p: int|
        0 <= k < a.len() && 0 <= i < a[k]@.len() && 0 <= p < a[k]@[i]@.len() ==> (
        #[trigger] a[k]@[i]@[p])@ == b[k]@[i]@[p]@
}

proof fn lemma_same_points(
    s: reduction::Combined,
    mat: Matrix<Felt>,
    points: Seq<Ext>,
    ys: Seq<Vec<Ext>>,
    zs: Seq<Vec<Ext>>,
    alpha: Ext,
    j: nat,
    n: nat,
)
    requires
        n <= ys.len(),
        forall|p: int| 0 <= p < ys.len() ==> (#[trigger] ys[p])@ == zs[p]@,
    ensures
        reduction::add_points(s, mat, points, ys, alpha, j, n) == reduction::add_points(
            s,
            mat,
            points,
            zs,
            alpha,
            j,
            n,
        ),
    decreases n,
{
    if n > 0 {
        lemma_same_points(s, mat, points, ys, zs, alpha, j, (n - 1) as nat);
        assert(ys[n - 1]@ == zs[n - 1]@);
    }
}

proof fn lemma_same_matrices(
    s: reduction::Combined,
    l: nat,
    mats: Seq<Matrix<Felt>>,
    points: Seq<Vec<Ext>>,
    a: Seq<Vec<Vec<Ext>>>,
    b: Seq<Vec<Vec<Ext>>>,
    alpha: Ext,
    j: nat,
    n: nat,
)
    requires
        n <= a.len(),
        forall|i: int|
            0 <= i < a.len() ==> (#[trigger] a[i])@.len() == points[i]@.len() && b[i]@.len()
                == points[i]@.len(),
        forall|i: int, p: int|
            0 <= i < a.len() && 0 <= p < a[i]@.len() ==> (#[trigger] a[i]@[p])@ == b[i]@[p]@,
    ensures
        reduction::add_matrices(s, l, mats, points, a, alpha, j, n) == reduction::add_matrices(
            s,
            l,
            mats,
            points,
            b,
            alpha,
            j,
            n,
        ),
    decreases n,
{
    if n > 0 {
        lemma_same_matrices(s, l, mats, points, a, b, alpha, j, (n - 1) as nat);
        assert(a[n - 1]@.len() == points[n - 1]@.len());
        assert forall|p: int| 0 <= p < a[n - 1]@.len() implies (#[trigger] a[n - 1]@[p])@ == b[n
            - 1]@[p]@ by {}
        lemma_same_points(
            reduction::add_matrices(s, l, mats, points, a, alpha, j, (n - 1) as nat),
            mats[n - 1],
            points[n - 1]@,
            a[n - 1]@,
            b[n - 1]@,
            alpha,
            j,
            points[n - 1]@.len(),
        );
    }
}

proof fn lemma_same_rounds_sum(
    l: nat,
    rounds: Seq<(&Vec<Matrix<Felt>>, &Vec<Vec<Ext>>)>,
    log_blowup: nat,
    a: Seq<Vec<Vec<Vec<Ext>>>>,
    b: Seq<Vec<Vec<Vec<Ext>>>>,
    alpha: Ext,
    j: nat,
    n: nat,
)
    requires
        n <= rounds.len(),
        pcs::all_opened(rounds, log_blowup, a),
        pcs::all_opened(rounds, log_blowup, b),
        same_values(a, b),
    ensures
        reduction::add_rounds(l, rounds, a, alpha, j, n) == reduction::add_rounds(
            l,
            rounds,
            b,
            alpha,
            j,
            n,
        ),
    decreases n,
{
    if n > 0 {
        let k = n - 1;
        lemma_same_rounds_sum(l, rounds, log_blowup, a, b, alpha, j, k as nat);
        let (mats, points) = (rounds[k].0@, rounds[k].1@);
        assert(pcs::round_opened(mats, points, log_blowup, a[k]@));
        assert(pcs::round_opened(mats, points, log_blowup, b[k]@));
        assert forall|i: int| 0 <= i < a[k]@.len() implies (#[trigger] a[k]@[i])@.len()
            == points[i]@.len() && b[k]@[i]@.len() == points[i]@.len() by {
            assert(b[k]@[i]@.len() == points[i]@.len());
        }
        lemma_same_matrices(
            reduction::add_rounds(l, rounds, a, alpha, j, k as nat),
            l,
            mats,
            points,
            a[k]@,
            b[k]@,
            alpha,
            j,
            pcs::opened_count(mats, points),
        );
    }
}

/// Whichever way the same rounds are opened, in one go or with matrices set aside in between, the
/// opened values, the combined codewords and the height of the queries are the same.
pub proof fn law_sequential_same_as_open(
    rounds: Seq<(&Vec<Matrix<Felt>>, &Vec<Vec<Ext>>)>,
    log_blowup: nat,
    a: Opening,
    b: Opening,
    words_a: Seq<Option<Vec<Ext>>>,
    words_b: Seq<Option<Vec<Ext>>>,
    alpha: Ext,
)
    requires
        a.opens(rounds, log_blowup),
        b.opens(rounds, log_blowup),
        reduction::combined(words_a, rounds, a.opened_values@, alpha),
        reduction::combined(words_b, rounds, b.opened_values@, alpha),
    ensures
        same_values(a.opened_values@, b.opened_values@),
        a.log_global_max_height == b.log_global_max_height,
        a.global_max_width == b.global_max_width,
        forall|l: int|
            0 <= l < 32 ==> ((#[trigger] words_a[l]) is Some <==> words_b[l] is Some) && (words_a[l]
                is Some ==> words_a[l]->0@ == words_b[l]->0@),
{
    let (va, vb) = (a.opened_values@, b.opened_values@);
    assert forall|k: int| 0 <= k < va.len() implies (#[trigger] va[k])@.len() == vb[k]@.len() by {
        assert(pcs::round_opened(rounds[k].0@, rounds[k].1@, log_blowup, vb[k]@));
    }
    assert forall|k: int, i: int| 0 <= k < va.len() && 0 <= i < va[k]@.len() implies (
    #[trigger] va[k]@[i])@.len() == vb[k]@[i]@.len() by {
        assert(pcs::round_opened(rounds[k].0@, rounds[k].1@, log_blowup, va[k]@));
        assert(pcs::round_opened(rounds[k].0@, rounds[k].1@, log_blowup, vb[k]@));
        assert(vb[k]@[i]@.len() == rounds[k].1@[i]@.len());
    }
    assert forall|k: int, i: int, p: int|
        0 <= k < va.len() && 0 <= i < va[k]@.len() && 0 <= p < va[k]@[i]@.len() implies (
    #[trigger] va[k]@[i]@[p])@ == vb[k]@[i]@[p]@ by {
        assert(pcs::round_opened(rounds[k].0@, rounds[k].1@, log_blowup, va[k]@));
        assert(pcs::round_opened(rounds[k].0@, rounds[k].1@, log_blowup, vb[k]@));
        assert(va[k]@[i]@.len() == rounds[k].1@[i]@.len());
        assert(vb[k]@[i]@[p]@ == pcs::opened_row(
            rounds[k].0@[i],
            log_blowup,
            rounds[k].1@[i]@[p],
        ));
    }
    assert forall|l: int| 0 <= l < 32 implies ((#[trigger] words_a[l]) is Some <==> words_b[l]
        is Some) && (words_a[l] is Some ==> words_a[l]->0@ == words_b[l]->0@) by {
        let m = l as nat;
        assert(words_a[m as int] is Some <==> reduction::has_height(m, rounds, rounds.len()));
        assert(words_b[m as int] is Some <==> reduction::has_height(m, rounds, rounds.len()));
        if words_a[l] is Some {
            assert forall|j: int| 0 <= j < words_a[l]->0@.len() implies #[trigger] words_a[l]->0@[j]
                == words_b[l]->0@[j] by {
                lemma_same_rounds_sum(
                    m,
                    rounds,
                    log_blowup,
                    va,
                    vb,
                    alpha,
                    j as nat,
                    rounds.len(),
                );
            }
            assert(words_a[l]->0@ =~= words_b[l]->0@);
        }
    }
}

} // verus!
