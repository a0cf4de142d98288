//! Proving a shard, from the committed main traces to the opened values.
//!
//! Each step takes what the host drew from the transcript, or what it computed from committed
//! matrices, and says what is to be observed and committed next.

use vstd::prelude::*;
use vstd::arithmetic::div_mod::*;
use vstd::arithmetic::power2::*;
use crate::babybear::Felt;
use crate::bits;
use crate::builder::SepticDigest;
use crate::chip::{Air, Chip};
use crate::compile;
use crate::cosets;
use crate::disjoint;
use crate::ext::Ext;
use crate::folder;
use crate::lde;
use crate::lde::Coset;
use crate::matrix::Matrix;
use crate::names::NameMap;
use crate::ordering;
use crate::ordering::NamedTrace;
use crate::pcs::TwoAdicFriPcs;
use crate::prover;
use crate::prover::{PermutationRound, ShardChip, StarkProvingKey};
use crate::quotient;
use crate::ring;
use crate::ring::Ring;
use crate::shard;
use crate::shard::ChipEvaluations;

verus! {

/// The main traces of a shard in order, with the matrices that are committed for them.
pub struct ShardMainData {
    pub traces: Vec<Matrix<Felt>>,
    pub ldes: Vec<Matrix<Felt>>,
    pub chip_ordering: NameMap,
    pub public_values: Vec<Felt>,
}

impl ShardMainData {
    /// Whether these are the main traces of a shard, with what is committed for them.
    pub open spec fn holds(
        &self,
        pcs: TwoAdicFriPcs,
        named_traces: Seq<NamedTrace>,
        public_values: Vec<Felt>,
    ) -> bool {
        let sorted = ordering::ordered(named_traces, named_traces.len());
        &&& self.traces@ == Seq::new(sorted.len(), |i: int| sorted[i].1)
        &&& self.ldes@.len() == sorted.len()
        &&& forall|i: int|
            0 <= i < self.ldes@.len() ==> is_committed(pcs, sorted[i].1, #[trigger] self.ldes@[i])
        &&& self.chip_ordering@ == ordering::places(sorted, sorted.len())
        &&& self.public_values == public_values
    }
}

/// Whether a trace can be committed to.
pub open spec fn committable(pcs: TwoAdicFriPcs, trace: Matrix<Felt>) -> bool {
    &&& trace.well_formed()
    &&& bits::is_pow2(trace.rows())
    &&& bits::log2(trace.rows()) <= pcs.log_n
    &&& bits::log2(trace.rows()) + pcs.fri.log_blowup <= 27
}

/// The domain of a trace: the subgroup of as many points as it has rows.
pub open spec fn trace_domain(trace: Matrix<Felt>) -> Coset {
    Coset { log_n: bits::log2(trace.rows()) as usize, shift: Felt::one_spec() }
}

pub(crate) fn copy_matrix(mat: &Matrix<Felt>) -> (r: Matrix<Felt>)
    ensures
        r.width == mat.width,
        r.values@ == mat.values@,
{
    let mut values: Vec<Felt> = Vec::new();
    let mut i: usize = 0;
    while i < mat.values.len()
        invariant
            i <= mat.values@.len(),
            values@ == mat.values@.take(i as int),
        decreases mat.values@.len() - i,
    {
        values.push(mat.values[i]);
        i = i + 1;
        assert(values@ =~= mat.values@.take(i as int));
    }
    assert(mat.values@.take(i as int) =~= mat.values@);
    Matrix { values, width: mat.width }
}

/// Whether two matrices hold the same.
pub open spec fn same_matrix(a: Matrix<Felt>, b: Matrix<Felt>) -> bool {
    a.width == b.width && a.values@ == b.values@
}

impl TwoAdicFriPcs {
    /// The matrices that are committed for traces over their natural domains.
    fn commit_traces_borrowed(&self, named_traces: &Vec<NamedTrace>) -> (r: Vec<Matrix<Felt>>)
        requires
            forall|i: int|
                0 <= i < named_traces@.len() ==> committable(
                    *self,
                    (#[trigger] named_traces@[i]).1,
                ),
        ensures
            r@.len() == named_traces@.len(),
            forall|i: int|
                0 <= i < r@.len() ==> is_committed(
                    *self,
                    named_traces@[i].1,
                    #[trigger] r@[i],
                ),
    {
        let mut evaluations: Vec<(Coset, Matrix<Felt>)> = Vec::new();
        let mut i: usize = 0;
        while i < named_traces.len()
            invariant
                i <= named_traces@.len(),
                forall|i: int|
                    0 <= i < named_traces@.len() ==> committable(
                        *self,
                        (#[trigger] named_traces@[i]).1,
                    ),
                evaluations@.len() == i,
                forall|k: int|
                    0 <= k < i ==> (#[trigger] evaluations@[k]).0 == trace_domain(
                        named_traces@[k].1,
                    ) && same_matrix(evaluations@[k].1, named_traces@[k].1),
            decreases named_traces@.len() - i,
        {
            assert(committable(*self, named_traces@[i as int].1));
            let trace: &Matrix<Felt> = &named_traces[i].1;
            let domain = self.natural_domain_for_degree(trace.height());
            evaluations.push((domain, copy_matrix(trace)));
            i = i + 1;
        }
        proof {
            assert forall|k: int| 0 <= k < evaluations@.len() implies {
                let (domain, evals) = #[trigger] evaluations@[k];
                &&& evals.well_formed()
                &&& evals.rows() == pow2(domain.log_n as nat)
                &&& domain.log_n <= self.log_n
                &&& domain.log_n + self.fri.log_blowup <= 27
                &&& ring::reduced(domain.shift) != Felt::zero_spec()
            } by {
                assert(committable(*self, named_traces@[k].1));
                assert(evaluations@[k].0 == trace_domain(named_traces@[k].1));
            }
        }
        let ghost all = evaluations@;
        let r = self.commit(evaluations);
        proof {
            assert forall|k: int| 0 <= k < r@.len() implies is_committed(
                *self,
                named_traces@[k].1,
                #[trigger] r@[k],
            ) by {
                assert(same_matrix(all[k].1, named_traces@[k].1));
                assert(lde::is_lde(all[k].0, all[k].1, self.fri.log_blowup as nat, r@[k]));
            }
        }
        r
    }

    /// Orders the main traces of a shard and extends them.
    pub fn commit_main(&self, named_traces: Vec<NamedTrace>, public_values: Vec<Felt>) -> (r:
        ShardMainData)
        requires
            forall|i: int|
                0 <= i < named_traces@.len() ==> committable(
                    *self,
                    (#[trigger] named_traces@[i]).1,
                ),
        ensures
            r.holds(*self, named_traces@, public_values),
    {
        proof {
            assert forall|i: int| 0 <= i < named_traces@.len() implies (
            #[trigger] named_traces@[i]).1.width > 0 by {
                assert(committable(*self, named_traces@[i].1));
            }
        }
        let ghost given = named_traces@;
        let sorted = ordering::order_traces(named_traces);
        proof {
            ordering::law_order_sorts(given, given.len());
            assert(given.take(given.len() as int) =~= given);
            lemma_all_committable(*self, given, sorted@);
        }
        let ldes = self.commit_traces_borrowed(&sorted);
        let chip_ordering = ordering::chip_ordering(&sorted);
        let ghost all = sorted@;
        let mut left = sorted;
        let mut traces: Vec<Matrix<Felt>> = Vec::new();
        while left.len() > 0
            invariant
                left@.len() <= all.len(),
                left@ == all.skip(all.len() - left@.len()),
                traces@ == Seq::new((all.len() - left@.len()) as nat, |i: int| all[i].1),
            decreases left@.len(),
        {
            let ghost i = all.len() - left@.len();
            let (_name, trace) = left.remove(0);
            assert(all[i].1 == trace);
            assert(left@ =~= all.skip(i + 1));
            traces.push(trace);
            assert(traces@ =~= Seq::new((i + 1) as nat, |k: int| all[k].1));
        }
        ShardMainData { traces, ldes, chip_ordering, public_values }
    }
}

/// Whether a matrix is what is committed for a trace.
pub open spec fn is_committed(pcs: TwoAdicFriPcs, trace: Matrix<Felt>, lde: Matrix<Felt>) -> bool {
    exists|m: Matrix<Felt>|
        same_matrix(m, trace) && #[trigger] lde::is_lde(
            trace_domain(trace),
            m,
            pcs.fri.log_blowup as nat,
            lde,
        )
}

proof fn lemma_all_committable(pcs: TwoAdicFriPcs, given: Seq<NamedTrace>, sorted: Seq<NamedTrace>)
    requires
        given.to_multiset() == sorted.to_multiset(),
        forall|i: int| 0 <= i < given.len() ==> committable(pcs, (#[trigger] given[i]).1),
    ensures
        forall|i: int| 0 <= i < sorted.len() ==> committable(pcs, (#[trigger] sorted[i]).1),
{
    assert forall|i: int| 0 <= i < sorted.len() implies committable(pcs, (#[trigger] sorted[i]).1) by {
        let x = sorted[i];
        sorted.to_multiset_ensures();
        given.to_multiset_ensures();
        assert(sorted.contains(x));
        assert(sorted.to_multiset().count(x) > 0);
        assert(given.contains(x));
        let j = choose|j: int| 0 <= j < given.len() && given[j] == x;
        assert(committable(pcs, given[j].1));
    }
}

/// The domains of the chips of a shard.
pub struct ShardDomains {
    pub log_degrees: Vec<usize>,
    pub trace_domains: Vec<Coset>,
    pub quotient_domains: Vec<Coset>,
}

/// What proving asks of the sizes of the traces of a shard.
pub open spec fn provable<A>(
    pcs: TwoAdicFriPcs,
    chips: Seq<ShardChip<A>>,
    traces: Seq<Matrix<Felt>>,
) -> bool {
    &&& traces.len() == chips.len()
    &&& forall|i: int|
        0 <= i < chips.len() ==> {
            &&& committable(pcs, #[trigger] traces[i])
            &&& chips[i].log_quotient_degree <= pcs.fri.log_blowup
        }
}

impl ShardDomains {
    /// Whether these are the domains of a shard.
    pub open spec fn holds<A>(&self, chips: Seq<ShardChip<A>>, traces: Seq<Matrix<Felt>>) -> bool {
        &&& self.log_degrees@ == Seq::new(
            chips.len(),
            |i: int| bits::log2(traces[i].rows()) as usize,
        )
        &&& self.trace_domains@ == Seq::new(chips.len(), |i: int| trace_domain(traces[i]))
        &&& self.quotient_domains@ == Seq::new(
            chips.len(),
            |i: int| quotient_coset(traces[i], chips[i].log_quotient_degree as nat),
        )
    }
}

impl ShardDomains {
    /// Whether these can be the domains of a shard with these chips.
    pub open spec fn well_formed<A>(&self, pcs: TwoAdicFriPcs, chips: Seq<ShardChip<A>>) -> bool {
        &&& self.log_degrees@.len() == chips.len()
        &&& self.trace_domains@.len() == chips.len()
        &&& self.quotient_domains@.len() == chips.len()
        &&& forall|i: int|
            0 <= i < chips.len() ==> {
                let log_degree = #[trigger] self.log_degrees@[i];
                let log_quotient_degree = chips[i].log_quotient_degree;
                &&& log_degree <= pcs.log_n
                &&& log_degree + pcs.fri.log_blowup <= 27
                &&& log_quotient_degree <= pcs.fri.log_blowup
                &&& self.trace_domains@[i] == (Coset {
                    log_n: log_degree,
                    shift: Felt::one_spec(),
                })
                &&& self.quotient_domains@[i] == (Coset {
                    log_n: (log_degree + log_quotient_degree) as usize,
                    shift: Felt::one_spec().times(lde::generator()),
                })
            }
    }
}

/// The domain of the quotient over a trace.
pub open spec fn quotient_coset(trace: Matrix<Felt>, log_quotient_degree: nat) -> Coset {
    Coset {
        log_n: (bits::log2(trace.rows()) + log_quotient_degree) as usize,
        shift: Felt::one_spec().times(lde::generator()),
    }
}

/// The first step of an opening: the domains of the chips. The public values in use are observed
/// before the main commitment.
pub fn start_opening<A>(
    pcs: &TwoAdicFriPcs,
    chips: &Vec<ShardChip<A>>,
    data: &ShardMainData,
    num_pv_elts: usize,
) -> (r: (ShardDomains, Vec<Felt>))
    requires
        provable(*pcs, chips@, data.traces@),
        num_pv_elts <= data.public_values@.len(),
    ensures
        r.0.holds(chips@, data.traces@),
        r.0.well_formed(*pcs, chips@),
        r.1@ == data.public_values@.take(num_pv_elts as int),
{
    let mut log_degrees: Vec<usize> = Vec::new();
    let mut trace_domains: Vec<Coset> = Vec::new();
    let mut quotient_domains: Vec<Coset> = Vec::new();
    let mut i: usize = 0;
    while i < chips.len()
        invariant
            i <= chips@.len(),
            provable(*pcs, chips@, data.traces@),
            log_degrees@.len() == i,
            trace_domains@.len() == i,
            quotient_domains@.len() == i,
            forall|k: int|
                0 <= k < i ==> #[trigger] log_degrees@[k] == bits::log2(
                    data.traces@[k].rows(),
                ) as usize,
            forall|k: int|
                0 <= k < i ==> #[trigger] trace_domains@[k] == trace_domain(data.traces@[k]),
            forall|k: int|
                0 <= k < i ==> #[trigger] quotient_domains@[k] == quotient_coset(
                    data.traces@[k],
                    chips@[k].log_quotient_degree as nat,
                ),
        decreases chips@.len() - i,
    {
        assert(committable(*pcs, data.traces@[i as int]));
        let degree: usize = data.traces[i].height();
        let log_degree: usize = p3_util::log2_strict_usize(degree);
        let domain = pcs.natural_domain_for_degree(degree);
        let quotient = shard::quotient_domain(&domain, log_degree, chips[i].log_quotient_degree);
        log_degrees.push(log_degree);
        trace_domains.push(domain);
        quotient_domains.push(quotient);
        i = i + 1;
    }
    let domains = ShardDomains { log_degrees, trace_domains, quotient_domains };
    proof {
        assert(domains.log_degrees@ =~= Seq::new(
            chips@.len(),
            |i: int| bits::log2(data.traces@[i].rows()) as usize,
        ));
        assert(domains.trace_domains@ =~= Seq::new(
            chips@.len(),
            |i: int| trace_domain(data.traces@[i]),
        ));
        assert(domains.quotient_domains@ =~= Seq::new(
            chips@.len(),
            |i: int| quotient_coset(data.traces@[i], chips@[i].log_quotient_degree as nat),
        ));
        assert forall|i: int| 0 <= i < chips@.len() implies {
            let log_degree = #[trigger] domains.log_degrees@[i];
            &&& log_degree <= pcs.log_n
            &&& log_degree + pcs.fri.log_blowup <= 27
        } by {
            assert(committable(*pcs, data.traces@[i]));
        }
    }
    (domains, prover::observed_public_values(&data.public_values, num_pv_elts))
}

/// The permutation step of an opening.
pub struct PermutationStep {
    /// The matrices that are committed for the permutation traces.
    pub ldes: Vec<Matrix<Felt>>,
    pub local_sums: Vec<Ext>,
    pub global_sums: Vec<SepticDigest>,
    /// The values that are observed after the commitment.
    pub observed: Vec<Felt>,
}

impl PermutationStep {
    /// Whether this is what a permutation round comes to.
    pub open spec fn comes_from(
        &self,
        round: PermutationRound,
        pcs: TwoAdicFriPcs,
        traces: Seq<Matrix<Felt>>,
    ) -> bool {
        &&& self.local_sums@ == round.local_sums@
        &&& self.global_sums@ == round.global_sums@
        &&& self.observed@ == prover::sums_transcript(
            round.local_sums@,
            round.global_sums@,
            round.local_sums@.len(),
        )
        &&& self.ldes@.len() == round.traces@.len()
        &&& forall|i: int|
            0 <= i < self.ldes@.len() ==> lde::is_lde(
                trace_domain(traces[i]),
                round.traces@[i],
                pcs.fri.log_blowup as nat,
                #[trigger] self.ldes@[i],
            )
    }

    /// Whether this is the permutation step of a shard.
    pub open spec fn holds<A>(
        &self,
        pcs: TwoAdicFriPcs,
        chips: Seq<ShardChip<A>>,
        preprocessed: Seq<Option<&Matrix<Felt>>>,
        traces: Seq<Matrix<Felt>>,
        challenges: Seq<Ext>,
        zero_digest: SepticDigest,
    ) -> bool {
        exists|round: PermutationRound|
            {
                &&& prover::permutation_round_ok(
                    round,
                    chips,
                    preprocessed,
                    traces,
                    challenges,
                    zero_digest,
                    chips.len() as int,
                )
                &&& #[trigger] self.comes_from(round, pcs, traces)
            }
    }
}

/// A flattened permutation trace has as many rows as the main trace.
proof fn lemma_flat_rows<A>(
    flat: Matrix<Felt>,
    sum: Ext,
    chip: Chip<A>,
    preprocessed: Option<&Matrix<Felt>>,
    main: Matrix<Felt>,
    challenges: Seq<Ext>,
)
    requires
        prover::is_flat_permutation_of(flat, sum, chip, preprocessed, main, challenges),
        chip.local_sends@.len() + chip.local_receives@.len() > 0,
    ensures
        flat.well_formed(),
        flat.rows() == main.rows(),
        flat.width == 4 * chip.perm_width(),
{
    let m = choose|m: Matrix<Ext>|
        {
            &&& #[trigger] prover::is_permutation_of(m, sum, chip, preprocessed, main, challenges)
            &&& flat.values@ == folder::flatten(m.values@)
            &&& flat.width == 4 * m.width
        };
    assert(prover::is_permutation_of(m, sum, chip, preprocessed, main, challenges));
    let rows = main.rows() as int;
    let w = m.width as int;
    assert(4 * (rows * w) == (4 * w) * rows) by (nonlinear_arith);
    lemma_fundamental_div_mod_converse(flat.values@.len() as int, flat.width as int, rows, 0);
}

/// Computes the permutation traces of a shard and extends them.
pub fn permutation_step<A>(
    pcs: &TwoAdicFriPcs,
    pk: &StarkProvingKey,
    chips: &Vec<ShardChip<A>>,
    traces: &Vec<Matrix<Felt>>,
    domains: &ShardDomains,
    challenges: &Vec<Ext>,
    zero_digest: SepticDigest,
) -> (r: PermutationStep)
    requires
        provable(*pcs, chips@, traces@),
        domains.holds(chips@, traces@),
        pk.well_formed(),
        prover::round_permutable(chips@, pk.traces_of(chips@), traces@, challenges@),
        forall|i: int|
            0 <= i < chips@.len() ==> (#[trigger] chips@[i]).chip.local_sends@.len()
                + chips@[i].chip.local_receives@.len() > 0,
    ensures
        r.holds(*pcs, chips@, pk.traces_of(chips@), traces@, challenges@, zero_digest),
{
    let preprocessed = pk.preprocessed_traces(chips);
    let round = prover::permutation_round(chips, &preprocessed, traces, challenges, zero_digest);
    let ghost whole = round;
    let observed = round.observed();
    let PermutationRound { traces: flat, local_sums, global_sums } = round;
    let ghost n = chips@.len() as int;
    let total: usize = flat.len();
    let mut left = flat;
    let mut evaluations: Vec<(Coset, Matrix<Felt>)> = Vec::new();
    let mut i: usize = 0;
    while left.len() > 0
        invariant
            n == whole.traces@.len() == domains.trace_domains@.len() == total,
            i + left@.len() == n,
            left@ == whole.traces@.skip(i as int),
            evaluations@.len() == i,
            forall|k: int|
                0 <= k < i ==> #[trigger] evaluations@[k] == (
                    domains.trace_domains@[k],
                    whole.traces@[k],
                ),
        decreases left@.len(),
    {
        let trace = left.remove(0);
        assert(trace == whole.traces@[i as int]);
        evaluations.push((domains.trace_domains[i], trace));
        i = i + 1;
        assert(left@ =~= whole.traces@.skip(i as int));
    }
    let ghost all = evaluations@;
    proof {
        assert forall|k: int| 0 <= k < evaluations@.len() implies {
            let (domain, evals) = #[trigger] evaluations@[k];
            &&& evals.well_formed()
            &&& evals.rows() == pow2(domain.log_n as nat)
            &&& domain.log_n <= pcs.log_n
            &&& domain.log_n + pcs.fri.log_blowup <= 27
            &&& ring::reduced(domain.shift) != Felt::zero_spec()
        } by {
            assert(committable(*pcs, traces@[k]));
            assert(prover::is_flat_permutation_of(
                whole.traces@[k],
                whole.local_sums@[k],
                chips@[k].chip,
                preprocessed@[k],
                traces@[k],
                challenges@,
            ));
            lemma_flat_rows(
                whole.traces@[k],
                whole.local_sums@[k],
                chips@[k].chip,
                preprocessed@[k],
                traces@[k],
                challenges@,
            );
        }
    }
    let ldes = pcs.commit(evaluations);
    let r = PermutationStep { ldes, local_sums, global_sums, observed };
    proof {
        assert forall|k: int| 0 <= k < r.ldes@.len() implies lde::is_lde(
            trace_domain(traces@[k]),
            whole.traces@[k],
            pcs.fri.log_blowup as nat,
            #[trigger] r.ldes@[k],
        ) by {
            assert(all[k] == (domains.trace_domains@[k], whole.traces@[k]));
        }
        assert(r.comes_from(whole, *pcs, traces@));
    }
    r
}

/// Whether a matrix is what is read back from a committed one over a domain.
pub open spec fn is_read(committed: Matrix<Felt>, domain: Coset, r: Matrix<Felt>) -> bool {
    &&& r.width == committed.width
    &&& r.values@.len() == pow2(domain.log_n as nat) * r.width
    &&& forall|i: nat, c: int|
        i < pow2(domain.log_n as nat) && 0 <= c < r.width ==> #[trigger] r.at(i as int, c)
            == committed.at(bits::bitrev(i, domain.log_n as nat) as int, c)
}

/// Whether the traces of a chip, evaluated on its quotient domain, are read back from what was
/// committed.
pub open spec fn evaluations_of(
    e: ChipEvaluations,
    pk: StarkProvingKey,
    name: Seq<char>,
    main: Matrix<Felt>,
    permutation: Matrix<Felt>,
    domain: Coset,
) -> bool {
    &&& is_read(main, domain, e.main)
    &&& is_read(permutation, domain, e.permutation)
    &&& if pk.chip_ordering@.contains_key(name) {
        e.preprocessed is Some && is_read(
            pk.ldes@[pk.chip_ordering@[name] as int],
            domain,
            e.preprocessed->0,
        )
    } else {
        e.preprocessed is None
    }
}

/// The number of preprocessed columns of a chip; one of zeros, where it has no preprocessed trace.
pub open spec fn preprocessed_width(pk: StarkProvingKey, name: Seq<char>) -> nat {
    if pk.chip_ordering@.contains_key(name) {
        pk.ldes@[pk.chip_ordering@[name] as int].width as nat
    } else {
        1
    }
}

/// Whether a committed matrix can be read over a domain of the generator's coset.
pub open spec fn readable(committed: Matrix<Felt>, domain: Coset) -> bool {
    committed.well_formed() && pow2(domain.log_n as nat) <= committed.rows()
}

/// What the quotient step asks of the committed matrices of a shard.
pub open spec fn round_readable<A: Air>(
    pk: StarkProvingKey,
    chips: Seq<ShardChip<A>>,
    main: Seq<Matrix<Felt>>,
    permutation: Seq<Matrix<Felt>>,
    domains: Seq<Coset>,
) -> bool {
    &&& pk.well_formed()
    &&& main.len() == chips.len()
    &&& permutation.len() == chips.len()
    &&& domains.len() == chips.len()
    &&& forall|i: int|
        0 <= i < chips.len() ==> {
            &&& domains[i].log_n <= 27
            &&& ring::reduced(domains[i].shift) == lde::generator()
            &&& readable(#[trigger] main[i], domains[i])
            &&& readable(permutation[i], domains[i])
            &&& pk.chip_ordering@.contains_key(chips[i].name@) ==> readable(
                pk.ldes@[pk.chip_ordering@[chips[i].name@] as int],
                domains[i],
            )
        }
}

/// Reads the traces of chip `i` of a shard back, over its quotient domain.
pub(crate) fn read_chip_evaluations<A: Air>(
    pcs: &TwoAdicFriPcs,
    pk: &StarkProvingKey,
    chips: &Vec<ShardChip<A>>,
    main: &Vec<Matrix<Felt>>,
    permutation: &Vec<Matrix<Felt>>,
    domains: &Vec<Coset>,
    i: usize,
) -> (r: ChipEvaluations)
    requires
        round_readable(*pk, chips@, main@, permutation@, domains@),
        i < chips@.len(),
    ensures
        evaluations_of(
            r,
            *pk,
            chips@[i as int].name@,
            main@[i as int],
            permutation@[i as int],
            domains@[i as int],
        ),
{
    assert(readable(main@[i as int], domains@[i as int]));
    let domain: Coset = domains[i];
    let preprocessed = match pk.chip_ordering.get(&chips[i].name) {
        Some(index) => Some(pcs.get_evaluations_on_domain(&pk.ldes, index, domain)),
        None => None,
    };
    ChipEvaluations {
        preprocessed,
        main: pcs.get_evaluations_on_domain(main, i, domain),
        permutation: pcs.get_evaluations_on_domain(permutation, i, domain),
    }
}

/// Reads the traces of the chips of a shard back, over their quotient domains.
pub fn read_evaluations<A: Air>(
    pcs: &TwoAdicFriPcs,
    pk: &StarkProvingKey,
    chips: &Vec<ShardChip<A>>,
    main: &Vec<Matrix<Felt>>,
    permutation: &Vec<Matrix<Felt>>,
    domains: &Vec<Coset>,
) -> (r: Vec<ChipEvaluations>)
    requires
        round_readable(*pk, chips@, main@, permutation@, domains@),
    ensures
        r@.len() == chips@.len(),
        forall|i: int|
            0 <= i < r@.len() ==> evaluations_of(
                #[trigger] r@[i],
                *pk,
                chips@[i].name@,
                main@[i],
                permutation@[i],
                domains@[i],
            ),
{
    let mut r: Vec<ChipEvaluations> = Vec::new();
    let mut i: usize = 0;
    while i < chips.len()
        invariant
            i <= chips@.len(),
            round_readable(*pk, chips@, main@, permutation@, domains@),
            r@.len() == i,
            forall|k: int|
                0 <= k < i ==> evaluations_of(
                    #[trigger] r@[k],
                    *pk,
                    chips@[k].name@,
                    main@[k],
                    permutation@[k],
                    domains@[k],
                ),
        decreases chips@.len() - i,
    {
        let e = read_chip_evaluations(pcs, pk, chips, main, permutation, domains, i);
        r.push(e);
        i = i + 1;
    }
    r
}

/// The quotient step of an opening.
pub struct QuotientStep {
    /// The matrices that are committed for the quotient chunks.
    pub ldes: Vec<Matrix<Felt>>,
    /// The number of chunks that were left out for being small.
    pub skipped: usize,
    /// The digest of all chunks, where it was asked for.
    pub direct_hash: Option<Vec<u8>>,
}

/// What the quotient step of a shard asks of its chips.
pub open spec fn round_quotients_ok<A: Air>(
    pcs: TwoAdicFriPcs,
    pk: StarkProvingKey,
    chips: Seq<ShardChip<A>>,
    main: Seq<Matrix<Felt>>,
    step: PermutationStep,
    domains: ShardDomains,
    challenges: nat,
    public_values: nat,
) -> bool {
    &&& domains.well_formed(pcs, chips)
    &&& round_readable(pk, chips, main, step.ldes@, domains.quotient_domains@)
    &&& step.local_sums@.len() == chips.len()
    &&& step.global_sums@.len() == chips.len()
    &&& forall|i: int|
        0 <= i < chips.len() ==> {
            &&& step.ldes@[i].width == 4 * chips[i].chip.perm_width()
            &&& #[trigger] compile::compilable(
                chips[i].chip,
                preprocessed_width(pk, chips[i].name@),
                main[i].width as nat,
                chips[i].commit_scope,
                challenges,
                public_values,
            )
        }
}

/// Whether chunks are those of the quotients of a shard.
pub open spec fn chunks_of_round<A: Air>(
    chunks: Seq<(Coset, Matrix<Felt>)>,
    evaluations: Seq<ChipEvaluations>,
    values: Seq<Vec<Ext>>,
    pk: StarkProvingKey,
    chips: Seq<ShardChip<A>>,
    main: Seq<Matrix<Felt>>,
    step: PermutationStep,
    domains: ShardDomains,
    challenges: Seq<Ext>,
    alpha: Ext,
    public_values: Seq<Felt>,
) -> bool {
    let degrees = shard::quotient_degrees(chips);
    &&& evaluations.len() == chips.len()
    &&& values.len() == chips.len()
    &&& chunks.len() == shard::chunk_offset(degrees, chips.len())
    &&& forall|i: int|
        0 <= i < chips.len() ==> evaluations_of(
            #[trigger] evaluations[i],
            pk,
            chips[i].name@,
            main[i],
            step.ldes@[i],
            domains.quotient_domains@[i],
        )
    &&& forall|i: int|
        0 <= i < chips.len() ==> {
            &&& shard::is_quotient_of(
                (#[trigger] values[i])@,
                chips[i],
                domains.trace_domains@[i],
                domains.quotient_domains@[i],
                evaluations[i],
                step.local_sums@[i],
                step.global_sums@[i],
                challenges,
                alpha,
                public_values,
            )
            &&& shard::chunks_of(
                chunks,
                domains.quotient_domains@[i],
                values[i]@,
                chips[i].log_quotient_degree,
                shard::chunk_offset(degrees, i as nat),
            )
        }
}

impl QuotientStep {
    /// Whether this is what is committed for some chunks.
    pub open spec fn commits(
        &self,
        chunks: Seq<(Coset, Matrix<Felt>)>,
        tiered: bool,
        hashed: bool,
        pcs: TwoAdicFriPcs,
    ) -> bool {
        let kept = if tiered {
            shard::large_chunks(chunks, chunks.len())
        } else {
            chunks
        };
        &&& match self.direct_hash {
            Some(hash) => hashed && hash@ == shard::blake3_digest(
                shard::chunk_bytes(chunks, chunks.len()),
            ),
            None => !hashed,
        }
        &&& self.skipped == chunks.len() - kept.len()
        &&& self.ldes@.len() == kept.len()
        &&& forall|j: int|
            0 <= j < kept.len() ==> lde::is_lde(
                kept[j].0,
                kept[j].1,
                pcs.fri.log_blowup as nat,
                #[trigger] self.ldes@[j],
            )
    }
}

/// Whether a chunk can be committed to.
pub open spec fn chunk_committable(pcs: TwoAdicFriPcs, chunk: (Coset, Matrix<Felt>)) -> bool {
    let (domain, evals) = chunk;
    &&& evals.well_formed()
    &&& evals.rows() == pow2(domain.log_n as nat)
    &&& domain.log_n <= pcs.log_n
    &&& domain.log_n + pcs.fri.log_blowup <= 27
    &&& ring::reduced(domain.shift) != Felt::zero_spec()
}

/// The chunks of one quotient can be committed to.
proof fn lemma_chunk_committable(
    pcs: TwoAdicFriPcs,
    chunk: (Coset, Matrix<Felt>),
    domain: Coset,
    values: Seq<Ext>,
    log_degree: nat,
    log_chunks: nat,
    j: nat,
)
    requires
        domain.log_n == log_degree + log_chunks,
        domain.log_n <= 27,
        log_degree <= pcs.log_n,
        log_degree + pcs.fri.log_blowup <= 27,
        ring::reduced(domain.shift) == lde::generator(),
        values.len() == pow2(domain.log_n as nat),
        chunk.0 == cosets::chunk_domain(domain, log_chunks, j),
        shard::is_ext_chunk(chunk.1, values, pow2(log_chunks) as int, j as int),
    ensures
        chunk_committable(pcs, chunk),
{
    lemma_pow2_adds(log_degree, log_chunks);
    lemma_pow2_pos(log_chunks);
    lemma_pow2_pos(log_degree);
    let a = pow2(log_degree) as int;
    let b = pow2(log_chunks) as int;
    vstd::arithmetic::mul::lemma_mul_is_commutative(a, b);
    lemma_fundamental_div_mod_converse(values.len() as int, b, a, 0);
    lemma_fundamental_div_mod_converse(chunk.1.values@.len() as int, 4, a, 0);
    disjoint::lemma_chunk_shift(domain, j);
}

/// Which chip a chunk belongs to, and which of its chunks it is.
proof fn lemma_chunk_place(log_degrees: Seq<usize>, n: nat, k: nat) -> (r: (int, int))
    requires
        k < shard::chunk_offset(log_degrees, n),
    ensures
        0 <= r.0 < n,
        0 <= r.1 < pow2(log_degrees[r.0] as nat),
        k == shard::chunk_offset(log_degrees, r.0 as nat) + r.1,
    decreases n,
{
    let before = shard::chunk_offset(log_degrees, (n - 1) as nat);
    if k < before {
        lemma_chunk_place(log_degrees, (n - 1) as nat, k)
    } else {
        (n - 1, k - before)
    }
}

proof fn lemma_large_committable(
    pcs: TwoAdicFriPcs,
    chunks: Seq<(Coset, Matrix<Felt>)>,
    n: nat,
)
    requires
        n <= chunks.len(),
        forall|j: int| 0 <= j < chunks.len() ==> chunk_committable(pcs, #[trigger] chunks[j]),
    ensures
        forall|j: int|
            0 <= j < shard::large_chunks(chunks, n).len() ==> chunk_committable(
                pcs,
                #[trigger] shard::large_chunks(chunks, n)[j],
            ),
    decreases n,
{
    if n > 0 {
        lemma_large_committable(pcs, chunks, (n - 1) as nat);
        let rest = shard::large_chunks(chunks, (n - 1) as nat);
        assert forall|j: int| 0 <= j < shard::large_chunks(chunks, n).len() implies chunk_committable(
            pcs,
            #[trigger] shard::large_chunks(chunks, n)[j],
        ) by {
            if j < rest.len() {
                assert(shard::large_chunks(chunks, n)[j] == rest[j]);
            } else {
                assert(shard::large_chunks(chunks, n)[j] == chunks[n - 1]);
            }
        }
    }
}

/// Commits to chunks, but for the small ones where these are left out. The digest of all chunks is
/// a preview, and no part of the commitment.
fn commit_chunks(
    pcs: &TwoAdicFriPcs,
    chunks: Vec<(Coset, Matrix<Felt>)>,
    tiered: bool,
    hashed: bool,
) -> (r: QuotientStep)
    requires
        forall|j: int|
            0 <= j < chunks@.len() ==> chunk_committable(*pcs, #[trigger] chunks@[j]),
    ensures
        r.commits(chunks@, tiered, hashed, *pcs),
{
    let ghost all = chunks@;
    let direct_hash: Option<Vec<u8>> = if hashed {
        Some(shard::quotient_hash(&chunks))
    } else {
        None
    };
    let (kept, skipped) = if tiered {
        assert forall|j: int| 0 <= j < chunks@.len() implies (#[trigger] chunks@[j]).1.width
            > 0 by {
            assert(chunk_committable(*pcs, chunks@[j]));
        }
        shard::filter_small_chunks(chunks)
    } else {
        (chunks, 0)
    };
    let ghost kept_chunks = kept@;
    proof {
        lemma_large_committable(*pcs, all, all.len());
        assert forall|j: int| 0 <= j < kept@.len() implies {
            let (domain, evals) = #[trigger] kept@[j];
            &&& evals.well_formed()
            &&& evals.rows() == pow2(domain.log_n as nat)
            &&& domain.log_n <= pcs.log_n
            &&& domain.log_n + pcs.fri.log_blowup <= 27
            &&& ring::reduced(domain.shift) != Felt::zero_spec()
        } by {
            assert(chunk_committable(*pcs, kept@[j]));
        }
    }
    let ldes = pcs.commit(kept);
    QuotientStep { ldes, skipped, direct_hash }
}

/// The quotient of chip `i` can be computed from the evaluations that are read back.
pub proof fn lemma_chip_divisible<A: Air>(
    pcs: TwoAdicFriPcs,
    pk: StarkProvingKey,
    chips: Seq<ShardChip<A>>,
    main: Seq<Matrix<Felt>>,
    step: PermutationStep,
    domains: ShardDomains,
    e: ChipEvaluations,
    challenges: nat,
    public_values: nat,
    i: int,
)
    requires
        round_quotients_ok(pcs, pk, chips, main, step, domains, challenges, public_values),
        0 <= i < chips.len(),
        evaluations_of(
            e,
            pk,
            chips[i].name@,
            main[i],
            step.ldes@[i],
            domains.quotient_domains@[i],
        ),
    ensures
        quotient::quotient_ok(
            chips[i].chip,
            chips[i].commit_scope,
            domains.trace_domains@[i],
            domains.quotient_domains@[i],
            e.preprocessed,
            e.main,
            e.permutation,
            challenges,
            public_values,
        ),
{
    let domain = domains.quotient_domains@[i];
    assert(domains.log_degrees@[i] + pcs.fri.log_blowup <= 27);
    assert(readable(main[i], domain));
    assert(compile::compilable(
        chips[i].chip,
        preprocessed_width(pk, chips[i].name@),
        main[i].width as nat,
        chips[i].commit_scope,
        challenges,
        public_values,
    ));
    Felt::law_constants();
    disjoint::lemma_selectable(domains.trace_domains@[i], domain);
    lemma_read_rows(main[i], domain, e.main);
    lemma_read_rows(step.ldes@[i], domain, e.permutation);
    if e.preprocessed is Some {
        lemma_read_rows(
            pk.ldes@[pk.chip_ordering@[chips[i].name@] as int],
            domain,
            e.preprocessed->0,
        );
    }
    assert(quotient::prep_width(e.preprocessed) == preprocessed_width(pk, chips[i].name@));
}

/// Every chip's quotient can be computed from the evaluations that are read back.
proof fn lemma_round_divisible<A: Air>(
    pcs: TwoAdicFriPcs,
    pk: StarkProvingKey,
    chips: Seq<ShardChip<A>>,
    main: Seq<Matrix<Felt>>,
    step: PermutationStep,
    domains: ShardDomains,
    evaluations: Seq<ChipEvaluations>,
    challenges: nat,
    public_values: nat,
)
    requires
        round_quotients_ok(pcs, pk, chips, main, step, domains, challenges, public_values),
        evaluations.len() == chips.len(),
        forall|i: int|
            0 <= i < chips.len() ==> evaluations_of(
                #[trigger] evaluations[i],
                pk,
                chips[i].name@,
                main[i],
                step.ldes@[i],
                domains.quotient_domains@[i],
            ),
    ensures
        shard::round_divisible(
            chips,
            domains.trace_domains@,
            domains.quotient_domains@,
            evaluations,
            step.local_sums@,
            step.global_sums@,
            challenges,
            public_values,
        ),
{
    assert forall|i: int| 0 <= i < chips.len() implies quotient::quotient_ok(
        (#[trigger] chips[i]).chip,
        chips[i].commit_scope,
        domains.trace_domains@[i],
        domains.quotient_domains@[i],
        evaluations[i].preprocessed,
        evaluations[i].main,
        evaluations[i].permutation,
        challenges,
        public_values,
    ) by {
        lemma_chip_divisible(
            pcs,
            pk,
            chips,
            main,
            step,
            domains,
            evaluations[i],
            challenges,
            public_values,
            i,
        );
    }
}

proof fn lemma_read_rows(committed: Matrix<Felt>, domain: Coset, r: Matrix<Felt>)
    requires
        is_read(committed, domain, r),
        committed.width > 0,
    ensures
        r.rows() == pow2(domain.log_n as nat),
{
    lemma_fundamental_div_mod_converse(
        r.values@.len() as int,
        r.width as int,
        pow2(domain.log_n as nat) as int,
        0,
    );
}

/// Computes the quotients of a shard, splits them into chunks and extends these.
pub fn quotient_step<A: Air>(
    pcs: &TwoAdicFriPcs,
    pk: &StarkProvingKey,
    chips: &Vec<ShardChip<A>>,
    main: &Vec<Matrix<Felt>>,
    step: &PermutationStep,
    domains: &ShardDomains,
    challenges: &Vec<Ext>,
    alpha: Ext,
    public_values: &Vec<Felt>,
    tiered: bool,
    hashed: bool,
) -> (r: QuotientStep)
    requires
        round_quotients_ok(
            *pcs,
            *pk,
            chips@,
            main@,
            *step,
            *domains,
            challenges@.len(),
            public_values@.len(),
        ),
    ensures
        exists|
            chunks: Seq<(Coset, Matrix<Felt>)>,
            evaluations: Seq<ChipEvaluations>,
            values: Seq<Vec<Ext>>,
        |
            #[trigger] chunks_of_round(
                chunks,
                evaluations,
                values,
                *pk,
                chips@,
                main@,
                *step,
                *domains,
                challenges@,
                alpha,
                public_values@,
            ) && r.commits(chunks, tiered, hashed, *pcs),
{
    let evaluations = read_evaluations(
        pcs,
        pk,
        chips,
        main,
        &step.ldes,
        &domains.quotient_domains,
    );
    proof {
        lemma_round_divisible(
            *pcs,
            *pk,
            chips@,
            main@,
            *step,
            *domains,
            evaluations@,
            challenges@.len(),
            public_values@.len(),
        );
    }
    let values = shard::quotient_round(
        chips,
        &domains.trace_domains,
        &domains.quotient_domains,
        &evaluations,
        &step.local_sums,
        &step.global_sums,
        challenges,
        alpha,
        public_values,
    );
    let ghost quotients = values@;
    let r = commit_quotients(pcs, chips, domains, &values, tiered, hashed);
    proof {
        let all = choose|all: Seq<(Coset, Matrix<Felt>)>|
            #[trigger] chunks_of_values(all, quotients, chips@, *domains) && r.commits(
                all,
                tiered,
                hashed,
                *pcs,
            );
        assert(chunks_of_round(
            all,
            evaluations@,
            values@,
            *pk,
            chips@,
            main@,
            *step,
            *domains,
            challenges@,
            alpha,
            public_values@,
        ));
    }
    r
}

/// Whether chunks are those of the quotient values of the chips.
pub open spec fn chunks_of_values<A>(
    chunks: Seq<(Coset, Matrix<Felt>)>,
    values: Seq<Vec<Ext>>,
    chips: Seq<ShardChip<A>>,
    domains: ShardDomains,
) -> bool {
    let degrees = shard::quotient_degrees(chips);
    &&& values.len() == chips.len()
    &&& chunks.len() == shard::chunk_offset(degrees, chips.len())
    &&& forall|i: int|
        0 <= i < chips.len() ==> shard::chunks_of(
            chunks,
            domains.quotient_domains@[i],
            (#[trigger] values[i])@,
            chips[i].log_quotient_degree,
            shard::chunk_offset(degrees, i as nat),
        )
}

/// Splits the quotient values of the chips into chunks and extends these.
pub(crate) fn commit_quotients<A>(
    pcs: &TwoAdicFriPcs,
    chips: &Vec<ShardChip<A>>,
    domains: &ShardDomains,
    values: &Vec<Vec<Ext>>,
    tiered: bool,
    hashed: bool,
) -> (r: QuotientStep)
    requires
        domains.well_formed(*pcs, chips@),
        values@.len() == chips@.len(),
        forall|i: int|
            0 <= i < chips@.len() ==> (#[trigger] values@[i])@.len() == pow2(
                domains.quotient_domains@[i].log_n as nat,
            ),
    ensures
        exists|chunks: Seq<(Coset, Matrix<Felt>)>|
            #[trigger] chunks_of_values(chunks, values@, chips@, *domains) && r.commits(
                chunks,
                tiered,
                hashed,
                *pcs,
            ),
{
    let log_degrees = log_quotient_degrees(chips);
    proof {
        assert forall|i: int| 0 <= i < domains.quotient_domains@.len() implies {
            &&& log_degrees@[i] <= (#[trigger] domains.quotient_domains@[i]).log_n <= 27
            &&& values@[i]@.len() == pow2(domains.quotient_domains@[i].log_n as nat)
        } by {
            assert(domains.log_degrees@[i] + pcs.fri.log_blowup <= 27);
            let v = values@[i]@;
        }
    }
    let chunks = shard::quotient_chunks(&domains.quotient_domains, values, &log_degrees);
    proof {
        assert forall|k: int| 0 <= k < chunks@.len() implies chunk_committable(
            *pcs,
            #[trigger] chunks@[k],
        ) by {
            let (i, j) = lemma_chunk_place(log_degrees@, chips@.len(), k as nat);
            let v = values@[i]@;
            assert(domains.log_degrees@[i] + pcs.fri.log_blowup <= 27);
            assert(shard::chunks_of(
                chunks@,
                domains.quotient_domains@[i],
                values@[i]@,
                log_degrees@[i],
                shard::chunk_offset(log_degrees@, i as nat),
            ));
            Felt::law_constants();
            lemma_chunk_committable(
                *pcs,
                chunks@[shard::chunk_offset(log_degrees@, i as nat) + j],
                domains.quotient_domains@[i],
                v,
                domains.log_degrees@[i] as nat,
                log_degrees@[i] as nat,
                j as nat,
            );
        }
    }
    let ghost all = chunks@;
    let r = commit_chunks(pcs, chunks, tiered, hashed);
    assert(chunks_of_values(all, values@, chips@, *domains));
    r
}

fn log_quotient_degrees<A>(chips: &Vec<ShardChip<A>>) -> (r: Vec<usize>)
    ensures
        r@ == shard::quotient_degrees(chips@),
{
    let mut r: Vec<usize> = Vec::new();
    let mut i: usize = 0;
    while i < chips.len()
        invariant
            i <= chips@.len(),
            r@ == shard::quotient_degrees(chips@).take(i as int),
        decreases chips@.len() - i,
    {
        r.push(chips[i].log_quotient_degree);
        i = i + 1;
        assert(r@ =~= shard::quotient_degrees(chips@).take(i as int));
    }
    assert(r@ =~= shard::quotient_degrees(chips@));
    r
}

/// The points at which the four rounds of a shard are opened.
pub struct OpeningPoints {
    pub preprocessed: Vec<Vec<Ext>>,
    pub main: Vec<Vec<Ext>>,
    pub permutation: Vec<Vec<Ext>>,
    pub quotient: Vec<Vec<Ext>>,
}

impl OpeningPoints {
    /// Whether these are the points of a shard: `zeta` everywhere, and the point after it where the
    /// constraints read the next row of a trace.
    pub open spec fn holds<A>(
        &self,
        pk: StarkProvingKey,
        chips: Seq<ShardChip<A>>,
        domains: ShardDomains,
        num_quotient_chunks: nat,
        zeta: Ext,
    ) -> bool {
        &&& self.preprocessed@.len() == pk.traces@.len()
        &&& forall|i: int|
            0 <= i < pk.traces@.len() ==> (#[trigger] self.preprocessed@[i])@ == shard::points(
                trace_domain(pk.traces@[i]),
                zeta,
                pk.local_only@[i],
            )
        &&& self.main@.len() == chips.len()
        &&& forall|i: int|
            0 <= i < chips.len() ==> (#[trigger] self.main@[i])@ == shard::points(
                domains.trace_domains@[i],
                zeta,
                chips[i].local_only,
            )
        &&& self.permutation@.len() == chips.len()
        &&& forall|i: int|
            0 <= i < chips.len() ==> (#[trigger] self.permutation@[i])@ == shard::points(
                domains.trace_domains@[i],
                zeta,
                false,
            )
        &&& self.quotient@.len() == num_quotient_chunks
        &&& forall|i: int|
            0 <= i < num_quotient_chunks ==> (#[trigger] self.quotient@[i])@ == seq![zeta]
    }
}

fn preprocessed_domains(pcs: &TwoAdicFriPcs, pk: &StarkProvingKey) -> (r: Vec<Coset>)
    requires
        forall|i: int|
            0 <= i < pk.traces@.len() ==> committable(*pcs, #[trigger] pk.traces@[i]),
    ensures
        r@ == Seq::new(pk.traces@.len(), |i: int| trace_domain(pk.traces@[i])),
{
    let mut r: Vec<Coset> = Vec::new();
    let mut i: usize = 0;
    while i < pk.traces.len()
        invariant
            i <= pk.traces@.len(),
            forall|i: int|
                0 <= i < pk.traces@.len() ==> committable(*pcs, #[trigger] pk.traces@[i]),
            r@.len() == i,
            forall|k: int| 0 <= k < i ==> #[trigger] r@[k] == trace_domain(pk.traces@[k]),
        decreases pk.traces@.len() - i,
    {
        assert(committable(*pcs, pk.traces@[i as int]));
        r.push(pcs.natural_domain_for_degree(pk.traces[i].height()));
        i = i + 1;
    }
    assert(r@ =~= Seq::new(pk.traces@.len(), |i: int| trace_domain(pk.traces@[i])));
    r
}

fn local_only_flags<A>(chips: &Vec<ShardChip<A>>) -> (r: Vec<bool>)
    ensures
        r@ == Seq::new(chips@.len(), |i: int| chips@[i].local_only),
{
    let mut r: Vec<bool> = Vec::new();
    let mut i: usize = 0;
    while i < chips.len()
        invariant
            i <= chips@.len(),
            r@.len() == i,
            forall|k: int| 0 <= k < i ==> #[trigger] r@[k] == chips@[k].local_only,
        decreases chips@.len() - i,
    {
        r.push(chips[i].local_only);
        i = i + 1;
    }
    assert(r@ =~= Seq::new(chips@.len(), |i: int| chips@[i].local_only));
    r
}

/// The points at which a shard is opened, once `zeta` is drawn.
pub fn points_step<A>(
    pcs: &TwoAdicFriPcs,
    pk: &StarkProvingKey,
    chips: &Vec<ShardChip<A>>,
    domains: &ShardDomains,
    num_quotient_chunks: usize,
    zeta: Ext,
) -> (r: OpeningPoints)
    requires
        pk.well_formed(),
        forall|i: int|
            0 <= i < pk.traces@.len() ==> committable(*pcs, #[trigger] pk.traces@[i]),
        domains.well_formed(*pcs, chips@),
    ensures
        r.holds(*pk, chips@, *domains, num_quotient_chunks as nat, zeta),
{
    let prep_domains = preprocessed_domains(pcs, pk);
    let flags = local_only_flags(chips);
    proof {
        assert forall|i: int| 0 <= i < prep_domains@.len() implies (
        #[trigger] prep_domains@[i]).log_n <= 27 by {
            assert(committable(*pcs, pk.traces@[i]));
        }
        assert forall|i: int| 0 <= i < chips@.len() implies (
        #[trigger] domains.trace_domains@[i]).log_n <= 27 by {
            assert(domains.log_degrees@[i] + pcs.fri.log_blowup <= 27);
        }
    }
    let preprocessed = shard::opening_points(&prep_domains, &pk.local_only, zeta);
    let main = shard::opening_points(&domains.trace_domains, &flags, zeta);
    let permutation = shard::permutation_opening_points(&domains.trace_domains, zeta);
    let quotient = shard::quotient_opening_points(num_quotient_chunks, zeta);
    proof {
        assert forall|i: int| 0 <= i < pk.traces@.len() implies (
        #[trigger] preprocessed@[i])@ == shard::points(
            trace_domain(pk.traces@[i]),
            zeta,
            pk.local_only@[i],
        ) by {
            assert(prep_domains@[i] == trace_domain(pk.traces@[i]));
        }
    }
    OpeningPoints { preprocessed, main, permutation, quotient }
}

/// What the quotient step reads is there: for traces that can be proved, the main commitment and
/// the permutation step give matrices that cover every quotient domain.
pub proof fn law_steps_connect<A: Air>(
    pcs: TwoAdicFriPcs,
    chips: Seq<ShardChip<A>>,
    preprocessed: Seq<Option<&Matrix<Felt>>>,
    traces: Seq<Matrix<Felt>>,
    challenges: Seq<Ext>,
    zero_digest: SepticDigest,
    domains: ShardDomains,
    lde: Matrix<Felt>,
    step: PermutationStep,
    i: int,
)
    requires
        provable(pcs, chips, traces),
        domains.holds(chips, traces),
        0 <= i < chips.len(),
        chips[i].chip.local_sends@.len() + chips[i].chip.local_receives@.len() > 0,
        is_committed(pcs, traces[i], lde),
        step.holds(pcs, chips, preprocessed, traces, challenges, zero_digest),
    ensures
        readable(lde, domains.quotient_domains@[i]),
        lde.width == traces[i].width,
        readable(step.ldes@[i], domains.quotient_domains@[i]),
        step.ldes@[i].width == 4 * chips[i].chip.perm_width(),
        step.ldes@.len() == chips.len(),
        step.local_sums@.len() == chips.len(),
        step.global_sums@.len() == chips.len(),
{
    let domain = domains.quotient_domains@[i];
    let b = pcs.fri.log_blowup as nat;
    let log_degree = bits::log2(traces[i].rows());
    assert(committable(pcs, traces[i]));
    let m = choose|m: Matrix<Felt>|
        same_matrix(m, traces[i]) && #[trigger] lde::is_lde(trace_domain(traces[i]), m, b, lde);
    assert(lde::is_lde(trace_domain(traces[i]), m, b, lde));
    lde::lemma_lde_rows(m, b, lde);
    lemma_pow2_adds(log_degree, b);
    if domain.log_n < log_degree + b {
        lemma_pow2_strictly_increases(domain.log_n as nat, log_degree + b);
    }
    let round = choose|round: PermutationRound|
        {
            &&& prover::permutation_round_ok(
                round,
                chips,
                preprocessed,
                traces,
                challenges,
                zero_digest,
                chips.len() as int,
            )
            &&& #[trigger] step.comes_from(round, pcs, traces)
        };
    assert(step.comes_from(round, pcs, traces));
    assert(prover::is_flat_permutation_of(
        round.traces@[i],
        round.local_sums@[i],
        chips[i].chip,
        preprocessed[i],
        traces[i],
        challenges,
    ));
    lemma_flat_rows(
        round.traces@[i],
        round.local_sums@[i],
        chips[i].chip,
        preprocessed[i],
        traces[i],
        challenges,
    );
    assert(lde::is_lde(trace_domain(traces[i]), round.traces@[i], b, step.ldes@[i]));
    lde::lemma_lde_rows(round.traces@[i], b, step.ldes@[i]);
}

} // verus!
