//! The quotient step of a shard with a device: some chips are dispatched, the others are computed
//! by the library.

use vstd::prelude::*;
use vstd::arithmetic::power2::*;
use crate::babybear::{Felt, P};
use crate::bits;
use crate::chip::Air;
use crate::compile;
use crate::device;
use crate::disjoint;
use crate::dispatch;
use crate::dispatch::{ChipDispatch, SelectorCache};
use crate::ext::Ext;
use crate::field::Field;
use crate::lde;
use crate::lde::Coset;
use crate::matrix::Matrix;
use crate::opening;
use crate::opening::{PermutationStep, QuotientStep, ShardDomains};
use crate::pcs::TwoAdicFriPcs;
use crate::program;
use crate::prover::{ShardChip, StarkProvingKey};
use crate::quotient;
use crate::quotient::Selectors;
use crate::ring;
use crate::ring::Ring;
use crate::shard;
use crate::shard::ChipEvaluations;

verus! {

/// The committed preprocessed matrix of a chip, where it has one.
pub open spec fn preprocessed_lde(pk: StarkProvingKey, name: Seq<char>) -> Option<Matrix<Felt>> {
    if pk.chip_ordering@.contains_key(name) {
        Some(pk.ldes@[pk.chip_ordering@[name] as int])
    } else {
        None
    }
}

/// The width of a preprocessed matrix, zero where there is none.
pub open spec fn width_of(m: Option<Matrix<Felt>>) -> usize {
    match m {
        Some(m) => m.width,
        None => 0,
    }
}

/// Whether a chip can be dispatched: its domain is large, its program has few registers, and the
/// committed matrices have a row for each point.
pub open spec fn dispatchable<A: Air>(
    pk: StarkProvingKey,
    chips: Seq<ShardChip<A>>,
    main: Seq<Matrix<Felt>>,
    step: PermutationStep,
    domains: ShardDomains,
    challenges: Seq<Ext>,
    alpha: Ext,
    public_values: Seq<Felt>,
    i: int,
) -> bool {
    let size = pow2(domains.quotient_domains@[i].log_n as nat);
    let prep = preprocessed_lde(pk, chips[i].name@);
    &&& size >= dispatch::MIN_DISPATCH_SIZE
    &&& dispatch::few_registers(
        dispatch::recorded(
            chips[i].chip,
            width_of(prep),
            main[i].width,
            chips[i].commit_scope,
            step.local_sums@[i],
            step.global_sums@[i],
            challenges,
            alpha,
            public_values,
        ),
    )
    &&& main[i].rows() == size
    &&& step.ldes@[i].rows() == size
    &&& prep matches Some(m) ==> m.rows() == size
}

/// Whether a dispatch is that of chip `i`: it computes the chip's constraints over what was
/// committed, with the rows in bit-reversed order.
pub open spec fn is_dispatch_of<A: Air>(
    d: ChipDispatch,
    pk: StarkProvingKey,
    chips: Seq<ShardChip<A>>,
    main: Seq<Matrix<Felt>>,
    step: PermutationStep,
    domains: ShardDomains,
    challenges: Seq<Ext>,
    alpha: Ext,
    public_values: Seq<Felt>,
    i: int,
) -> bool {
    let prep = preprocessed_lde(pk, chips[i].name@);
    &&& dispatch::dispatches(
        d,
        chips[i].chip,
        width_of(prep),
        main[i].width,
        chips[i].commit_scope,
        step.local_sums@[i],
        step.global_sums@[i],
        challenges,
        alpha,
        public_values,
        domains.trace_domains@[i],
        domains.quotient_domains@[i],
    )
    &&& d.main@ == dispatch::raw_all(main[i].values@)
    &&& d.main_width == main[i].width as u32
    &&& d.prep@ == match prep {
        Some(m) => dispatch::raw_all(m.values@),
        None => Seq::empty(),
    }
    &&& d.prep_width == compile::at_least_one(width_of(prep)) as u32
    &&& d.perm@ == dispatch::raw_all(step.ldes@[i].values@)
    &&& d.perm_width == step.ldes@[i].width as u32
    &&& dispatch::are_selectors(
        d.selectors@,
        domains.trace_domains@[i],
        domains.quotient_domains@[i],
    )
    &&& d.bit_reversed
}

/// Whether dispatches are those of the chips of a shard that can be dispatched, each in its place.
pub open spec fn are_planned<A: Air>(
    dispatches: Seq<Option<ChipDispatch>>,
    pk: StarkProvingKey,
    chips: Seq<ShardChip<A>>,
    main: Seq<Matrix<Felt>>,
    step: PermutationStep,
    domains: ShardDomains,
    challenges: Seq<Ext>,
    alpha: Ext,
    public_values: Seq<Felt>,
) -> bool {
    &&& dispatches.len() == chips.len()
    &&& forall|i: int|
        0 <= i < chips.len() ==> ((#[trigger] dispatches[i]) is Some <==> dispatchable(
            pk,
            chips,
            main,
            step,
            domains,
            challenges,
            alpha,
            public_values,
            i,
        ))
    &&& forall|i: int|
        0 <= i < chips.len() && (#[trigger] dispatches[i]) is Some ==> is_dispatch_of(
            dispatches[i]->0,
            pk,
            chips,
            main,
            step,
            domains,
            challenges,
            alpha,
            public_values,
            i,
        )
}

/// Plans the dispatches of a shard: one for each chip that can be dispatched. Chips of the same
/// sizes share their selectors.
pub fn plan_quotients<A: Air>(
    pcs: &TwoAdicFriPcs,
    pk: &StarkProvingKey,
    chips: &Vec<ShardChip<A>>,
    main: &Vec<Matrix<Felt>>,
    step: &PermutationStep,
    domains: &ShardDomains,
    challenges: &Vec<Ext>,
    alpha: Ext,
    public_values: &Vec<Felt>,
) -> (r: Vec<Option<ChipDispatch>>)
    requires
        opening::round_quotients_ok(
            *pcs,
            *pk,
            chips@,
            main@,
            *step,
            *domains,
            challenges@.len(),
            public_values@.len(),
        ),
    ensures
        are_planned(
            r@,
            *pk,
            chips@,
            main@,
            *step,
            *domains,
            challenges@,
            alpha,
            public_values@,
        ),
{
    let one: Felt = Felt::one();
    let shift: Felt = one.mul(Felt { value: 31 });
    let mut cache: SelectorCache = SelectorCache::new(one, shift);
    let mut r: Vec<Option<ChipDispatch>> = Vec::new();
    let mut i: usize = 0;
    while i < chips.len()
        invariant
            i <= chips@.len(),
            opening::round_quotients_ok(
                *pcs,
                *pk,
                chips@,
                main@,
                *step,
                *domains,
                challenges@.len(),
                public_values@.len(),
            ),
            cache.well_formed(),
            cache.trace_shift == Felt::one_spec(),
            cache.quotient_shift == Felt::one_spec().times(lde::generator()),
            r@.len() == i,
            forall|k: int|
                0 <= k < i ==> ((#[trigger] r@[k]) is Some <==> dispatchable(
                    *pk,
                    chips@,
                    main@,
                    *step,
                    *domains,
                    challenges@,
                    alpha,
                    public_values@,
                    k,
                )),
            forall|k: int|
                0 <= k < i && (#[trigger] r@[k]) is Some ==> is_dispatch_of(
                    r@[k]->0,
                    *pk,
                    chips@,
                    main@,
                    *step,
                    *domains,
                    challenges@,
                    alpha,
                    public_values@,
                    k,
                ),
        decreases chips@.len() - i,
    {
        let ghost ii = i as int;
        let trace_domain: Coset = domains.trace_domains[i];
        let quotient_domain: Coset = domains.quotient_domains[i];
        proof {
            assert(domains.log_degrees@[ii] + pcs.fri.log_blowup <= 27);
            assert(opening::readable(main@[ii], domains.quotient_domains@[ii]));
            assert(compile::compilable(
                chips@[ii].chip,
                opening::preprocessed_width(*pk, chips@[ii].name@),
                main@[ii].width as nat,
                chips@[ii].commit_scope,
                challenges@.len(),
                public_values@.len(),
            ));
            Felt::law_constants();
            disjoint::lemma_selectable(trace_domain, quotient_domain);
        }
        let prep: Option<&Matrix<Felt>> = match pk.chip_ordering.get(&chips[i].name) {
            Some(index) => Some(&pk.ldes[index]),
            None => None,
        };
        let prep_width: usize = match prep {
            Some(m) => m.width,
            None => 0,
        };
        let place: usize = cache.lookup(trace_domain, quotient_domain);
        let d = dispatch::prepare_quotient_dispatch_bitrev(
            &chips[i].chip,
            prep_width,
            main[i].width,
            chips[i].commit_scope,
            step.local_sums[i],
            step.global_sums[i],
            trace_domain,
            quotient_domain,
            &main[i],
            prep,
            prep_width,
            &step.ldes[i],
            challenges,
            alpha,
            public_values,
            Some(&cache.entries[place].1),
        );
        r.push(d);
        i = i + 1;
    }
    r
}

/// Where the quotient values of chip `i` come from: the words that a device left, or else the
/// constraints over what was committed.
pub open spec fn values_of<A: Air>(
    values: Seq<Ext>,
    results: Option<Vec<u32>>,
    pk: StarkProvingKey,
    chips: Seq<ShardChip<A>>,
    main: Seq<Matrix<Felt>>,
    step: PermutationStep,
    domains: ShardDomains,
    challenges: Seq<Ext>,
    alpha: Ext,
    public_values: Seq<Felt>,
    i: int,
) -> bool {
    match results {
        Some(words) => values == device::decoded(words@),
        None => exists|e: ChipEvaluations|
            {
                &&& #[trigger] opening::evaluations_of(
                    e,
                    pk,
                    chips[i].name@,
                    main[i],
                    step.ldes@[i],
                    domains.quotient_domains@[i],
                )
                &&& shard::is_quotient_of(
                    values,
                    chips[i],
                    domains.trace_domains@[i],
                    domains.quotient_domains@[i],
                    e,
                    step.local_sums@[i],
                    step.global_sums@[i],
                    challenges,
                    alpha,
                    public_values,
                )
            },
    }
}

/// Whether chunks are those of the quotient values of a shard, each chip's from where they come.
pub open spec fn chunks_of_dispatched<A: Air>(
    chunks: Seq<(Coset, Matrix<Felt>)>,
    values: Seq<Vec<Ext>>,
    results: Seq<Option<Vec<u32>>>,
    pk: StarkProvingKey,
    chips: Seq<ShardChip<A>>,
    main: Seq<Matrix<Felt>>,
    step: PermutationStep,
    domains: ShardDomains,
    challenges: Seq<Ext>,
    alpha: Ext,
    public_values: Seq<Felt>,
) -> bool {
    &&& opening::chunks_of_values(chunks, values, chips, domains)
    &&& forall|i: int|
        0 <= i < chips.len() ==> values_of(
            (#[trigger] values[i])@,
            results[i],
            pk,
            chips,
            main,
            step,
            domains,
            challenges,
            alpha,
            public_values,
            i,
        )
}

/// As [`opening::quotient_step`], with the words that a device left for the chips that were
/// dispatched. Only the traces of the other chips are read back.
pub fn quotient_step_dispatched<A: Air>(
    pcs: &TwoAdicFriPcs,
    pk: &StarkProvingKey,
    chips: &Vec<ShardChip<A>>,
    main: &Vec<Matrix<Felt>>,
    step: &PermutationStep,
    domains: &ShardDomains,
    challenges: &Vec<Ext>,
    alpha: Ext,
    public_values: &Vec<Felt>,
    tiered: bool,
    hashed: bool,
    results: &Vec<Option<Vec<u32>>>,
) -> (r: QuotientStep)
    requires
        opening::round_quotients_ok(
            *pcs,
            *pk,
            chips@,
            main@,
            *step,
            *domains,
            challenges@.len(),
            public_values@.len(),
        ),
        results@.len() == chips@.len(),
        forall|i: int|
            0 <= i < results@.len() && (#[trigger] results@[i]) is Some
                ==> results@[i]->0@.len() == 4 * pow2(domains.quotient_domains@[i].log_n as nat),
    ensures
        exists|chunks: Seq<(Coset, Matrix<Felt>)>, values: Seq<Vec<Ext>>|
            #[trigger] chunks_of_dispatched(
                chunks,
                values,
                results@,
                *pk,
                chips@,
                main@,
                *step,
                *domains,
                challenges@,
                alpha,
                public_values@,
            ) && r.commits(chunks, tiered, hashed, *pcs),
{
    let mut values: Vec<Vec<Ext>> = Vec::new();
    let mut i: usize = 0;
    while i < chips.len()
        invariant
            i <= chips@.len(),
            opening::round_quotients_ok(
                *pcs,
                *pk,
                chips@,
                main@,
                *step,
                *domains,
                challenges@.len(),
                public_values@.len(),
            ),
            results@.len() == chips@.len(),
            forall|i: int|
                0 <= i < results@.len() && (#[trigger] results@[i]) is Some
                    ==> results@[i]->0@.len() == 4 * pow2(
                    domains.quotient_domains@[i].log_n as nat,
                ),
            values@.len() == i,
            forall|k: int|
                0 <= k < i ==> (#[trigger] values@[k])@.len() == pow2(
                    domains.quotient_domains@[k].log_n as nat,
                ),
            forall|k: int|
                0 <= k < i ==> values_of(
                    (#[trigger] values@[k])@,
                    results@[k],
                    *pk,
                    chips@,
                    main@,
                    *step,
                    *domains,
                    challenges@,
                    alpha,
                    public_values@,
                    k,
                ),
        decreases chips@.len() - i,
    {
        let ghost ii = i as int;
        let v: Vec<Ext> = match &results[i] {
            Some(words) => {
                assert(results@[ii] is Some);
                let v = dispatch::dispatch_to_quotient_values(words);
                assert(v@ =~= device::decoded(words@));
                v
            },
            None => {
                let e = opening::read_chip_evaluations(
                    pcs,
                    pk,
                    chips,
                    main,
                    &step.ldes,
                    &domains.quotient_domains,
                    i,
                );
                proof {
                    opening::lemma_chip_divisible(
                        *pcs,
                        *pk,
                        chips@,
                        main@,
                        *step,
                        *domains,
                        e,
                        challenges@.len(),
                        public_values@.len(),
                        ii,
                    );
                }
                quotient::quotient_values(
                    &chips[i].chip,
                    chips[i].commit_scope,
                    step.local_sums[i],
                    step.global_sums[i],
                    domains.trace_domains[i],
                    domains.quotient_domains[i],
                    &e.preprocessed,
                    &e.main,
                    &e.permutation,
                    challenges,
                    alpha,
                    public_values,
                )
            },
        };
        assert(values_of(
            v@,
            results@[ii],
            *pk,
            chips@,
            main@,
            *step,
            *domains,
            challenges@,
            alpha,
            public_values@,
            ii,
        ));
        values.push(v);
        i = i + 1;
    }
    let r = opening::commit_quotients(pcs, chips, domains, &values, tiered, hashed);
    proof {
        let chunks = choose|chunks: Seq<(Coset, Matrix<Felt>)>|
            #[trigger] opening::chunks_of_values(chunks, values@, chips@, *domains) && r.commits(
                chunks,
                tiered,
                hashed,
                *pcs,
            );
        assert(chunks_of_dispatched(
            chunks,
            values@,
            results@,
            *pk,
            chips@,
            main@,
            *step,
            *domains,
            challenges@,
            alpha,
            public_values@,
        ));
    }
    r
}

/// Whether a matrix can be held as words: all elements are in canonical form, and its width fits
/// into a word.
pub open spec fn holdable(m: Matrix<Felt>) -> bool {
    &&& m.width <= u32::MAX
    &&& forall|k: int| 0 <= k < m.values@.len() ==> (#[trigger] m.values@[k]).value < P
}

/// A committed matrix holds the rows that are read back from it, in bit-reversed order.
proof fn lemma_holds_rows(committed: Matrix<Felt>, domain: Coset, r: Matrix<Felt>)
    requires
        opening::is_read(committed, domain, r),
        holdable(committed),
        committed.width > 0,
        committed.rows() == pow2(domain.log_n as nat),
    ensures
        device::holds_rows(committed, r, true, domain.log_n as nat),
{
    let log_n = domain.log_n as nat;
    assert forall|i: int| 0 <= i < pow2(log_n) implies committed.row(
        device::place(true, log_n, i),
    ) == #[trigger] r.row(i) by {
        let p = device::place(true, log_n, i);
        assert forall|c: int| 0 <= c < r.width implies committed.row(p)[c] == r.row(i)[c] by {
            assert(r.at(i as nat as int, c) == committed.at(
                bits::bitrev(i as nat, log_n) as int,
                c,
            ));
        }
        assert(committed.row(p) =~= r.row(i));
    }
}

/// Dispatching a chip makes no difference: the quotient values in the words that running its
/// dispatch leaves are those that the library computes where the chip is not dispatched.
pub proof fn law_dispatched_chip_agrees<A: Air>(
    pcs: TwoAdicFriPcs,
    pk: StarkProvingKey,
    chips: Seq<ShardChip<A>>,
    main: Seq<Matrix<Felt>>,
    step: PermutationStep,
    domains: ShardDomains,
    challenges: Seq<Ext>,
    alpha: Ext,
    public_values: Seq<Felt>,
    i: int,
    d: ChipDispatch,
    words: Vec<u32>,
    dispatched: Seq<Ext>,
    computed: Seq<Ext>,
)
    requires
        opening::round_quotients_ok(
            pcs,
            pk,
            chips,
            main,
            step,
            domains,
            challenges.len(),
            public_values.len(),
        ),
        0 <= i < chips.len(),
        dispatchable(pk, chips, main, step, domains, challenges, alpha, public_values, i),
        is_dispatch_of(d, pk, chips, main, step, domains, challenges, alpha, public_values, i),
        device::runs(d, words@),
        holdable(main[i]),
        holdable(step.ldes@[i]),
        preprocessed_lde(pk, chips[i].name@) matches Some(m) ==> holdable(m),
        ring::reduced(step.local_sums@[i]) == step.local_sums@[i],
        ring::reduced(alpha) == alpha,
        compile::reduced_all(challenges) == challenges,
        values_of(
            dispatched,
            Some(words),
            pk,
            chips,
            main,
            step,
            domains,
            challenges,
            alpha,
            public_values,
            i,
        ),
        values_of(
            computed,
            None,
            pk,
            chips,
            main,
            step,
            domains,
            challenges,
            alpha,
            public_values,
            i,
        ),
    ensures
        dispatched == computed,
{
    let (trace_domain, domain) = (domains.trace_domains@[i], domains.quotient_domains@[i]);
    let prep = preprocessed_lde(pk, chips[i].name@);
    let e = choose|e: ChipEvaluations|
        {
            &&& #[trigger] opening::evaluations_of(
                e,
                pk,
                chips[i].name@,
                main[i],
                step.ldes@[i],
                domain,
            )
            &&& shard::is_quotient_of(
                computed,
                chips[i],
                trace_domain,
                domain,
                e,
                step.local_sums@[i],
                step.global_sums@[i],
                challenges,
                alpha,
                public_values,
            )
        };
    assert(opening::readable(main[i], domain));
    lemma_holds_rows(main[i], domain, e.main);
    lemma_holds_rows(step.ldes@[i], domain, e.permutation);
    if let Some(m) = prep {
        lemma_holds_rows(m, domain, e.preprocessed->0);
    }
    assert(device::holds_traces(
        d,
        prep,
        main[i],
        step.ldes@[i],
        e.preprocessed,
        e.main,
        e.permutation,
        domain.log_n as nat,
    ));
    let sels = choose|sels: Selectors| #[trigger]
        quotient::is_quotient(
            computed,
            chips[i].chip,
            chips[i].commit_scope,
            step.local_sums@[i],
            step.global_sums@[i],
            trace_domain,
            domain,
            e.preprocessed,
            e.main,
            e.permutation,
            challenges,
            alpha,
            public_values,
            sels,
        );
    device::law_device_agrees(
        d,
        words@,
        computed,
        chips[i].chip,
        width_of(prep),
        chips[i].commit_scope,
        step.local_sums@[i],
        step.global_sums@[i],
        challenges,
        alpha,
        public_values,
        trace_domain,
        domain,
        prep,
        main[i],
        step.ldes@[i],
        e.preprocessed,
        e.main,
        e.permutation,
        sels,
    );
}

/// Which chips are dispatched: those with a quotient domain of eight thousand one hundred and
/// ninety-two points or more, whose own program has few registers and whose own committed matrices have
/// a row for each point of it.
pub proof fn law_large_chips_are_dispatched<A: Air>(
    pk: StarkProvingKey,
    chips: Seq<ShardChip<A>>,
    main: Seq<Matrix<Felt>>,
    step: PermutationStep,
    domains: ShardDomains,
    challenges: Seq<Ext>,
    alpha: Ext,
    public_values: Seq<Felt>,
    i: int,
)
    requires
        0 <= i < chips.len(),
    ensures
        ({
            let size = pow2(domains.quotient_domains@[i].log_n as nat);
            let named = pk.chip_ordering@.contains_key(chips[i].name@);
            let prep = pk.ldes@[pk.chip_ordering@[chips[i].name@] as int];
            dispatchable(pk, chips, main, step, domains, challenges, alpha, public_values, i)
                <==> {
                &&& size >= 8192
                &&& main[i].rows() == size
                &&& step.ldes@[i].rows() == size
                &&& named ==> prep.rows() == size
                &&& dispatch::few_registers(
                    dispatch::recorded(
                        chips[i].chip,
                        if named {
                            prep.width
                        } else {
                            0
                        },
                        main[i].width,
                        chips[i].commit_scope,
                        step.local_sums@[i],
                        step.global_sums@[i],
                        challenges,
                        alpha,
                        public_values,
                    ),
                )
            }
        }),
{
}

/// The plan of a shard holds each chip's own matrices: a chip that is dispatched is so with the words of
/// its own main trace, permutation trace and preprocessed trace, its own widths, and the size of its own
/// quotient domain.
pub proof fn law_plan_holds_own_traces<A: Air>(
    dispatches: Seq<Option<ChipDispatch>>,
    pk: StarkProvingKey,
    chips: Seq<ShardChip<A>>,
    main: Seq<Matrix<Felt>>,
    step: PermutationStep,
    domains: ShardDomains,
    challenges: Seq<Ext>,
    alpha: Ext,
    public_values: Seq<Felt>,
    i: int,
    k: int,
)
    requires
        are_planned(
            dispatches,
            pk,
            chips,
            main,
            step,
            domains,
            challenges,
            alpha,
            public_values,
        ),
        0 <= i < chips.len(),
    ensures
        dispatches.len() == chips.len(),
        dispatches[i] is Some <==> dispatchable(
            pk,
            chips,
            main,
            step,
            domains,
            challenges,
            alpha,
            public_values,
            i,
        ),
        dispatches[i] matches Some(d) ==> {
            &&& d.quotient_size == pow2(domains.quotient_domains@[i].log_n as nat)
            &&& d.program.num_regs <= 4096
            &&& d.main@.len() == main[i].values@.len()
            &&& 0 <= k < main[i].values@.len() ==> program::from_monty(d.main@[k])
                == ring::reduced(main[i].values@[k])
            &&& d.perm@.len() == step.ldes@[i].values@.len()
            &&& 0 <= k < step.ldes@[i].values@.len() ==> program::from_monty(d.perm@[k])
                == ring::reduced(step.ldes@[i].values@[k])
            &&& if pk.chip_ordering@.contains_key(chips[i].name@) {
                let prep = pk.ldes@[pk.chip_ordering@[chips[i].name@] as int];
                &&& d.prep@.len() == prep.values@.len()
                &&& 0 <= k < prep.values@.len() ==> program::from_monty(d.prep@[k])
                    == ring::reduced(prep.values@[k])
            } else {
                d.prep@.len() == 0
            }
        },
{
    let e = dispatches[i];
    if e is Some {
        dispatch::law_montgomery_form(main[i].values@[k], 0);
        dispatch::law_montgomery_form(step.ldes@[i].values@[k], 0);
        dispatch::law_montgomery_form(
            pk.ldes@[pk.chip_ordering@[chips[i].name@] as int].values@[k],
            0,
        );
    }
}

/// Whether quotient values are computed from evaluations of a chip's own traces.
spec fn computes_from<A: Air>(
    e: ChipEvaluations,
    values: Seq<Ext>,
    pk: StarkProvingKey,
    chips: Seq<ShardChip<A>>,
    main: Seq<Matrix<Felt>>,
    step: PermutationStep,
    domains: ShardDomains,
    challenges: Seq<Ext>,
    alpha: Ext,
    public_values: Seq<Felt>,
    i: int,
) -> bool {
    opening::evaluations_of(
        e,
        pk,
        chips[i].name@,
        main[i],
        step.ldes@[i],
        domains.quotient_domains@[i],
    ) && shard::is_quotient_of(
        values,
        chips[i],
        domains.trace_domains@[i],
        domains.quotient_domains@[i],
        e,
        step.local_sums@[i],
        step.global_sums@[i],
        challenges,
        alpha,
        public_values,
    )
}

/// Without a device the step is the same as [`opening::quotient_step`]: where no words were left, the
/// chunks are those of quotients that were computed from what is read back. Where words were left for a
/// chip, its quotient values are the elements that they stand for, four words each.
pub proof fn law_step_without_device<A: Air>(
    chunks: Seq<(Coset, Matrix<Felt>)>,
    values: Seq<Vec<Ext>>,
    results: Seq<Option<Vec<u32>>>,
    pk: StarkProvingKey,
    chips: Seq<ShardChip<A>>,
    main: Seq<Matrix<Felt>>,
    step: PermutationStep,
    domains: ShardDomains,
    challenges: Seq<Ext>,
    alpha: Ext,
    public_values: Seq<Felt>,
) -> (evaluations: Seq<ChipEvaluations>)
    requires
        chunks_of_dispatched(
            chunks,
            values,
            results,
            pk,
            chips,
            main,
            step,
            domains,
            challenges,
            alpha,
            public_values,
        ),
        results.len() == chips.len(),
    ensures
        (forall|i: int| 0 <= i < results.len() ==> (#[trigger] results[i]) is None)
            ==> opening::chunks_of_round(
            chunks,
            evaluations,
            values,
            pk,
            chips,
            main,
            step,
            domains,
            challenges,
            alpha,
            public_values,
        ),
        forall|i: int, q: int|
            0 <= i < results.len() && results[i] is Some && 0 <= q < values[i]@.len() ==> {
                let words = results[i]->0@;
                &&& (#[trigger] values[i]@[q]).c0 == program::from_monty(words[4 * q])
                &&& values[i]@[q].c1 == program::from_monty(words[4 * q + 1])
                &&& values[i]@[q].c2 == program::from_monty(words[4 * q + 2])
                &&& values[i]@[q].c3 == program::from_monty(words[4 * q + 3])
            },
{
    let evaluations = Seq::new(
        chips.len(),
        |i: int|
            choose|e: ChipEvaluations|
                computes_from(
                    e,
                    values[i]@,
                    pk,
                    chips,
                    main,
                    step,
                    domains,
                    challenges,
                    alpha,
                    public_values,
                    i,
                ),
    );
    if forall|i: int| 0 <= i < results.len() ==> (#[trigger] results[i]) is None {
        assert forall|i: int| 0 <= i < chips.len() implies computes_from(
            #[trigger] evaluations[i],
            values[i]@,
            pk,
            chips,
            main,
            step,
            domains,
            challenges,
            alpha,
            public_values,
            i,
        ) by {
            let v = values[i]@;
            assert(results[i] is None);
            let e = choose|e: ChipEvaluations|
                {
                    &&& #[trigger] opening::evaluations_of(
                        e,
                        pk,
                        chips[i].name@,
                        main[i],
                        step.ldes@[i],
                        domains.quotient_domains@[i],
                    )
                    &&& shard::is_quotient_of(
                        values[i]@,
                        chips[i],
                        domains.trace_domains@[i],
                        domains.quotient_domains@[i],
                        e,
                        step.local_sums@[i],
                        step.global_sums@[i],
                        challenges,
                        alpha,
                        public_values,
                    )
                };
            assert(computes_from(
                e,
                values[i]@,
                pk,
                chips,
                main,
                step,
                domains,
                challenges,
                alpha,
                public_values,
                i,
            ));
        }
        assert forall|i: int| 0 <= i < chips.len() implies {
            &&& shard::is_quotient_of(
                (#[trigger] values[i])@,
                chips[i],
                domains.trace_domains@[i],
                domains.quotient_domains@[i],
                evaluations[i],
                step.local_sums@[i],
                step.global_sums@[i],
                challenges,
                alpha,
                public_values,
            )
            &&& shard::chunks_of(
                chunks,
                domains.quotient_domains@[i],
                values[i]@,
                chips[i].log_quotient_degree,
                shard::chunk_offset(shard::quotient_degrees(chips), i as nat),
            )
        } by {
            assert(computes_from(
                evaluations[i],
                values[i]@,
                pk,
                chips,
                main,
                step,
                domains,
                challenges,
                alpha,
                public_values,
                i,
            ));
        }
    }
    assert forall|i: int, q: int|
        0 <= i < results.len() && results[i] is Some && 0 <= q < values[i]@.len() implies {
        let words = results[i]->0@;
        &&& (#[trigger] values[i]@[q]).c0 == program::from_monty(words[4 * q])
        &&& values[i]@[q].c1 == program::from_monty(words[4 * q + 1])
        &&& values[i]@[q].c2 == program::from_monty(words[4 * q + 2])
        &&& values[i]@[q].c3 == program::from_monty(words[4 * q + 3])
    } by {
        let v = values[i];
        assert(v@ == device::decoded(results[i]->0@));
    }
    evaluations
}

} // verus!
