//! What the opened values that a shard's proof holds have to do with the traces of its chips.

use vstd::prelude::*;
use vstd::arithmetic::div_mod::*;
use vstd::arithmetic::mul::*;
use vstd::arithmetic::power2::*;
use crate::babybear::Felt;
use crate::bits;
use crate::builder::SepticDigest;
use crate::chip::Chip;
use crate::constraints;
use crate::ext;
use crate::ext::Ext;
use crate::domain::TwoAdic;
use crate::folder;
use crate::interpolation;
use crate::lde;
use crate::lde::Coset;
use crate::lookup::{Interaction, InteractionScope};
use crate::matrix::Matrix;
use crate::messages;
use crate::opening;
use crate::opening::PermutationStep;
use crate::pcs;
use crate::pcs::{Opening, TwoAdicFriPcs};
use crate::permutation;
use crate::program::Window;
use crate::prover;
use crate::prover::{PermutationRound, ShardChip};
use crate::ring;
use crate::ring::Ring;
use crate::shard;
use crate::shard::{AirOpenedValues, ChipOpenedValues, RoundOpenings};

verus! {

/// What a chip sends within the shard less what it receives, over all rows of its traces.
pub open spec fn net_of_chip<A>(
    chip: Chip<A>,
    preprocessed: Option<&Matrix<Felt>>,
    main: Matrix<Felt>,
    alpha: Ext,
    beta: Ext,
) -> Ext {
    let sends = Seq::new(chip.local_sends@.len(), |i: int| &chip.local_sends@[i]);
    let receives = Seq::new(chip.local_receives@.len(), |i: int| &chip.local_receives@[i]);
    ring::sum(
        main.rows(),
        |r: int| messages::net(sends, receives, preprocessed, main, alpha, beta, r),
    )
}

/// The sum of a permutation round is what its chip sends less what it receives.
proof fn lemma_round_sum<A>(
    trace: Matrix<Ext>,
    sum: Ext,
    chip: Chip<A>,
    preprocessed: Option<&Matrix<Felt>>,
    main: Matrix<Felt>,
    challenges: Seq<Ext>,
)
    requires
        prover::is_permutation_of(trace, sum, chip, preprocessed, main, challenges),
        chip.local_sends@.len() + chip.local_receives@.len() > 0,
        chip.logup_batch_size > 0,
        main.rows() > 0,
    ensures
        sum == net_of_chip(chip, preprocessed, main, challenges[0], challenges[1]),
{
    let sends = Seq::new(chip.local_sends@.len(), |i: int| &chip.local_sends@[i]);
    let receives = Seq::new(chip.local_receives@.len(), |i: int| &chip.local_receives@[i]);
    assert(chip.sends() =~= sends);
    assert(chip.receives() =~= receives);
    messages::law_trace_adds_up_messages(
        trace,
        sends,
        receives,
        preprocessed,
        main,
        challenges[0],
        challenges[1],
        chip.logup_batch_size as nat,
        0,
    );
}

/// The local sums in the proof of a shard, in the order of the chips, are those that the permutation
/// step computed, and each is what its own chip sends within the shard less what it receives. So the
/// sums of the proof add up to what all chips send less what they receive.
pub proof fn law_collected_local_sums<A>(
    values: Seq<ChipOpenedValues>,
    openings: RoundOpenings,
    chips: Seq<ShardChip<A>>,
    prep_local_only: Seq<bool>,
    prep_ordering: Map<Seq<char>, usize>,
    log_degrees: Seq<usize>,
    step: PermutationStep,
    pcs: TwoAdicFriPcs,
    preprocessed: Seq<Option<&Matrix<Felt>>>,
    traces: Seq<Matrix<Felt>>,
    challenges: Seq<Ext>,
    zero_digest: SepticDigest,
)
    requires
        shard::are_collected(
            values,
            openings,
            chips,
            prep_local_only,
            prep_ordering,
            step.local_sums@,
            step.global_sums@,
            log_degrees,
        ),
        step.holds(pcs, chips, preprocessed, traces, challenges, zero_digest),
        forall|i: int|
            0 <= i < chips.len() ==> (#[trigger] chips[i]).chip.local_sends@.len()
                + chips[i].chip.local_receives@.len() > 0 && chips[i].chip.logup_batch_size > 0
                && traces[i].rows() > 0,
    ensures
        Seq::new(values.len(), |i: int| values[i].local_cumulative_sum) == step.local_sums@,
        forall|i: int|
            0 <= i < chips.len() ==> (#[trigger] values[i]).local_cumulative_sum == net_of_chip(
                chips[i].chip,
                preprocessed[i],
                traces[i],
                challenges[0],
                challenges[1],
            ),
        ring::sum(values.len(), |i: int| values[i].local_cumulative_sum) == ring::sum(
            chips.len(),
            |i: int|
                net_of_chip(
                    chips[i].chip,
                    preprocessed[i],
                    traces[i],
                    challenges[0],
                    challenges[1],
                ),
        ),
{
    let round = choose|round: PermutationRound|
        {
            &&& prover::permutation_round_ok(
                round,
                chips,
                preprocessed,
                traces,
                challenges,
                zero_digest,
                chips.len() as int,
            )
            &&& #[trigger] step.comes_from(round, pcs, traces)
        };
    assert(step.comes_from(round, pcs, traces));
    let f = |i: int| values[i].local_cumulative_sum;
    let g = |i: int|
        net_of_chip(chips[i].chip, preprocessed[i], traces[i], challenges[0], challenges[1]);
    assert forall|i: int| 0 <= i < chips.len() implies (#[trigger] values[i]).local_cumulative_sum
        == net_of_chip(
        chips[i].chip,
        preprocessed[i],
        traces[i],
        challenges[0],
        challenges[1],
    ) by {
        assert(prover::is_flat_permutation_of(
            round.traces@[i],
            round.local_sums@[i],
            chips[i].chip,
            preprocessed[i],
            traces[i],
            challenges,
        ));
        let m = choose|m: Matrix<Ext>|
            {
                &&& #[trigger] prover::is_permutation_of(
                    m,
                    round.local_sums@[i],
                    chips[i].chip,
                    preprocessed[i],
                    traces[i],
                    challenges,
                )
                &&& round.traces@[i].values@ == folder::flatten(m.values@)
                &&& round.traces@[i].width == 4 * m.width
            };
        assert(chips[i].chip.logup_batch_size > 0);
        lemma_round_sum(
            m,
            round.local_sums@[i],
            chips[i].chip,
            preprocessed[i],
            traces[i],
            challenges,
        );
    }
    assert forall|i: int| 0 <= i < chips.len() implies #[trigger] f(i) == g(i) by {
        assert(values[i].local_cumulative_sum == g(i));
    }
    ring::lemma_sum_ext(chips.len(), f, g);
    assert(Seq::new(values.len(), |i: int| values[i].local_cumulative_sum) =~= step.local_sums@)
        by {
        assert forall|i: int| 0 <= i < values.len() implies #[trigger] values[
            i
        ].local_cumulative_sum == step.local_sums@[i] by {}
    }
}

/// The last-row constraint of each chip holds with the local sum that the proof has for it, on the
/// permutation trace whose extension was committed for that chip, and with no other sum.
pub proof fn law_collected_sum_meets_constraint<A>(
    values: Seq<ChipOpenedValues>,
    openings: RoundOpenings,
    chips: Seq<ShardChip<A>>,
    prep_local_only: Seq<bool>,
    prep_ordering: Map<Seq<char>, usize>,
    log_degrees: Seq<usize>,
    step: PermutationStep,
    pcs: TwoAdicFriPcs,
    preprocessed: Seq<Option<&Matrix<Felt>>>,
    traces: Seq<Matrix<Felt>>,
    challenges: Seq<Ext>,
    zero_digest: SepticDigest,
    i: int,
) -> (trace: Matrix<Ext>)
    requires
        shard::are_collected(
            values,
            openings,
            chips,
            prep_local_only,
            prep_ordering,
            step.local_sums@,
            step.global_sums@,
            log_degrees,
        ),
        step.holds(pcs, chips, preprocessed, traces, challenges, zero_digest),
        0 <= i < chips.len(),
        chips[i].chip.local_sends@.len() + chips[i].chip.local_receives@.len() > 0,
        chips[i].chip.logup_batch_size > 0,
        traces[i].rows() > 0,
    ensures
        trace.width > 0,
        exists|flat: Matrix<Felt>|
            flat.values@ == folder::flatten(trace.values@) && flat.width == 4 * trace.width
                && #[trigger] lde::is_lde(
                opening::trace_domain(traces[i]),
                flat,
                pcs.fri.log_blowup as nat,
                step.ldes@[i],
            ),
        forall|env: Window, claimed: Ext|
            constraints::window_at(
                env,
                preprocessed[i],
                traces[i],
                trace,
                traces[i].rows() - 1,
            ) && ring::reduced(env.selectors[1]) != Felt::zero_spec() ==> (
            #[trigger] constraints::last_row_constraint((trace.width - 1) as nat, claimed, env)
                == Ext::zero_spec() <==> ring::reduced(claimed) == ring::reduced(
                values[i].local_cumulative_sum,
            )),
{
    let round = choose|round: PermutationRound|
        {
            &&& prover::permutation_round_ok(
                round,
                chips,
                preprocessed,
                traces,
                challenges,
                zero_digest,
                chips.len() as int,
            )
            &&& #[trigger] step.comes_from(round, pcs, traces)
        };
    assert(step.comes_from(round, pcs, traces));
    assert(prover::is_flat_permutation_of(
        round.traces@[i],
        round.local_sums@[i],
        chips[i].chip,
        preprocessed[i],
        traces[i],
        challenges,
    ));
    let m = choose|m: Matrix<Ext>|
        {
            &&& #[trigger] prover::is_permutation_of(
                m,
                round.local_sums@[i],
                chips[i].chip,
                preprocessed[i],
                traces[i],
                challenges,
            )
            &&& round.traces@[i].values@ == folder::flatten(m.values@)
            &&& round.traces@[i].width == 4 * m.width
        };
    assert(lde::is_lde(
        opening::trace_domain(traces[i]),
        round.traces@[i],
        pcs.fri.log_blowup as nat,
        step.ldes@[i],
    ));
    let sum = values[i].local_cumulative_sum;
    assert(values[i].holds(
        openings,
        chips,
        prep_local_only,
        prep_ordering,
        step.local_sums@,
        step.global_sums@,
        log_degrees,
        i,
    ));
    lemma_round_sum(
        m,
        round.local_sums@[i],
        chips[i].chip,
        preprocessed[i],
        traces[i],
        challenges,
    );
    let last = traces[i].rows() - 1;
    let n = (m.width - 1) as nat;
    assert(m.at(last, n as int) == sum);
    assert forall|env: Window, claimed: Ext|
        constraints::window_at(env, preprocessed[i], traces[i], m, last) && ring::reduced(
            env.selectors[1],
        ) != Felt::zero_spec() implies (#[trigger] constraints::last_row_constraint(n, claimed, env)
        == Ext::zero_spec() <==> ring::reduced(claimed) == ring::reduced(sum)) by {
        messages::lemma_last_row(n, claimed, env, sum);
    }
    m
}

/// What is observed of the permutation step are the sums that end up in the proof: for each chip, in
/// order, the four coordinates of its local sum and the two coordinates of its global one.
pub proof fn law_collected_sums_are_observed<A>(
    values: Seq<ChipOpenedValues>,
    openings: RoundOpenings,
    chips: Seq<ShardChip<A>>,
    prep_local_only: Seq<bool>,
    prep_ordering: Map<Seq<char>, usize>,
    log_degrees: Seq<usize>,
    step: PermutationStep,
    pcs: TwoAdicFriPcs,
    preprocessed: Seq<Option<&Matrix<Felt>>>,
    traces: Seq<Matrix<Felt>>,
    challenges: Seq<Ext>,
    zero_digest: SepticDigest,
    i: int,
    j: int,
)
    requires
        shard::are_collected(
            values,
            openings,
            chips,
            prep_local_only,
            prep_ordering,
            step.local_sums@,
            step.global_sums@,
            log_degrees,
        ),
        step.holds(pcs, chips, preprocessed, traces, challenges, zero_digest),
        0 <= i < chips.len(),
        0 <= j < 7,
    ensures
        step.observed@.len() == 18 * chips.len(),
        step.observed@[18 * i] == values[i].local_cumulative_sum.c0,
        step.observed@[18 * i + 1] == values[i].local_cumulative_sum.c1,
        step.observed@[18 * i + 2] == values[i].local_cumulative_sum.c2,
        step.observed@[18 * i + 3] == values[i].local_cumulative_sum.c3,
        step.observed@[18 * i + 4 + j] == values[i].global_cumulative_sum.x@[j],
        step.observed@[18 * i + 11 + j] == values[i].global_cumulative_sum.y@[j],
{
    let round = choose|round: PermutationRound|
        {
            &&& prover::permutation_round_ok(
                round,
                chips,
                preprocessed,
                traces,
                challenges,
                zero_digest,
                chips.len() as int,
            )
            &&& #[trigger] step.comes_from(round, pcs, traces)
        };
    assert(step.comes_from(round, pcs, traces));
    assert(values[i].holds(
        openings,
        chips,
        prep_local_only,
        prep_ordering,
        step.local_sums@,
        step.global_sums@,
        log_degrees,
        i,
    ));
    lemma_transcript(round.local_sums@, round.global_sums@, chips.len(), i, j);
}

proof fn lemma_transcript(local: Seq<Ext>, global: Seq<SepticDigest>, n: nat, i: int, j: int)
    requires
        0 <= i < n,
        0 <= j < 7,
        n <= local.len(),
        n <= global.len(),
    ensures
        ({
            let t = prover::sums_transcript(local, global, n);
            &&& t.len() == 18 * n
            &&& t[18 * i] == local[i].c0
            &&& t[18 * i + 1] == local[i].c1
            &&& t[18 * i + 2] == local[i].c2
            &&& t[18 * i + 3] == local[i].c3
            &&& t[18 * i + 4 + j] == global[i].x@[j]
            &&& t[18 * i + 11 + j] == global[i].y@[j]
        }),
    decreases n,
{
    if i < n - 1 {
        lemma_transcript(local, global, (n - 1) as nat, i, j);
    } else if n > 1 {
        lemma_transcript(local, global, (n - 1) as nat, 0, 0);
    }
}

/// The global sum that the proof has for a chip is the end of that chip's own trace, where the chip
/// takes part in global interactions: the last fourteen cells, seven for each coordinate. Else it is
/// the digest of nothing.
pub proof fn law_collected_global_sums<A>(
    values: Seq<ChipOpenedValues>,
    openings: RoundOpenings,
    chips: Seq<ShardChip<A>>,
    prep_local_only: Seq<bool>,
    prep_ordering: Map<Seq<char>, usize>,
    log_degrees: Seq<usize>,
    step: PermutationStep,
    pcs: TwoAdicFriPcs,
    preprocessed: Seq<Option<&Matrix<Felt>>>,
    traces: Seq<Matrix<Felt>>,
    challenges: Seq<Ext>,
    zero_digest: SepticDigest,
    i: int,
    j: int,
)
    requires
        shard::are_collected(
            values,
            openings,
            chips,
            prep_local_only,
            prep_ordering,
            step.local_sums@,
            step.global_sums@,
            log_degrees,
        ),
        step.holds(pcs, chips, preprocessed, traces, challenges, zero_digest),
        0 <= i < chips.len(),
        0 <= j < 7,
        traces[i].well_formed(),
        traces[i].values@.len() >= 14,
    ensures
        chips[i].commit_scope is Local ==> values[i].global_cumulative_sum == zero_digest,
        chips[i].commit_scope is Global ==> {
            let cells = traces[i].values@;
            &&& values[i].global_cumulative_sum.x@[j] == cells[cells.len() - 14 + j]
            &&& values[i].global_cumulative_sum.y@[j] == cells[cells.len() - 7 + j]
        },
{
    let round = choose|round: PermutationRound|
        {
            &&& prover::permutation_round_ok(
                round,
                chips,
                preprocessed,
                traces,
                challenges,
                zero_digest,
                chips.len() as int,
            )
            &&& #[trigger] step.comes_from(round, pcs, traces)
        };
    assert(step.comes_from(round, pcs, traces));
    assert(values[i].holds(
        openings,
        chips,
        prep_local_only,
        prep_ordering,
        step.local_sums@,
        step.global_sums@,
        log_degrees,
        i,
    ));
    let sum = round.global_sums@[i];
    let main = traces[i];
    lemma_fundamental_div_mod(main.values@.len() as int, main.width as int);
    lemma_mul_is_commutative(main.width as int, main.rows() as int);
}

/// The values of a trace in a proof are those of its polynomials: the local ones at `zeta`, and the
/// next ones at the point after it, or zero where the next row is not read.
pub proof fn law_collected_values_are_evaluations(
    values: AirOpenedValues,
    rounds: Seq<(&Vec<Matrix<Felt>>, &Vec<Vec<Ext>>)>,
    opening: Opening,
    log_blowup: nat,
    k: int,
    i: int,
    trace: Matrix<Felt>,
    zeta: Ext,
    local_only: bool,
    c: int,
    coeffs: Seq<Felt>,
)
    requires
        pcs::openable(rounds, log_blowup),
        opening.opens(rounds, log_blowup),
        0 <= k < rounds.len(),
        0 <= i < rounds[k].0@.len(),
        i < rounds[k].1@.len(),
        trace.well_formed(),
        bits::is_pow2(trace.rows()),
        bits::log2(trace.rows()) <= 27,
        lde::is_lde(opening::trace_domain(trace), trace, log_blowup, rounds[k].0@[i]),
        rounds[k].1@[i]@ == shard::points(opening::trace_domain(trace), zeta, local_only),
        values.holds(opening.opened_values@[k]@[i]@, local_only),
        0 <= c < trace.width,
        coeffs.len() <= trace.rows(),
        forall|r: nat|
            r < trace.rows() ==> ring::reduced(#[trigger] trace.at(r as int, c)) == ring::poly(
                coeffs,
                ring::pow(Felt::root(bits::log2(trace.rows())), r),
            ),
    ensures
        values.local@.len() == trace.width,
        values.next@.len() == trace.width,
        values.local@[c] == ring::poly(interpolation::embedded(coeffs), zeta),
        !local_only ==> values.next@[c] == ring::poly(
            interpolation::embedded(coeffs),
            zeta.times(ext::embed(Felt::root(bits::log2(trace.rows())))),
        ),
        local_only ==> values.next@[c] == Ext::zero_spec(),
{
    let domain = opening::trace_domain(trace);
    let log_n = bits::log2(trace.rows());
    let n = choose|n: nat| trace.rows() == pow2(n);
    bits::lemma_log2_pow2(n);
    assert(lde::column_is(trace, c, log_n, domain.shift, coeffs)) by {
        assert forall|r: nat| r < pow2(log_n) implies ring::reduced(
            #[trigger] trace.at(r as int, c),
        ) == ring::poly(coeffs, crate::barycentric::coset_point(domain.shift, log_n, r)) by {
            let x = ring::pow(Felt::root(log_n), r);
            ring::lemma_mul_one(x);
            ring::lemma_pow_reduced(Felt::root(log_n), r);
            Felt::law_mul_comm(domain.shift, x);
            assert(crate::barycentric::coset_point(domain.shift, log_n, r) == x);
        }
    }
    let opened = opening.opened_values@[k]@[i]@;
    assert(pcs::round_opened(
        rounds[k].0@,
        rounds[k].1@,
        log_blowup,
        opening.opened_values@[k]@,
    ));
    assert(opened[0]@ == pcs::opened_row(rounds[k].0@[i], log_blowup, rounds[k].1@[i]@[0]));
    pcs::law_open_returns_committed(
        rounds,
        opening,
        log_blowup,
        k,
        i,
        0,
        c,
        domain,
        trace,
        coeffs,
    );
    if !local_only {
        assert(opened[1]@ == pcs::opened_row(rounds[k].0@[i], log_blowup, rounds[k].1@[i]@[1]));
        pcs::law_open_returns_committed(
            rounds,
            opening,
            log_blowup,
            k,
            i,
            1,
            c,
            domain,
            trace,
            coeffs,
        );
    }
}

/// Each chip of a proof has the values of its own traces: those of its main and its permutation
/// trace by its place, those of its preprocessed trace by its name, and the height of its trace.
pub proof fn law_collected_by_chip<A>(
    values: Seq<ChipOpenedValues>,
    openings: RoundOpenings,
    chips: Seq<ShardChip<A>>,
    prep_local_only: Seq<bool>,
    prep_ordering: Map<Seq<char>, usize>,
    local_sums: Seq<Ext>,
    global_sums: Seq<SepticDigest>,
    log_degrees: Seq<usize>,
    i: int,
)
    requires
        shard::are_collected(
            values,
            openings,
            chips,
            prep_local_only,
            prep_ordering,
            local_sums,
            global_sums,
            log_degrees,
        ),
        0 <= i < chips.len(),
    ensures
        values[i].main.local@ == openings.main@[i]@[0]@,
        !chips[i].local_only ==> values[i].main.next@ == openings.main@[i]@[1]@,
        values[i].permutation.local@ == openings.permutation@[i]@[0]@,
        values[i].permutation.next@ == openings.permutation@[i]@[1]@,
        values[i].log_degree == log_degrees[i],
        prep_ordering.contains_key(chips[i].name@) ==> {
            let place = prep_ordering[chips[i].name@] as int;
            &&& values[i].preprocessed.local@ == openings.preprocessed@[place]@[0]@
            &&& !prep_local_only[place] ==> values[i].preprocessed.next@
                == openings.preprocessed@[place]@[1]@
        },
        !prep_ordering.contains_key(chips[i].name@) ==> values[i].preprocessed.local@.len() == 0
            && values[i].preprocessed.next@.len() == 0,
{
    assert(values[i].holds(
        openings,
        chips,
        prep_local_only,
        prep_ordering,
        local_sums,
        global_sums,
        log_degrees,
        i,
    ));
}

/// The quotient values of the first `n` chips, one after the other.
pub open spec fn quotients_of(values: Seq<ChipOpenedValues>, n: nat) -> Seq<Seq<Ext>>
    decreases n,
{
    if n == 0 {
        Seq::empty()
    } else {
        quotients_of(values, (n - 1) as nat) + Seq::new(
            values[n - 1].quotient@.len(),
            |j: int| values[n - 1].quotient@[j]@,
        )
    }
}

/// The quotient values in a proof, chip after chip, are the values that the quotient chunks were
/// opened to, chunk after chunk; and a chip has as many of them as its quotient has chunks.
pub proof fn law_collected_quotients<A>(
    values: Seq<ChipOpenedValues>,
    openings: RoundOpenings,
    chips: Seq<ShardChip<A>>,
    prep_local_only: Seq<bool>,
    prep_ordering: Map<Seq<char>, usize>,
    local_sums: Seq<Ext>,
    global_sums: Seq<SepticDigest>,
    log_degrees: Seq<usize>,
    n: nat,
    q: int,
)
    requires
        shard::are_collected(
            values,
            openings,
            chips,
            prep_local_only,
            prep_ordering,
            local_sums,
            global_sums,
            log_degrees,
        ),
        n <= chips.len(),
    ensures
        quotients_of(values, n).len() == shard::chunk_offset(shard::quotient_degrees(chips), n),
        0 <= q < quotients_of(values, n).len() ==> quotients_of(values, n)[q]
            == openings.quotient@[q]@.last()@,
        forall|i: int|
            0 <= i < n ==> (#[trigger] values[i]).quotient@.len() == pow2(
                chips[i].log_quotient_degree as nat,
            ),
    decreases n,
{
    if n > 0 {
        let m = (n - 1) as nat;
        law_collected_quotients(
            values,
            openings,
            chips,
            prep_local_only,
            prep_ordering,
            local_sums,
            global_sums,
            log_degrees,
            m,
            q,
        );
        let offset = shard::chunk_offset(shard::quotient_degrees(chips), m);
        assert(values[m as int].holds(
            openings,
            chips,
            prep_local_only,
            prep_ordering,
            local_sums,
            global_sums,
            log_degrees,
            m as int,
        ));
        if offset <= q < quotients_of(values, n).len() {
            let j = q - offset;
            assert(values[m as int].quotient@[j]@ == openings.quotient@[offset + j]@.last()@);
        }
        assert forall|i: int| 0 <= i < n implies (#[trigger] values[i]).quotient@.len() == pow2(
            chips[i].log_quotient_degree as nat,
        ) by {
            assert(values[i].holds(
                openings,
                chips,
                prep_local_only,
                prep_ordering,
                local_sums,
                global_sums,
                log_degrees,
                i,
            ));
        }
    }
}

} // verus!
