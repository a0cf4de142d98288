//! What the steps of a shard's opening have to do with its traces.

use vstd::prelude::*;
use vstd::arithmetic::power2::*;
use crate::babybear::Felt;
use crate::bits;
use crate::builder::SepticDigest;
use crate::chip::Air;
use crate::commit;
use crate::constraints;
use crate::disjoint;
use crate::domain;
use crate::domain::TwoAdic;
use crate::ext;
use crate::ext::Ext;
use crate::lde;
use crate::lde::Coset;
use crate::matrix::Matrix;
use crate::opening;
use crate::opening::{OpeningPoints, PermutationStep, QuotientStep, ShardDomains, ShardMainData};
use crate::ordering;
use crate::ordering::NamedTrace;
use crate::pcs::TwoAdicFriPcs;
use crate::program::Window;
use crate::prover;
use crate::prover::{PermutationRound, ShardChip, StarkProvingKey};
use crate::quotient;
use crate::quotient::Selectors;
use crate::ring;
use crate::ring::Ring;
use crate::shard;
use crate::shard::ChipEvaluations;

verus! {

/// The domains of a shard fit its traces: a trace has as many rows as its domain has points, and they
/// are those of the subgroup; the domain of its quotient is larger by the degree of the quotient and
/// has no point in common with the subgroup.
pub proof fn law_domains_fit_traces<A>(
    pcs: TwoAdicFriPcs,
    domains: ShardDomains,
    chips: Seq<ShardChip<A>>,
    traces: Seq<Matrix<Felt>>,
    i: int,
    q: int,
)
    requires
        opening::provable(pcs, chips, traces),
        domains.holds(chips, traces),
        0 <= i < chips.len(),
        0 <= q,
    ensures
        traces[i].rows() == pow2(domains.log_degrees@[i] as nat),
        traces[i].rows() == pow2(domains.trace_domains@[i].log_n as nat),
        domains.trace_domains@[i].shift == Felt::one_spec(),
        pow2(domains.quotient_domains@[i].log_n as nat) == traces[i].rows() * pow2(
            chips[i].log_quotient_degree as nat,
        ),
        ring::pow(quotient::point(domains.quotient_domains@[i], q), traces[i].rows())
            != Felt::one_spec(),
{
    let n = bits::log2(traces[i].rows());
    assert(opening::committable(pcs, traces[i]));
    lemma_pow2_adds(n, chips[i].log_quotient_degree as nat);
    let coset = domains.quotient_domains@[i];
    lemma_generator_shift();
    disjoint::law_disjoint(n, coset, q);
    ring::lemma_sub_self(Felt::one_spec());
}

proof fn lemma_generator_shift()
    ensures
        Felt::one_spec().times(lde::generator()) == lde::generator(),
        ring::reduced(lde::generator()) == lde::generator(),
{
    Felt::law_mul_comm(Felt::one_spec(), lde::generator());
    ring::lemma_mul_one(lde::generator());
    assert(ring::reduced(lde::generator()) == lde::generator());
}

/// What is read back at two points of a quotient domain is the value of the column's polynomial there.
proof fn lemma_read_values(
    committed: Coset,
    trace: Matrix<Felt>,
    log_blowup: nat,
    lde: Matrix<Felt>,
    domain: Coset,
    read: Matrix<Felt>,
    k: int,
    c: int,
    coeffs: Seq<Felt>,
)
    requires
        lde::is_lde(committed, trace, log_blowup, lde),
        committed.log_n + log_blowup <= 27,
        domain.log_n <= committed.log_n + log_blowup,
        domain.shift == lde::generator(),
        opening::is_read(lde, domain, read),
        0 <= k < pow2(domain.log_n as nat),
        0 <= c < trace.width,
        lde::column_is(trace, c, committed.log_n as nat, committed.shift, coeffs),
    ensures
        read.row(k)[c] == ring::poly(coeffs, quotient::point(domain, k)),
{
    assert(read.at(k as nat as int, c) == lde.at(
        bits::bitrev(k as nat, domain.log_n as nat) as int,
        c,
    ));
    commit::law_evaluations_on_domain(
        committed,
        trace,
        log_blowup,
        lde,
        domain,
        read,
        c,
        coeffs,
        k as nat,
    );
    assert(read.row(k)[c] == read.at(k, c));
}

/// Whether a row holds the values at `x` of the polynomials of a trace.
pub open spec fn row_is_at(row: Seq<Felt>, trace: Matrix<Felt>, log_n: nat, x: Felt) -> bool {
    forall|c: int, coeffs: Seq<Felt>|
        0 <= c < trace.width && #[trigger] lde::column_is(trace, c, log_n, Felt::one_spec(), coeffs)
            ==> row[c] == ring::poly(coeffs, x)
}

/// What is read back of a trace at a point and at the next are the values of its polynomials there.
proof fn lemma_rows_are_at(
    committed: Coset,
    trace: Matrix<Felt>,
    log_blowup: nat,
    lde: Matrix<Felt>,
    domain: Coset,
    read: Matrix<Felt>,
    k: int,
)
    requires
        lde::is_lde(committed, trace, log_blowup, lde),
        committed.shift == Felt::one_spec(),
        committed.log_n + log_blowup <= 27,
        domain.log_n <= committed.log_n + log_blowup,
        domain.shift == lde::generator(),
        opening::is_read(lde, domain, read),
        0 <= k < pow2(domain.log_n as nat),
    ensures
        row_is_at(read.row(k), trace, committed.log_n as nat, quotient::point(domain, k)),
{
    let n = committed.log_n as nat;
    assert forall|c: int, coeffs: Seq<Felt>|
        0 <= c < trace.width && #[trigger] lde::column_is(
            trace,
            c,
            n,
            Felt::one_spec(),
            coeffs,
        ) implies read.row(k)[c] == ring::poly(coeffs, quotient::point(domain, k)) by {
        lemma_read_values(committed, trace, log_blowup, lde, domain, read, k, c, coeffs);
    }
}

/// The quotient of each chip is that of its own traces. At a point of its quotient domain, it times the
/// vanishing polynomial of its trace domain is the sum of its constraints, with falling powers of
/// `alpha`, on the values that the polynomials of its own main trace, permutation trace and
/// preprocessed trace have at that point and at the next, and with its own sums.
pub proof fn law_quotient_is_of_traces<A: Air>(
    chunks: Seq<(Coset, Matrix<Felt>)>,
    evaluations: Seq<ChipEvaluations>,
    values: Seq<Vec<Ext>>,
    pcs: TwoAdicFriPcs,
    pk: StarkProvingKey,
    chips: Seq<ShardChip<A>>,
    main: Seq<Matrix<Felt>>,
    step: PermutationStep,
    domains: ShardDomains,
    challenges: Seq<Ext>,
    alpha: Ext,
    public_values: Seq<Felt>,
    trace: Matrix<Felt>,
    permutation: Matrix<Felt>,
    preprocessed: Matrix<Felt>,
    i: int,
    q: int,
) -> (env: Window)
    requires
        opening::chunks_of_round(
            chunks,
            evaluations,
            values,
            pk,
            chips,
            main,
            step,
            domains,
            challenges,
            alpha,
            public_values,
        ),
        domains.well_formed(pcs, chips),
        0 <= i < chips.len(),
        0 <= q < values[i]@.len(),
        lde::is_lde(domains.trace_domains@[i], trace, pcs.fri.log_blowup as nat, main[i]),
        lde::is_lde(
            domains.trace_domains@[i],
            permutation,
            pcs.fri.log_blowup as nat,
            step.ldes@[i],
        ),
        pk.chip_ordering@.contains_key(chips[i].name@) ==> lde::is_lde(
            domains.trace_domains@[i],
            preprocessed,
            pcs.fri.log_blowup as nat,
            pk.ldes@[pk.chip_ordering@[chips[i].name@] as int],
        ),
    ensures
        ({
            let n = domains.log_degrees@[i] as nat;
            let x = quotient::point(domains.quotient_domains@[i], q);
            let next = x.times(Felt::root(n));
            let zero = ring::minus(ring::pow(x, pow2(n)), Felt::one_spec());
            let chip = chips[i].chip;
            let sends = Seq::new(chip.local_sends@.len(), |k: int| &chip.local_sends@[k]);
            let receives = Seq::new(chip.local_receives@.len(), |k: int| &chip.local_receives@[k]);
            let all = chip.air.constraints(env, public_values)
                + constraints::permutation_constraints(
                sends,
                receives,
                chip.logup_batch_size as nat,
                chips[i].commit_scope,
                challenges,
                step.local_sums@[i],
                step.global_sums@[i],
                main[i].width as nat,
                env,
            );
            &&& values[i]@.len() == pow2(n + chips[i].log_quotient_degree as nat)
            &&& row_is_at(env.main_local, trace, n, x)
            &&& row_is_at(env.main_next, trace, n, next)
            &&& row_is_at(env.perm_local, permutation, n, x)
            &&& row_is_at(env.perm_next, permutation, n, next)
            &&& pk.chip_ordering@.contains_key(chips[i].name@) ==> row_is_at(
                env.prep_local,
                preprocessed,
                n,
                x,
            ) && row_is_at(env.prep_next, preprocessed, n, next)
            &&& values[i]@[q].times(ext::embed(zero)) == ring::sum(
                all.len(),
                |k: int| all[k].times(ring::pow(alpha, (all.len() - 1 - k) as nat)),
            )
        }),
{
    let e = evaluations[i];
    let (trace_domain, domain) = (domains.trace_domains@[i], domains.quotient_domains@[i]);
    let b = pcs.fri.log_blowup as nat;
    assert(domains.log_degrees@[i] + pcs.fri.log_blowup <= 27);
    lemma_generator_shift();
    assert(shard::is_quotient_of(
        values[i]@,
        chips[i],
        trace_domain,
        domain,
        e,
        step.local_sums@[i],
        step.global_sums@[i],
        challenges,
        alpha,
        public_values,
    ));
    let sels = choose|sels: Selectors| #[trigger]
        quotient::is_quotient(
            values[i]@,
            chips[i].chip,
            chips[i].commit_scope,
            step.local_sums@[i],
            step.global_sums@[i],
            trace_domain,
            domain,
            e.preprocessed,
            e.main,
            e.permutation,
            challenges,
            alpha,
            public_values,
            sels,
        );
    let (env, j) = quotient::law_quotient_divides_constraints(
        values[i]@,
        chips[i].chip,
        chips[i].commit_scope,
        step.local_sums@[i],
        step.global_sums@[i],
        trace_domain,
        domain,
        e.preprocessed,
        e.main,
        e.permutation,
        challenges,
        alpha,
        public_values,
        sels,
        q,
    );
    assert(opening::evaluations_of(
        e,
        pk,
        chips[i].name@,
        main[i],
        step.ldes@[i],
        domain,
    ));
    lemma_rows_are_at(trace_domain, trace, b, main[i], domain, e.main, q);
    lemma_rows_are_at(trace_domain, trace, b, main[i], domain, e.main, j);
    lemma_rows_are_at(trace_domain, permutation, b, step.ldes@[i], domain, e.permutation, q);
    lemma_rows_are_at(trace_domain, permutation, b, step.ldes@[i], domain, e.permutation, j);
    if pk.chip_ordering@.contains_key(chips[i].name@) {
        let lde = pk.ldes@[pk.chip_ordering@[chips[i].name@] as int];
        lemma_rows_are_at(trace_domain, preprocessed, b, lde, domain, e.preprocessed->0, q);
        lemma_rows_are_at(trace_domain, preprocessed, b, lde, domain, e.preprocessed->0, j);
    }
    env
}

/// The permutation step extends each chip's permutation trace over the domain of its main trace.
pub proof fn law_step_extends_permutation_traces<A>(
    step: PermutationStep,
    pcs: TwoAdicFriPcs,
    chips: Seq<ShardChip<A>>,
    preprocessed: Seq<Option<&Matrix<Felt>>>,
    traces: Seq<Matrix<Felt>>,
    challenges: Seq<Ext>,
    zero_digest: SepticDigest,
    i: int,
) -> (flat: Matrix<Felt>)
    requires
        opening::provable(pcs, chips, traces),
        step.holds(pcs, chips, preprocessed, traces, challenges, zero_digest),
        0 <= i < chips.len(),
    ensures
        prover::is_flat_permutation_of(
            flat,
            step.local_sums@[i],
            chips[i].chip,
            preprocessed[i],
            traces[i],
            challenges,
        ),
        lde::is_lde(
            (Coset { log_n: bits::log2(traces[i].rows()) as usize, shift: Felt::one_spec() }),
            flat,
            pcs.fri.log_blowup as nat,
            step.ldes@[i],
        ),
        traces[i].rows() == pow2(bits::log2(traces[i].rows())),
{
    let round = choose|round: PermutationRound|
        {
            &&& prover::permutation_round_ok(
                round,
                chips,
                preprocessed,
                traces,
                challenges,
                zero_digest,
                chips.len() as int,
            )
            &&& #[trigger] step.comes_from(round, pcs, traces)
        };
    assert(step.comes_from(round, pcs, traces));
    assert(opening::committable(pcs, traces[i]));
    assert(prover::is_flat_permutation_of(
        round.traces@[i],
        round.local_sums@[i],
        chips[i].chip,
        preprocessed[i],
        traces[i],
        challenges,
    ));
    assert(lde::is_lde(
        opening::trace_domain(traces[i]),
        round.traces@[i],
        pcs.fri.log_blowup as nat,
        step.ldes@[i],
    ));
    round.traces@[i]
}

/// Whether a matrix extends one of the chunks that have two hundred and fifty-six rows or more.
pub open spec fn extends_large_chunk(
    lde: Matrix<Felt>,
    chunks: Seq<(Coset, Matrix<Felt>)>,
    log_blowup: nat,
) -> bool {
    exists|k: int|
        0 <= k < chunks.len() && chunks[k].1.rows() >= 256 && #[trigger] lde::is_lde(
            chunks[k].0,
            chunks[k].1,
            log_blowup,
            lde,
        )
}

/// Leaving out small chunks changes what is committed, not what is hashed: of the same chunks, the
/// digests are the same with and without it. Without it every chunk is committed on its own domain; with
/// it, those with two hundred and fifty-six rows or more are, and the others are counted.
pub proof fn law_tiering_keeps_digest(
    all: QuotientStep,
    some: QuotientStep,
    chunks: Seq<(Coset, Matrix<Felt>)>,
    hashed: bool,
    pcs: TwoAdicFriPcs,
)
    requires
        all.commits(chunks, false, hashed, pcs),
        some.commits(chunks, true, hashed, pcs),
    ensures
        all.direct_hash is Some <==> hashed,
        some.direct_hash is Some <==> hashed,
        hashed ==> all.direct_hash->0@ == some.direct_hash->0@,
        hashed ==> all.direct_hash->0@ == shard::blake3_digest(
            shard::chunk_bytes(chunks, chunks.len()),
        ),
        all.skipped == 0,
        all.ldes@.len() == chunks.len(),
        forall|j: int|
            0 <= j < chunks.len() ==> lde::is_lde(
                chunks[j].0,
                chunks[j].1,
                pcs.fri.log_blowup as nat,
                #[trigger] all.ldes@[j],
            ),
        some.ldes@.len() + some.skipped == chunks.len(),
        forall|j: int|
            0 <= j < some.ldes@.len() ==> extends_large_chunk(
                #[trigger] some.ldes@[j],
                chunks,
                pcs.fri.log_blowup as nat,
            ),
{
    let kept = shard::large_chunks(chunks, chunks.len());
    assert forall|j: int| 0 <= j < some.ldes@.len() implies extends_large_chunk(
        #[trigger] some.ldes@[j],
        chunks,
        pcs.fri.log_blowup as nat,
    ) by {
        let k = shard::lemma_kept_chunk(chunks, chunks.len(), j);
        assert(lde::is_lde(kept[j].0, kept[j].1, pcs.fri.log_blowup as nat, some.ldes@[j]));
        assert(lde::is_lde(chunks[k].0, chunks[k].1, pcs.fri.log_blowup as nat, some.ldes@[j]));
    }
}

/// The main traces of a shard are found again by name: at the place that is noted for its name stands
/// the trace that came with the name, and what is committed for it; no trace is lost, and none is higher
/// than one before it.
pub proof fn law_main_traces_are_found(
    data: ShardMainData,
    pcs: TwoAdicFriPcs,
    named: Seq<NamedTrace>,
    public_values: Vec<Felt>,
    k: int,
)
    requires
        data.holds(pcs, named, public_values),
        named.len() <= usize::MAX,
        forall|i: int, j: int|
            0 <= i < j < named.len() ==> (#[trigger] named[i]).0@ != (#[trigger] named[j]).0@,
        0 <= k < named.len(),
    ensures
        data.public_values == public_values,
        data.traces@.len() == named.len(),
        data.ldes@.len() == named.len(),
        data.chip_ordering@.contains_key(named[k].0@),
        data.chip_ordering@[named[k].0@] < named.len(),
        data.traces@[data.chip_ordering@[named[k].0@] as int] == named[k].1,
        opening::is_committed(
            pcs,
            named[k].1,
            data.ldes@[data.chip_ordering@[named[k].0@] as int],
        ),
        forall|i: int, j: int|
            0 <= i < j < named.len() ==> (#[trigger] data.traces@[i]).rows() >= (
            #[trigger] data.traces@[j]).rows(),
{
    let n = named.len();
    let sorted = ordering::ordered(named, n);
    ordering::law_order_sorts(named, n);
    assert(named.take(n as int) =~= named);
    named.to_multiset_ensures();
    sorted.to_multiset_ensures();
    assert(named.contains(named[k]));
    assert(named.to_multiset().count(named[k]) > 0);
    assert(sorted.contains(named[k]));
    let p = choose|p: int| 0 <= p < sorted.len() && sorted[p] == named[k];
    // no later table has this name
    assert forall|j: int| p < j < n implies (#[trigger] sorted[j]).0@ != sorted[p].0@ by {
        if sorted[j].0@ == sorted[p].0@ {
            assert(sorted.contains(sorted[j]));
            assert(sorted.to_multiset().count(sorted[j]) > 0);
            assert(named.contains(sorted[j]));
            let m = choose|m: int| 0 <= m < n && named[m] == sorted[j];
            assert(m == k) by {
                assert(named[m].0@ == named[k].0@);
            }
            lemma_once(sorted, named, p, j, k);
        }
    }
    ordering::law_places_find_tables(sorted, n, p, named[k].0@);
    assert(opening::is_committed(pcs, sorted[p].1, data.ldes@[p]));
    assert forall|i: int, j: int| 0 <= i < j < n implies (#[trigger] data.traces@[i]).rows() >= (
    #[trigger] data.traces@[j]).rows() by {
        ordering::law_taller_first(named, n, i, j);
    }
}

/// A table that is given once stands in order once.
proof fn lemma_once(sorted: Seq<NamedTrace>, named: Seq<NamedTrace>, p: int, j: int, k: int)
    requires
        sorted.to_multiset() == named.to_multiset(),
        0 <= p < j < sorted.len(),
        0 <= k < named.len(),
        named[k] == sorted[p],
        forall|i: int, m: int|
            0 <= i < m < named.len() ==> (#[trigger] named[i]).0@ != (#[trigger] named[m]).0@,
    ensures
        sorted[j] != sorted[p],
{
    if sorted[j] == sorted[p] {
        let x = named[k];
        let rest = named.remove(k);
        named.to_multiset_ensures();
        rest.to_multiset_ensures();
        let few = sorted.remove(j);
        sorted.to_multiset_ensures();
        few.to_multiset_ensures();
        assert(few[p] == x);
        assert(few.contains(x));
        assert(few.to_multiset() =~= sorted.to_multiset().remove(x));
        assert(rest.to_multiset() =~= named.to_multiset().remove(x));
        assert(rest.to_multiset().count(x) > 0);
        assert(rest.contains(x));
        let m = choose|m: int| 0 <= m < rest.len() && rest[m] == x;
        let at = if m < k {
            m
        } else {
            m + 1
        };
        assert(named[at] == x && at != k);
    }
}

/// The points of a chip: its main trace is opened at `zeta`, and where its constraints read the next
/// row also at `zeta` times the generator of the subgroup that has a point for each row of its own
/// trace; its permutation trace always at both; and every quotient chunk at `zeta` alone.
pub proof fn law_points_of_chip<A>(
    points: OpeningPoints,
    pk: StarkProvingKey,
    chips: Seq<ShardChip<A>>,
    domains: ShardDomains,
    traces: Seq<Matrix<Felt>>,
    num_quotient_chunks: nat,
    zeta: Ext,
    pcs: TwoAdicFriPcs,
    i: int,
)
    requires
        points.holds(pk, chips, domains, num_quotient_chunks, zeta),
        opening::provable(pcs, chips, traces),
        domains.holds(chips, traces),
        0 <= i < chips.len(),
    ensures
        ({
            let next = zeta.times(ext::embed(Felt::root(bits::log2(traces[i].rows()))));
            &&& points.main@[i]@ == if chips[i].local_only {
                seq![zeta]
            } else {
                seq![zeta, next]
            }
            &&& points.permutation@[i]@ == seq![zeta, next]
            &&& ring::pow(Felt::root(bits::log2(traces[i].rows())), traces[i].rows())
                == Felt::one_spec()
        }),
        forall|k: int|
            0 <= k < pk.traces@.len() ==> (#[trigger] points.preprocessed@[k])@ == if pk.local_only@[k] {
                seq![zeta]
            } else {
                seq![
                    zeta,
                    zeta.times(
                        ext::embed(Felt::root(bits::log2(pk.traces@[k].rows()) as usize as nat)),
                    ),
                ]
            },
        points.quotient@.len() == num_quotient_chunks,
        forall|k: int|
            0 <= k < num_quotient_chunks ==> (#[trigger] points.quotient@[k])@ == seq![zeta],
{
    assert(opening::committable(pcs, traces[i]));
    domain::lemma_root_order::<Felt>(bits::log2(traces[i].rows()));
    let m = points.main@[i];
    let p = points.permutation@[i];
}

} // verus!
