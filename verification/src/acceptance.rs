//! A proof that an honest prover makes is accepted: what is committed, opened, folded and read at
//! the queries passes the verifier.

use vstd::prelude::*;
use vstd::arithmetic::power2::*;
use vstd::arithmetic::div_mod::*;
use vstd::arithmetic::mul::*;
use crate::babybear::Felt;
use crate::ext::Ext;
use crate::fri;
use crate::fri::{CommitPhaseResult, QueryProof};
use crate::honest;
use crate::matrix::Matrix;
use crate::pcs;
use crate::pcs::Opening;
use crate::query;
use crate::query::MatrixClaim;
use crate::reduction;
use crate::ring;
use crate::verify;
use crate::verify::{QueryOpening, VerificationError};

verus! {

/// Whether a query is answered from the committed codewords: with the entry of each row of pairs
/// that is not the query's own.
pub open spec fn answers<P>(proof: QueryProof<P>, data: Seq<Matrix<Ext>>, index: nat) -> bool {
    &&& proof.commit_phase_openings@.len() == data.len()
    &&& forall|n: int|
        0 <= n < data.len() ==> (#[trigger] proof.commit_phase_openings@[n]).sibling_value
            == data[n].row((index / pow2(n as nat) / 2) as int)[(fri::sibling(
            index / pow2(n as nat),
        ) % 2) as int]
}

/// The values that answer a query, one for each committed codeword.
pub open spec fn sibling_values<P>(proof: QueryProof<P>) -> Seq<Ext> {
    Seq::new(
        proof.commit_phase_openings@.len(),
        |n: int| proof.commit_phase_openings@[n].sibling_value,
    )
}

/// Whether a query's walk from its combinations ends with the final polynomial.
pub open spec fn ends_with<P>(
    reduced_openings: Seq<Ext>,
    proof: QueryProof<P>,
    log_max: nat,
    betas: Seq<Ext>,
    index: nat,
    final_poly: Ext,
) -> bool {
    ring::reduced(
        honest::walk(
            reduced_openings,
            sibling_values(proof),
            log_max,
            betas,
            index,
            betas.len(),
        ),
    ) == ring::reduced(final_poly)
}

/// Whether the walk of every query ends with the final polynomial.
pub open spec fn all_end<I, P>(
    queries: Seq<QueryOpening<I>>,
    reduced_openings: Seq<Vec<Ext>>,
    proofs: Seq<QueryProof<P>>,
    log_max: nat,
    betas: Seq<Ext>,
    final_poly: Ext,
) -> bool {
    forall|q: int|
        0 <= q < queries.len() ==> ends_with(
            (#[trigger] reduced_openings[q])@,
            proofs[q],
            log_max,
            betas,
            queries[q].index as nat,
            final_poly,
        )
}

/// What a query of an honest opening reads: rows of the committed matrices, which every check
/// finds to be committed, and the siblings in the committed codewords.
pub open spec fn is_honest<I, P>(
    rounds: Seq<(&Vec<Matrix<Felt>>, &Vec<Vec<Ext>>)>,
    opening: Opening,
    batches: Seq<Vec<MatrixClaim>>,
    log_blowup: nat,
    data: Seq<Matrix<Ext>>,
    query: QueryOpening<I>,
    proof: QueryProof<P>,
) -> bool {
    &&& query::claims_match(
        rounds,
        opening.opened_values@,
        batches,
        query.rows@,
        log_blowup,
        opening.log_global_max_height as nat,
        query.index as nat,
    )
    &&& query.index < pow2(opening.log_global_max_height as nat)
    &&& forall|b: int| 0 <= b < query.checks@.len() ==> (#[trigger] query.checks@[b]) is None
    &&& answers(proof, data, query.index as nat)
}

proof fn lemma_no_error<I>(checks: Seq<Option<I>>, n: nat)
    requires
        n <= checks.len(),
        forall|b: int| 0 <= b < checks.len() ==> (#[trigger] checks[b]) is None,
    ensures
        verify::first_error(checks, n) is None,
    decreases n,
{
    if n > 0 {
        lemma_no_error(checks, (n - 1) as nat);
        assert(checks[n - 1] is None);
    }
}

proof fn lemma_no_rejection<I>(queries: Seq<QueryOpening<I>>, n: nat)
    requires
        n <= queries.len(),
        forall|q: int, b: int|
            0 <= q < queries.len() && 0 <= b < queries[q].checks@.len() ==> (
            #[trigger] queries[q].checks@[b]) is None,
    ensures
        verify::first_rejection(queries, n) is None,
    decreases n,
{
    if n > 0 {
        lemma_no_rejection(queries, (n - 1) as nat);
        let checks = queries[n - 1].checks@;
        assert forall|b: int| 0 <= b < checks.len() implies (#[trigger] checks[b]) is None by {
            assert(queries[n - 1].checks@[b] is None);
        }
        lemma_no_error(checks, checks.len());
    }
}

/// The answers to a query are the siblings of the entries that it points to.
proof fn lemma_answers<P>(
    proof: QueryProof<P>,
    result: CommitPhaseResult,
    words: Seq<Option<Vec<Ext>>>,
    log_max: nat,
    betas: Seq<Ext>,
    index: nat,
)
    requires
        answers(proof, result.data@, index),
        result.data@.len() == betas.len(),
        betas.len() <= log_max,
        index < pow2(log_max),
        forall|i: int|
            0 <= i < betas.len() ==> (#[trigger] result.data@[i]).width == 2
                && result.data@[i].values@ == fri::codeword(words, log_max, betas, i as nat),
        forall|n: nat|
            n <= betas.len() ==> (#[trigger] fri::codeword(words, log_max, betas, n)).len() == pow2(
                (log_max - n) as nat,
            ),
    ensures
        honest::are_siblings(sibling_values(proof), words, log_max, betas, index),
{
    let siblings = sibling_values(proof);
    assert forall|n: nat| n < siblings.len() implies #[trigger] siblings[n as int]
        == fri::codeword(words, log_max, betas, n)[fri::sibling(index / pow2(n)) as int] by {
        let leaves = result.data@[n as int];
        let h = (log_max - n) as nat;
        let i = index / pow2(n);
        assert(proof.commit_phase_openings@[n as int].sibling_value == siblings[n as int]);
        assert(leaves.values@ == fri::codeword(words, log_max, betas, n));
        lemma_pow2_adds(n, h);
        lemma_pow2_pos(n);
        lemma_multiply_divide_lt(index as int, pow2(n) as int, pow2(h) as int);
        lemma_mul_is_commutative(pow2(n) as int, pow2(h) as int);
        lemma_div_pos_is_pos(index as int, pow2(n) as int);
        lemma_pow2_unfold(h);
        fri::law_answer_is_sibling(leaves, i, leaves.row((i / 2) as int));
    }
}

/// The codeword after `n` folds has the length of its height.
proof fn lemma_codeword_len(
    input: Seq<Option<Vec<Ext>>>,
    log_max: nat,
    betas: Seq<Ext>,
    n: nat,
)
    requires
        fri::inputs_ok(input),
        fri::is_log_max(input, log_max),
        n <= log_max,
    ensures
        fri::codeword(input, log_max, betas, n).len() == pow2((log_max - n) as nat),
    decreases n,
{
    if n > 0 {
        lemma_codeword_len(input, log_max, betas, (n - 1) as nat);
        lemma_pow2_unfold((log_max - n + 1) as nat);
    } else {
        assert(input[log_max as int] is Some);
    }
}

/// One honest query: its rows can be combined, and its walk ends with the final polynomial.
proof fn lemma_query<I, P>(
    rounds: Seq<(&Vec<Matrix<Felt>>, &Vec<Vec<Ext>>)>,
    opening: Opening,
    words: Seq<Option<Vec<Ext>>>,
    batches: Seq<Vec<MatrixClaim>>,
    log_blowup: nat,
    alpha: Ext,
    betas: Seq<Ext>,
    result: CommitPhaseResult,
    query: QueryOpening<I>,
    proof: QueryProof<P>,
)
    requires
        pcs::openable(rounds, log_blowup),
        opening.opens(rounds, log_blowup),
        honest::all_committed(rounds, log_blowup),
        reduction::combined(words, rounds, opening.opened_values@, alpha),
        words[opening.log_global_max_height as int] is Some,
        betas.len() == opening.log_global_max_height - log_blowup,
        fri::inputs_ok(words),
        fri::is_log_max(words, opening.log_global_max_height as nat),
        fri::phase_gives(
            words,
            opening.log_global_max_height as nat,
            betas,
            log_blowup,
            Some(result),
        ),
        is_honest(rounds, opening, batches, log_blowup, result.data@, query, proof),
    ensures
        verify::combinable(query, batches, log_blowup, opening.log_global_max_height as nat),
        ends_with(
            verify::reduced_opening(
                query,
                batches,
                log_blowup,
                opening.log_global_max_height as nat,
                alpha,
            ),
            proof,
            opening.log_global_max_height as nat,
            betas,
            query.index as nat,
            result.final_poly,
        ),
{
    let g = opening.log_global_max_height as nat;
    assert forall|n: nat| n <= betas.len() implies (#[trigger] fri::codeword(
        words,
        g,
        betas,
        n,
    )).len() == pow2((g - n) as nat) by {
        lemma_codeword_len(words, g, betas, n);
    }
    lemma_answers(proof, result, words, g, betas, query.index as nat);
    honest::law_honest_opening_is_accepted(
        rounds,
        opening,
        words,
        batches,
        query,
        sibling_values(proof),
        log_blowup,
        alpha,
        betas,
    );
}

/// An honest proof is accepted. Where every matrix is what is committed of some evaluations, the
/// claims are the values that the opening returns, and every query reads rows of the committed
/// matrices and siblings in the codewords of the commit phase, then whatever the challenges are: the
/// commit phase succeeds, the rows of every query can be combined, and the verdict is acceptance,
/// given a verifier of the folding that finds nothing wrong with the shape of the proof, nor with
/// queries whose walks all end with the final polynomial.
pub proof fn law_honest_proof_is_accepted<I, F, P>(
    rounds: Seq<(&Vec<Matrix<Felt>>, &Vec<Vec<Ext>>)>,
    opening: Opening,
    words: Seq<Option<Vec<Ext>>>,
    batches: Seq<Vec<MatrixClaim>>,
    log_blowup: nat,
    alpha: Ext,
    betas: Seq<Ext>,
    phase: Option<CommitPhaseResult>,
    queries: Seq<QueryOpening<I>>,
    proofs: Seq<QueryProof<P>>,
    reduced_openings: Result<Vec<Vec<Ext>>, VerificationError<I, F>>,
    folding: Option<F>,
)
    requires
        pcs::openable(rounds, log_blowup),
        opening.opens(rounds, log_blowup),
        honest::all_committed(rounds, log_blowup),
        reduction::combined(words, rounds, opening.opened_values@, alpha),
        words[opening.log_global_max_height as int] is Some,
        betas.len() == opening.log_global_max_height - log_blowup,
        fri::phase_gives(words, opening.log_global_max_height as nat, betas, log_blowup, phase),
        phase matches Some(result) ==> forall|q: int|
            0 <= q < queries.len() ==> is_honest(
                rounds,
                opening,
                batches,
                log_blowup,
                result.data@,
                #[trigger] queries[q],
                proofs[q],
            ),
        verify::queries_reduced(
            None::<F>,
            batches,
            queries,
            log_blowup,
            betas.len() + log_blowup,
            alpha,
            reduced_openings,
        ),
        phase is Some && reduced_openings is Ok && all_end(
            queries,
            reduced_openings->Ok_0@,
            proofs,
            opening.log_global_max_height as nat,
            betas,
            phase->0.final_poly,
        ) ==> folding is None,
    ensures
        phase is Some,
        forall|q: int|
            0 <= q < queries.len() ==> verify::combinable(
                #[trigger] queries[q],
                batches,
                log_blowup,
                betas.len() + log_blowup,
            ),
        reduced_openings is Ok,
        all_end(
            queries,
            reduced_openings->Ok_0@,
            proofs,
            opening.log_global_max_height as nat,
            betas,
            phase->0.final_poly,
        ),
        verify::verdict(reduced_openings, folding) == Ok::<(), VerificationError<I, F>>(()),
{
    let g = opening.log_global_max_height as nat;
    assert(g == betas.len() + log_blowup);
    let coeffs = honest::law_combined_of_low_degree(rounds, opening, words, log_blowup, alpha);
    honest::lemma_highest(rounds, opening, words, log_blowup, alpha);
    fri::law_commit_phase_completes(words, coeffs, log_blowup, g, betas);
    let result = phase->0;
    assert(phase == Some(result));
    assert forall|q: int| 0 <= q < queries.len() implies {
        &&& verify::combinable(#[trigger] queries[q], batches, log_blowup, g)
        &&& ends_with(
            verify::reduced_opening(queries[q], batches, log_blowup, g, alpha),
            proofs[q],
            g,
            betas,
            queries[q].index as nat,
            result.final_poly,
        )
    } by {
        lemma_query(
            rounds,
            opening,
            words,
            batches,
            log_blowup,
            alpha,
            betas,
            result,
            queries[q],
            proofs[q],
        );
    }
    assert forall|q: int, b: int|
        0 <= q < queries.len() && 0 <= b < queries[q].checks@.len() implies (
    #[trigger] queries[q].checks@[b]) is None by {
        assert(is_honest(
            rounds,
            opening,
            batches,
            log_blowup,
            result.data@,
            queries[q],
            proofs[q],
        ));
    }
    lemma_no_rejection(queries, queries.len());
    assert forall|q: int| 0 <= q < queries.len() implies ends_with(
        (#[trigger] reduced_openings->Ok_0@[q])@,
        proofs[q],
        g,
        betas,
        queries[q].index as nat,
        result.final_poly,
    ) by {
        assert(verify::combinable(queries[q], batches, log_blowup, g));
    }
}

} // verus!
