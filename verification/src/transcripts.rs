//! Prover and verifier put the same values on their transcripts.

use vstd::prelude::*;
use crate::commit;
use crate::ext::Ext;
use crate::query::MatrixClaim;
use crate::verify;

verus! {

/// Whether the claims on a matrix are the values that it was opened to, point by point.
pub open spec fn claims_values(claim: MatrixClaim, opened: Seq<Vec<Ext>>) -> bool {
    &&& claim.points@.len() == opened.len()
    &&& forall|p: int|
        0 <= p < opened.len() ==> (#[trigger] claim.points@[p]).1@ == opened[p]@
}

/// As [`claims_values`], for all matrices of a batch.
pub open spec fn claims_batch(claims: Seq<MatrixClaim>, opened: Seq<Vec<Vec<Ext>>>) -> bool {
    &&& claims.len() == opened.len()
    &&& forall|i: int| 0 <= i < opened.len() ==> claims_values(#[trigger] claims[i], opened[i]@)
}

proof fn lemma_points(claim: MatrixClaim, opened: Seq<Vec<Ext>>, n: nat)
    requires
        claims_values(claim, opened),
        n <= opened.len(),
    ensures
        verify::claimed_points(claim.points@, n) == commit::flat_points(opened.take(n as int)),
    decreases n,
{
    if n > 0 {
        lemma_points(claim, opened, (n - 1) as nat);
        assert(opened.take(n as int).drop_last() =~= opened.take(n - 1));
        assert(opened.take(n as int).last() == opened[n - 1]);
        assert(claim.points@[n - 1].1@ == opened[n - 1]@);
    }
}

proof fn lemma_matrices(claims: Seq<MatrixClaim>, opened: Seq<Vec<Vec<Ext>>>, n: nat)
    requires
        claims_batch(claims, opened),
        n <= opened.len(),
    ensures
        verify::claimed_matrices(claims, n) == commit::flat_matrices(opened.take(n as int)),
    decreases n,
{
    if n > 0 {
        lemma_matrices(claims, opened, (n - 1) as nat);
        assert(opened.take(n as int).drop_last() =~= opened.take(n - 1));
        assert(opened.take(n as int).last() == opened[n - 1]);
        let o = opened[n - 1]@;
        assert(claims_values(claims[n - 1], o));
        lemma_points(claims[n - 1], o, o.len());
        assert(o.take(o.len() as int) =~= o);
    }
}

proof fn lemma_batches(batches: Seq<Vec<MatrixClaim>>, opened: Seq<Vec<Vec<Vec<Ext>>>>, n: nat)
    requires
        batches.len() == opened.len(),
        forall|k: int|
            0 <= k < opened.len() ==> claims_batch((#[trigger] batches[k])@, opened[k]@),
        n <= opened.len(),
    ensures
        verify::claimed_batches(batches, n) == commit::flat_rounds(opened.take(n as int)),
    decreases n,
{
    if n > 0 {
        lemma_batches(batches, opened, (n - 1) as nat);
        assert(opened.take(n as int).drop_last() =~= opened.take(n - 1));
        assert(opened.take(n as int).last() == opened[n - 1]);
        let o = opened[n - 1]@;
        assert(claims_batch(batches[n - 1]@, o));
        lemma_matrices(batches[n - 1]@, o, o.len());
        assert(o.take(o.len() as int) =~= o);
    }
}

/// Where the claims are the opened values, the verifier observes exactly what the prover observed.
pub proof fn law_same_values_observed(
    batches: Seq<Vec<MatrixClaim>>,
    opened: Seq<Vec<Vec<Vec<Ext>>>>,
)
    requires
        batches.len() == opened.len(),
        forall|k: int|
            0 <= k < opened.len() ==> claims_batch((#[trigger] batches[k])@, opened[k]@),
    ensures
        verify::claimed_batches(batches, batches.len()) == commit::flat_rounds(opened),
{
    lemma_batches(batches, opened, opened.len());
    assert(opened.take(opened.len() as int) =~= opened);
}

/// The number of values that the first `n` points of a matrix were opened to.
pub open spec fn count_points(values: Seq<Vec<Ext>>, n: nat) -> nat
    decreases n,
{
    if n == 0 {
        0
    } else {
        count_points(values, (n - 1) as nat) + values[n - 1]@.len()
    }
}

/// The number of values that the first `n` matrices of a round were opened to.
pub open spec fn count_matrices(values: Seq<Vec<Vec<Ext>>>, n: nat) -> nat
    decreases n,
{
    if n == 0 {
        0
    } else {
        count_matrices(values, (n - 1) as nat) + count_points(
            values[n - 1]@,
            values[n - 1]@.len(),
        )
    }
}

/// The number of values that the first `n` rounds were opened to.
pub open spec fn count_rounds(values: Seq<Vec<Vec<Vec<Ext>>>>, n: nat) -> nat
    decreases n,
{
    if n == 0 {
        0
    } else {
        count_rounds(values, (n - 1) as nat) + count_matrices(
            values[n - 1]@,
            values[n - 1]@.len(),
        )
    }
}

proof fn lemma_place_of_point(values: Seq<Vec<Ext>>, p: int, c: int)
    requires
        0 <= p < values.len(),
        0 <= c < values[p]@.len(),
    ensures
        commit::flat_points(values).len() == count_points(values, values.len()),
        count_points(values, p as nat) + c < commit::flat_points(values).len(),
        commit::flat_points(values)[count_points(values, p as nat) + c] == values[p]@[c],
    decreases values.len(),
{
    let init = values.drop_last();
    lemma_flat_points_len(init);
    lemma_count_points(values, init, init.len());
    if p < init.len() {
        lemma_place_of_point(init, p, c);
        lemma_count_points(values, init, p as nat);
    }
}

proof fn lemma_flat_points_len(values: Seq<Vec<Ext>>)
    ensures
        commit::flat_points(values).len() == count_points(values, values.len()),
    decreases values.len(),
{
    if values.len() > 0 {
        let init = values.drop_last();
        lemma_flat_points_len(init);
        lemma_count_points(values, init, init.len());
    }
}

proof fn lemma_count_points(a: Seq<Vec<Ext>>, b: Seq<Vec<Ext>>, n: nat)
    requires
        n <= a.len(),
        n <= b.len(),
        forall|i: int| 0 <= i < n ==> #[trigger] a[i] == b[i],
    ensures
        count_points(a, n) == count_points(b, n),
    decreases n,
{
    if n > 0 {
        lemma_count_points(a, b, (n - 1) as nat);
        assert(a[n - 1] == b[n - 1]);
    }
}

proof fn lemma_flat_matrices_len(values: Seq<Vec<Vec<Ext>>>)
    ensures
        commit::flat_matrices(values).len() == count_matrices(values, values.len()),
    decreases values.len(),
{
    if values.len() > 0 {
        let init = values.drop_last();
        lemma_flat_matrices_len(init);
        lemma_count_matrices(values, init, init.len());
        lemma_flat_points_len(values.last()@);
    }
}

proof fn lemma_count_matrices(a: Seq<Vec<Vec<Ext>>>, b: Seq<Vec<Vec<Ext>>>, n: nat)
    requires
        n <= a.len(),
        n <= b.len(),
        forall|i: int| 0 <= i < n ==> #[trigger] a[i] == b[i],
    ensures
        count_matrices(a, n) == count_matrices(b, n),
    decreases n,
{
    if n > 0 {
        lemma_count_matrices(a, b, (n - 1) as nat);
        assert(a[n - 1] == b[n - 1]);
    }
}

proof fn lemma_place_of_matrix(values: Seq<Vec<Vec<Ext>>>, i: int, p: int, c: int)
    requires
        0 <= i < values.len(),
        0 <= p < values[i]@.len(),
        0 <= c < values[i]@[p]@.len(),
    ensures
        ({
            let at = count_matrices(values, i as nat) + count_points(values[i]@, p as nat) + c;
            at < commit::flat_matrices(values).len() && commit::flat_matrices(values)[at]
                == values[i]@[p]@[c]
        }),
    decreases values.len(),
{
    let init = values.drop_last();
    lemma_flat_matrices_len(init);
    lemma_count_matrices(values, init, init.len());
    if i < init.len() {
        lemma_place_of_matrix(init, i, p, c);
        lemma_count_matrices(values, init, i as nat);
    } else {
        lemma_place_of_point(values.last()@, p, c);
    }
}

proof fn lemma_count_rounds(
    a: Seq<Vec<Vec<Vec<Ext>>>>,
    b: Seq<Vec<Vec<Vec<Ext>>>>,
    n: nat,
)
    requires
        n <= a.len(),
        n <= b.len(),
        forall|i: int| 0 <= i < n ==> #[trigger] a[i] == b[i],
    ensures
        count_rounds(a, n) == count_rounds(b, n),
    decreases n,
{
    if n > 0 {
        lemma_count_rounds(a, b, (n - 1) as nat);
        assert(a[n - 1] == b[n - 1]);
    }
}

proof fn lemma_flat_rounds_len(values: Seq<Vec<Vec<Vec<Ext>>>>)
    ensures
        commit::flat_rounds(values).len() == count_rounds(values, values.len()),
    decreases values.len(),
{
    if values.len() > 0 {
        let init = values.drop_last();
        lemma_flat_rounds_len(init);
        lemma_count_rounds(values, init, init.len());
        lemma_flat_matrices_len(values.last()@);
    }
}

/// Every opened value is observed, and in this order: by round, by matrix, by point and by column.
/// Its place is the number of values before it.
pub proof fn law_every_value_observed(
    opened: Seq<Vec<Vec<Vec<Ext>>>>,
    k: int,
    i: int,
    p: int,
    c: int,
)
    requires
        0 <= k < opened.len(),
        0 <= i < opened[k]@.len(),
        0 <= p < opened[k]@[i]@.len(),
        0 <= c < opened[k]@[i]@[p]@.len(),
    ensures
        commit::flat_rounds(opened).len() == count_rounds(opened, opened.len()),
        ({
            let at = count_rounds(opened, k as nat) + count_matrices(opened[k]@, i as nat)
                + count_points(opened[k]@[i]@, p as nat) + c;
            at < commit::flat_rounds(opened).len() && commit::flat_rounds(opened)[at]
                == opened[k]@[i]@[p]@[c]
        }),
    decreases opened.len(),
{
    let init = opened.drop_last();
    lemma_flat_rounds_len(opened);
    lemma_flat_rounds_len(init);
    lemma_count_rounds(opened, init, init.len());
    if k < init.len() {
        law_every_value_observed(init, k, i, p, c);
        lemma_count_rounds(opened, init, k as nat);
    } else {
        lemma_place_of_matrix(opened.last()@, i, p, c);
    }
}

} // verus!
