//! Verifying an opening. A host checks the rows against the commitments and runs the verifier of the
//! folding; what comes of the two is decided here.

use vstd::prelude::*;
use crate::ext::Ext;
use crate::pcs::TwoAdicFriPcs;
use crate::query;
use crate::query::MatrixClaim;
use crate::reducer;
use crate::babybear::Felt;

verus! {

/// Why an opening is rejected.
#[derive(Debug)]
pub enum VerificationError<InputMmcsError, FriError> {
    /// Rows are not those that were committed.
    InputMmcsError(InputMmcsError),
    /// The folding is wrong.
    FriError(FriError),
}

/// What a query opened: a row of each matrix of each batch, and what checking each batch against
/// its commitment found wrong, if anything.
pub struct QueryOpening<E> {
    pub index: usize,
    pub rows: Vec<Vec<Vec<Felt>>>,
    pub checks: Vec<Option<E>>,
}

/// The first error among the first `n` checks.
pub open spec fn first_error<E>(checks: Seq<Option<E>>, n: nat) -> Option<E>
    decreases n,
{
    if n == 0 {
        None
    } else {
        match first_error(checks, (n - 1) as nat) {
            Some(e) => Some(e),
            None => checks[n - 1],
        }
    }
}

/// The first error among the checks of the first `n` queries.
pub open spec fn first_rejection<E>(queries: Seq<QueryOpening<E>>, n: nat) -> Option<E>
    decreases n,
{
    if n == 0 {
        None
    } else {
        match first_rejection(queries, (n - 1) as nat) {
            Some(e) => Some(e),
            None => first_error(queries[n - 1].checks@, queries[n - 1].checks@.len()),
        }
    }
}

fn take_error<E>(checks: Vec<Option<E>>) -> (r: Option<E>)
    ensures
        r == first_error(checks@, checks@.len()),
{
    let ghost all = checks@;
    let mut left = checks;
    while left.len() > 0
        invariant
            all == checks@,
            left@.len() <= all.len(),
            left@ == all.skip(all.len() - left@.len()),
            first_error(all, (all.len() - left@.len()) as nat) is None,
        decreases left@.len(),
    {
        let ghost i = all.len() - left@.len();
        let check = left.remove(0);
        assert(check == all[i]);
        assert(left@ =~= all.skip(i + 1));
        if check.is_some() {
            proof {
                lemma_error_stays(all, (i + 1) as nat, all.len());
            }
            return check;
        }
    }
    None
}

proof fn lemma_error_stays<E>(checks: Seq<Option<E>>, m: nat, n: nat)
    requires
        m <= n,
        first_error(checks, m) is Some,
    ensures
        first_error(checks, n) == first_error(checks, m),
    decreases n,
{
    if m < n {
        lemma_error_stays(checks, m, (n - 1) as nat);
    }
}

proof fn lemma_rejection_stays<E>(queries: Seq<QueryOpening<E>>, m: nat, n: nat)
    requires
        m <= n,
        first_rejection(queries, m) is Some,
    ensures
        first_rejection(queries, n) == first_rejection(queries, m),
    decreases n,
{
    if m < n {
        lemma_rejection_stays(queries, m, (n - 1) as nat);
    }
}

/// The combination of the rows of a query at height `2^l`.
pub open spec fn reduced_opening<E>(
    query: QueryOpening<E>,
    batches: Seq<Vec<MatrixClaim>>,
    log_blowup: nat,
    log_global: nat,
    alpha: Ext,
) -> Seq<Ext> {
    Seq::new(
        32,
        |l: int|
            query::add_batches(
                l as nat,
                log_blowup,
                batches,
                query.rows@,
                log_global,
                query.index as nat,
                alpha,
                reducer::shorter(batches.len(), query.rows@.len()),
            ).1,
    )
}

/// Whether the rows of a query can be combined.
pub open spec fn combinable<E>(
    query: QueryOpening<E>,
    batches: Seq<Vec<MatrixClaim>>,
    log_blowup: nat,
    log_global: nat,
) -> bool {
    forall|k: int|
        0 <= k < batches.len() && k < query.rows@.len() ==> query::batch_ok(
            (#[trigger] batches[k])@,
            query.rows@[k]@,
            log_blowup,
            log_global,
            query.index as nat,
        )
}

/// What combining the rows of the queries gives: the error of the shape, where there is one; else
/// the first error among the checks, where there is one; else the combinations of every query.
pub open spec fn queries_reduced<I, F>(
    shape: Option<F>,
    batches: Seq<Vec<MatrixClaim>>,
    queries: Seq<QueryOpening<I>>,
    log_blowup: nat,
    log_global: nat,
    alpha: Ext,
    r: Result<Vec<Vec<Ext>>, VerificationError<I, F>>,
) -> bool {
    match (shape, first_rejection(queries, queries.len())) {
        (Some(e), _) => r == Err::<Vec<Vec<Ext>>, VerificationError<I, F>>(
            VerificationError::FriError(e),
        ),
        (None, Some(e)) => r == Err::<Vec<Vec<Ext>>, VerificationError<I, F>>(
            VerificationError::InputMmcsError(e),
        ),
        (None, None) => {
            &&& r is Ok
            &&& r->Ok_0@.len() == queries.len()
            &&& forall|q: int|
                0 <= q < queries.len() ==> (#[trigger] r->Ok_0@[q])@ == reduced_opening(
                    queries[q],
                    batches,
                    log_blowup,
                    log_global,
                    alpha,
                )
        },
    }
}

/// The verdict on an opening: the error of the combinations, where there is one; else that of the
/// folding, where there is one; else none.
pub open spec fn verdict<I, F>(
    reduced_openings: Result<Vec<Vec<Ext>>, VerificationError<I, F>>,
    folding: Option<F>,
) -> Result<(), VerificationError<I, F>> {
    match reduced_openings {
        Err(e) => Err(e),
        Ok(_) => match folding {
            Some(e) => Err(VerificationError::FriError(e)),
            None => Ok(()),
        },
    }
}

impl TwoAdicFriPcs {
    /// Combines the rows of every query, unless the shape of the proof is wrong or some rows are
    /// not those that were committed; the first error counts.
    pub fn verify_queries<I, F>(
        &self,
        shape: Option<F>,
        batches: &Vec<Vec<MatrixClaim>>,
        queries: Vec<QueryOpening<I>>,
        num_commits: usize,
        alpha: Ext,
    ) -> (r: Result<Vec<Vec<Ext>>, VerificationError<I, F>>)
        requires
            num_commits + self.fri.log_blowup < usize::BITS,
            shape is None ==> forall|q: int|
                0 <= q < queries@.len() && first_rejection(queries@, (q + 1) as nat) is None
                    ==> combinable(
                    #[trigger] queries@[q],
                    batches@,
                    self.fri.log_blowup as nat,
                    (num_commits + self.fri.log_blowup) as nat,
                ),
        ensures
            queries_reduced(
                shape,
                batches@,
                queries@,
                self.fri.log_blowup as nat,
                (num_commits + self.fri.log_blowup) as nat,
                alpha,
                r,
            ),
    {
        match shape {
            Some(e) => {
                return Err(VerificationError::FriError(e));
            },
            None => {},
        }
        let log_global: usize = num_commits + self.fri.log_blowup;
        let ghost all = queries@;
        let mut left = queries;
        let mut r: Vec<Vec<Ext>> = Vec::new();
        while left.len() > 0
            invariant
                all == queries@,
                shape is None,
                left@.len() <= all.len(),
                left@ == all.skip(all.len() - left@.len()),
                log_global == num_commits + self.fri.log_blowup,
                log_global < usize::BITS,
                first_rejection(all, (all.len() - left@.len()) as nat) is None,
                forall|q: int|
                    0 <= q < all.len() && first_rejection(all, (q + 1) as nat) is None
                        ==> combinable(
                        #[trigger] all[q],
                        batches@,
                        self.fri.log_blowup as nat,
                        log_global as nat,
                    ),
                r@.len() == all.len() - left@.len(),
                forall|q: int|
                    0 <= q < r@.len() ==> (#[trigger] r@[q])@ == reduced_opening(
                        all[q],
                        batches@,
                        self.fri.log_blowup as nat,
                        log_global as nat,
                        alpha,
                    ),
            decreases left@.len(),
        {
            let ghost i = all.len() - left@.len();
            let query = left.remove(0);
            assert(query == all[i]);
            assert(left@ =~= all.skip(i + 1));
            let QueryOpening { index, rows, checks } = query;
            match take_error(checks) {
                Some(e) => {
                    proof {
                        lemma_rejection_stays(all, (i + 1) as nat, all.len());
                    }
                    return Err(VerificationError::InputMmcsError(e));
                },
                None => {},
            }
            assert(combinable(
                all[i],
                batches@,
                self.fri.log_blowup as nat,
                log_global as nat,
            ));
            let ro = self.verify_query(batches, &rows, log_global, index, alpha);
            r.push(ro);
        }
        Ok(r)
    }

    /// Whether the rows of a query can be combined: the heights are within the largest, and no
    /// claimed point is the queried point.
    pub fn is_combinable<I>(
        &self,
        query: &QueryOpening<I>,
        batches: &Vec<Vec<MatrixClaim>>,
        num_commits: usize,
    ) -> (r: bool)
        requires
            num_commits + self.fri.log_blowup < usize::BITS,
        ensures
            r == combinable(
                *query,
                batches@,
                self.fri.log_blowup as nat,
                (num_commits + self.fri.log_blowup) as nat,
            ),
    {
        let log_global: usize = num_commits + self.fri.log_blowup;
        let mut k: usize = 0;
        while k < batches.len() && k < query.rows.len()
            invariant
                k <= batches@.len(),
                k <= query.rows@.len(),
                log_global == num_commits + self.fri.log_blowup,
                log_global < usize::BITS,
                forall|e: int|
                    0 <= e < k ==> query::batch_ok(
                        (#[trigger] batches@[e])@,
                        query.rows@[e]@,
                        self.fri.log_blowup as nat,
                        log_global as nat,
                        query.index as nat,
                    ),
            decreases batches@.len() - k,
        {
            if !query::is_batch_ok(
                &batches[k],
                &query.rows[k],
                self.fri.log_blowup,
                log_global,
                query.index,
            ) {
                assert(!query::batch_ok(
                    batches@[k as int]@,
                    query.rows@[k as int]@,
                    self.fri.log_blowup as nat,
                    log_global as nat,
                    query.index as nat,
                ));
                return false;
            }
            k = k + 1;
        }
        true
    }

    /// The verdict on an opening, given what the verifier of the folding found wrong with the
    /// combinations, if anything: the opening is accepted exactly when nothing is wrong.
    pub fn verify<I, F>(
        &self,
        reduced_openings: Result<Vec<Vec<Ext>>, VerificationError<I, F>>,
        folding: Option<F>,
    ) -> (r: Result<(), VerificationError<I, F>>)
        ensures
            r == verdict(reduced_openings, folding),
    {
        match reduced_openings {
            Err(e) => Err(e),
            Ok(_) => match folding {
                Some(e) => Err(VerificationError::FriError(e)),
                None => Ok(()),
            },
        }
    }
}

/// The claimed values of one matrix, one point after the other.
pub open spec fn claimed_points(points: Seq<(Ext, Vec<Ext>)>, n: nat) -> Seq<Ext>
    decreases n,
{
    if n == 0 {
        Seq::empty()
    } else {
        claimed_points(points, (n - 1) as nat) + points[n - 1].1@
    }
}

/// The claimed values of the first `n` matrices of a batch.
pub open spec fn claimed_matrices(mats: Seq<MatrixClaim>, n: nat) -> Seq<Ext>
    decreases n,
{
    if n == 0 {
        Seq::empty()
    } else {
        claimed_matrices(mats, (n - 1) as nat) + claimed_points(
            mats[n - 1].points@,
            mats[n - 1].points@.len(),
        )
    }
}

/// The claimed values of the first `n` batches.
pub open spec fn claimed_batches(batches: Seq<Vec<MatrixClaim>>, n: nat) -> Seq<Ext>
    decreases n,
{
    if n == 0 {
        Seq::empty()
    } else {
        claimed_batches(batches, (n - 1) as nat) + claimed_matrices(
            batches[n - 1]@,
            batches[n - 1]@.len(),
        )
    }
}

fn append_claims(out: &mut Vec<Ext>, mat: &MatrixClaim)
    ensures
        final(out)@ == old(out)@ + claimed_points(mat.points@, mat.points@.len()),
{
    let mut p: usize = 0;
    assert(out@ =~= old(out)@ + claimed_points(mat.points@, 0));
    while p < mat.points.len()
        invariant
            p <= mat.points@.len(),
            out@ == old(out)@ + claimed_points(mat.points@, p as nat),
        decreases mat.points@.len() - p,
    {
        let ghost before = out@;
        let ys: &Vec<Ext> = &mat.points[p].1;
        let mut c: usize = 0;
        assert(out@ =~= before + ys@.take(0));
        while c < ys.len()
            invariant
                c <= ys@.len(),
                out@ == before + ys@.take(c as int),
            decreases ys@.len() - c,
        {
            out.push(ys[c]);
            c = c + 1;
            assert(out@ =~= before + ys@.take(c as int));
        }
        assert(ys@.take(c as int) =~= ys@);
        p = p + 1;
        assert(out@ =~= old(out)@ + claimed_points(mat.points@, p as nat));
    }
}

/// The claimed values in the order in which the verifier observes them.
pub fn observed_claims(batches: &Vec<Vec<MatrixClaim>>) -> (r: Vec<Ext>)
    ensures
        r@ == claimed_batches(batches@, batches@.len()),
{
    let mut r: Vec<Ext> = Vec::new();
    let mut k: usize = 0;
    while k < batches.len()
        invariant
            k <= batches@.len(),
            r@ == claimed_batches(batches@, k as nat),
        decreases batches@.len() - k,
    {
        let ghost before = r@;
        let mats: &Vec<MatrixClaim> = &batches[k];
        let mut i: usize = 0;
        assert(r@ =~= before + claimed_matrices(mats@, 0));
        while i < mats.len()
            invariant
                i <= mats@.len(),
                r@ == before + claimed_matrices(mats@, i as nat),
            decreases mats@.len() - i,
        {
            append_claims(&mut r, &mats[i]);
            i = i + 1;
            assert(r@ =~= before + claimed_matrices(mats@, i as nat));
        }
        k = k + 1;
    }
    r
}

/// The first error among checks is that of a check before which none failed; there is none exactly if
/// no check failed.
pub proof fn law_first_error<E>(checks: Seq<Option<E>>, n: nat) -> (i: int)
    requires
        n <= checks.len(),
    ensures
        first_error(checks, n) is None <==> forall|k: int|
            0 <= k < n ==> (#[trigger] checks[k]) is None,
        first_error(checks, n) is Some ==> {
            &&& 0 <= i < n
            &&& checks[i] == first_error(checks, n)
            &&& forall|k: int| 0 <= k < i ==> (#[trigger] checks[k]) is None
        },
    decreases n,
{
    if n == 0 {
        0
    } else {
        let i = law_first_error(checks, (n - 1) as nat);
        if first_error(checks, (n - 1) as nat) is Some {
            assert(checks[i] is Some);
            i
        } else {
            n - 1
        }
    }
}

/// The error that rejects an opening is the first error of the first query that has one: no check of
/// an earlier query failed, nor an earlier one of that query. There is none exactly if no check of any
/// query failed.
pub proof fn law_first_rejection<E>(queries: Seq<QueryOpening<E>>, n: nat) -> (p: (int, int))
    requires
        n <= queries.len(),
    ensures
        first_rejection(queries, n) is None <==> forall|q: int, k: int|
            0 <= q < n && 0 <= k < queries[q].checks@.len() ==> (
            #[trigger] queries[q].checks@[k]) is None,
        first_rejection(queries, n) is Some ==> {
            &&& 0 <= p.0 < n
            &&& 0 <= p.1 < queries[p.0].checks@.len()
            &&& queries[p.0].checks@[p.1] == first_rejection(queries, n)
            &&& forall|q: int, k: int|
                0 <= q < p.0 && 0 <= k < queries[q].checks@.len() ==> (
                #[trigger] queries[q].checks@[k]) is None
            &&& forall|k: int| 0 <= k < p.1 ==> (#[trigger] queries[p.0].checks@[k]) is None
        },
    decreases n,
{
    if n == 0 {
        (0, 0)
    } else {
        let m = (n - 1) as nat;
        let p = law_first_rejection(queries, m);
        let checks = queries[n - 1].checks@;
        let i = law_first_error(checks, checks.len());
        if first_rejection(queries, m) is Some {
            assert(queries[p.0].checks@[p.1] is Some);
            p
        } else {
            if first_error(checks, checks.len()) is Some {
                assert(queries[n - 1].checks@[i] is Some);
            }
            assert forall|q: int, k: int|
                0 <= q < n && 0 <= k < queries[q].checks@.len() && first_rejection(queries, n)
                    is None implies (#[trigger] queries[q].checks@[k]) is None by {
                if q == n - 1 {
                    assert(checks[k] is None);
                }
            }
            (n - 1, i)
        }
    }
}

/// Whether no check before check `k` of query `q` failed.
pub open spec fn is_first<E>(queries: Seq<QueryOpening<E>>, q: int, k: int) -> bool {
    &&& forall|p: int, j: int|
        0 <= p < q && 0 <= j < queries[p].checks@.len() ==> (#[trigger] queries[p].checks@[j]) is None
    &&& forall|j: int| 0 <= j < k ==> (#[trigger] queries[q].checks@[j]) is None
}

/// An opening is accepted exactly if the shape of its proof is right, every row of every query was
/// found to be committed, and the folding was found right. What it is rejected for is, in this order,
/// the shape, the first row that was not, or the folding.
pub proof fn law_accepted_if_nothing_is_wrong<I, F>(
    shape: Option<F>,
    batches: Seq<Vec<MatrixClaim>>,
    queries: Seq<QueryOpening<I>>,
    log_blowup: nat,
    log_global: nat,
    alpha: Ext,
    reduced: Result<Vec<Vec<Ext>>, VerificationError<I, F>>,
    folding: Option<F>,
)
    requires
        queries_reduced(shape, batches, queries, log_blowup, log_global, alpha, reduced),
    ensures
        verdict(reduced, folding) is Ok <==> shape is None && folding is None && (forall|
            q: int,
            k: int,
        |
            0 <= q < queries.len() && 0 <= k < queries[q].checks@.len() ==> (
            #[trigger] queries[q].checks@[k]) is None),
        shape matches Some(e) ==> verdict(reduced, folding) == Err::<
            (),
            VerificationError<I, F>,
        >(VerificationError::FriError(e)),
        forall|q: int, k: int|
            shape is None && 0 <= q < queries.len() && 0 <= k < queries[q].checks@.len() && (
            #[trigger] queries[q].checks@[k]) is Some && is_first(queries, q, k) ==> verdict(
                reduced,
                folding,
            ) == Err::<(), VerificationError<I, F>>(
                VerificationError::InputMmcsError(queries[q].checks@[k]->0),
            ),
        shape is None && folding is Some && (forall|q: int, k: int|
            0 <= q < queries.len() && 0 <= k < queries[q].checks@.len() ==> (
            #[trigger] queries[q].checks@[k]) is None) ==> verdict(reduced, folding) == Err::<
            (),
            VerificationError<I, F>,
        >(VerificationError::FriError(folding->0)),
{
    let p = law_first_rejection(queries, queries.len());
    assert forall|q: int, k: int|
        shape is None && 0 <= q < queries.len() && 0 <= k < queries[q].checks@.len() && (
        #[trigger] queries[q].checks@[k]) is Some && is_first(queries, q, k) implies first_rejection(
        queries,
        queries.len(),
    ) == queries[q].checks@[k] by {
        assert(queries[p.0].checks@[p.1] is Some);
        if p.0 < q {
            assert(queries[p.0].checks@[p.1] is None);
        }
        if p.0 == q && p.1 < k {
            assert(queries[q].checks@[p.1] is None);
        }
    }
}

} // verus!
