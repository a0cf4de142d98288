//! The queried rows of an opening, as the prover hands them out and as the verifier reads them.

use vstd::prelude::*;
use vstd::arithmetic::power2::*;
use vstd::arithmetic::div_mod::*;
use crate::babybear::Felt;
use crate::bits;
use crate::denominators;
use crate::domain::TwoAdic;
use crate::ext;
use crate::ext::Ext;
use crate::field;
use crate::field::Field;
use crate::lde;
use crate::lde::Coset;
use crate::matrix::{Dimensions, Matrix};
use crate::pcs;
use crate::pcs::{Opening, TwoAdicFriPcs};
use crate::reducer;
use crate::reduction;
use crate::ring;
use crate::ring::Ring;

verus! {

/// What is claimed of one committed matrix: its domain, and the values at each opening point.
pub struct MatrixClaim {
    pub domain: Coset,
    pub points: Vec<(Ext, Vec<Ext>)>,
}

/// A query's opening of one batch: a row of each matrix, with the proof that they are committed.
pub struct BatchOpening<Proof> {
    pub opened_values: Vec<Vec<Felt>>,
    pub opening_proof: Proof,
}

/// The proof of an opening.
pub struct TwoAdicFriPcsProof<FriProof, Proof> {
    pub fri_proof: FriProof,
    /// For each query, the openings of each batch.
    pub query_openings: Vec<Vec<BatchOpening<Proof>>>,
}

/// The running power of `alpha` and the running combination.
pub type Running = (Ext, Ext);

/// `(p - y) / (x - z)`.
pub open spec fn quotient(p: Felt, y: Ext, x: Felt, z: Ext) -> Ext {
    ring::minus(ext::embed(p), y).times(ring::inv(ring::minus(ext::embed(x), z)))
}

/// The combination with the first `n` columns of a row added.
pub open spec fn add_columns(
    s: Running,
    row: Seq<Felt>,
    ys: Seq<Ext>,
    x: Felt,
    z: Ext,
    alpha: Ext,
    n: nat,
) -> Running
    decreases n,
{
    if n == 0 {
        s
    } else {
        let t = add_columns(s, row, ys, x, z, alpha, (n - 1) as nat);
        (t.0.times(alpha), t.1.plus(t.0.times(quotient(row[n - 1], ys[n - 1], x, z))))
    }
}

/// The combination with the first `n` points of a matrix added.
pub open spec fn add_claims(
    s: Running,
    row: Seq<Felt>,
    points: Seq<(Ext, Vec<Ext>)>,
    x: Felt,
    alpha: Ext,
    n: nat,
) -> Running
    decreases n,
{
    if n == 0 {
        s
    } else {
        let t = add_claims(s, row, points, x, alpha, (n - 1) as nat);
        let (z, ys) = (points[n - 1].0, points[n - 1].1@);
        add_columns(t, row, ys, x, z, alpha, reducer::shorter(row.len(), ys.len()))
    }
}

/// The queried point of a matrix of height `2^log_height`, where the query is `index` among
/// `2^log_global` rows.
pub open spec fn queried_point(log_height: nat, log_global: nat, index: nat) -> Felt {
    denominators::reversed_point(
        lde::generator(),
        log_height,
        index / pow2((log_global - log_height) as nat),
    )
}

/// The combination at height `2^log_height` with the first `n` matrices of a batch added.
pub open spec fn add_batch(
    s: Running,
    log_height: nat,
    log_blowup: nat,
    mats: Seq<MatrixClaim>,
    rows: Seq<Vec<Felt>>,
    log_global: nat,
    index: nat,
    alpha: Ext,
    n: nat,
) -> Running
    decreases n,
{
    if n == 0 {
        s
    } else {
        let t = add_batch(s, log_height, log_blowup, mats, rows, log_global, index, alpha, (n - 1) as nat);
        if mats[n - 1].domain.log_n + log_blowup == log_height {
            add_claims(
                t,
                rows[n - 1]@,
                mats[n - 1].points@,
                queried_point(log_height, log_global, index),
                alpha,
                mats[n - 1].points@.len(),
            )
        } else {
            t
        }
    }
}

/// The combination at height `2^log_height` of the first `n` batches.
pub open spec fn add_batches(
    log_height: nat,
    log_blowup: nat,
    batches: Seq<Vec<MatrixClaim>>,
    rows: Seq<Vec<Vec<Felt>>>,
    log_global: nat,
    index: nat,
    alpha: Ext,
    n: nat,
) -> Running
    decreases n,
{
    if n == 0 {
        (Ext::one_spec(), Ext::zero_spec())
    } else {
        add_batch(
            add_batches(log_height, log_blowup, batches, rows, log_global, index, alpha, (n - 1) as nat),
            log_height,
            log_blowup,
            batches[n - 1]@,
            rows[n - 1]@,
            log_global,
            index,
            alpha,
            reducer::shorter(batches[n - 1]@.len(), rows[n - 1]@.len()),
        )
    }
}

/// The heights are within the largest, and no claimed point is the queried point.
pub open spec fn batch_ok(
    mats: Seq<MatrixClaim>,
    rows: Seq<Vec<Felt>>,
    log_blowup: nat,
    log_global: nat,
    index: nat,
) -> bool {
    forall|i: int|
        0 <= i < mats.len() && i < rows.len() ==> {
            let log_height = (#[trigger] mats[i]).domain.log_n + log_blowup;
            &&& log_height <= log_global
            &&& log_height <= 27
            &&& forall|p: int|
                0 <= p < mats[i].points@.len() ==> ring::minus(
                    ext::embed(queried_point(log_height as nat, log_global, index)),
                    (#[trigger] mats[i].points@[p]).0,
                ) != Ext::zero_spec()
        }
}

/// `index >> bits`.
fn shift_right(index: usize, bits: usize) -> (r: usize)
    requires
        bits < usize::BITS,
    ensures
        r == index as nat / pow2(bits as nat),
{
    proof {
        vstd::bits::lemma_usize_shr_is_div(index, bits);
    }
    index >> bits
}

fn add_row(
    alpha_pow: Ext,
    ro: Ext,
    row: &Vec<Felt>,
    ys: &Vec<Ext>,
    x: Felt,
    z: Ext,
    alpha: Ext,
) -> (r: (Ext, Ext))
    requires
        ring::minus(ext::embed(x), z) != Ext::zero_spec(),
    ensures
        (r.0, r.1) == add_columns(
            (alpha_pow, ro),
            row@,
            ys@,
            x,
            z,
            alpha,
            reducer::shorter(row@.len(), ys@.len()),
        ),
{
    let distance: Ext = Ext::from_base(x).sub(z);
    proof {
        ring::lemma_add_reduced(ext::embed(x), z.negated());
    }
    let inverse: Ext = distance.inverse();
    proof {
        ring::lemma_inv(distance, inverse);
    }
    let mut power: Ext = alpha_pow;
    let mut total: Ext = ro;
    let mut c: usize = 0;
    while c < row.len() && c < ys.len()
        invariant
            c <= reducer::shorter(row@.len(), ys@.len()),
            inverse == ring::inv(ring::minus(ext::embed(x), z)),
            (power, total) == add_columns((alpha_pow, ro), row@, ys@, x, z, alpha, c as nat),
        decreases row@.len() - c,
    {
        let q: Ext = Ext::from_base(row[c]).sub(ys[c]).mul(inverse);
        total = total.add(power.mul(q));
        power = power.mul(alpha);
        c = c + 1;
    }
    (power, total)
}

/// The running powers and combinations, at each height.
struct Runnings {
    alpha_pow: Vec<Ext>,
    ro: Vec<Ext>,
}

impl Runnings {
    spec fn state(&self, l: nat) -> Running {
        (self.alpha_pow@[l as int], self.ro@[l as int])
    }

    fn new() -> (r: Self)
        ensures
            r.alpha_pow@.len() == 32,
            r.ro@.len() == 32,
            forall|l: nat| l < 32 ==> #[trigger] r.state(l) == (Ext::one_spec(), Ext::zero_spec()),
    {
        let mut alpha_pow: Vec<Ext> = Vec::new();
        let mut ro: Vec<Ext> = Vec::new();
        let mut l: usize = 0;
        while l < 32
            invariant
                l <= 32,
                alpha_pow@.len() == l,
                ro@.len() == l,
                forall|k: int| 0 <= k < l ==> #[trigger] alpha_pow@[k] == Ext::one_spec(),
                forall|k: int| 0 <= k < l ==> #[trigger] ro@[k] == Ext::zero_spec(),
            decreases 32 - l,
        {
            alpha_pow.push(Ext::one());
            ro.push(Ext::zero());
            l = l + 1;
        }
        Runnings { alpha_pow, ro }
    }

    /// Adds the claims on one matrix.
    fn add_matrix(&mut self, claim: &MatrixClaim, row: &Vec<Felt>, l: usize, x: Felt, alpha: Ext)
        requires
            old(self).alpha_pow@.len() == 32,
            old(self).ro@.len() == 32,
            l < 32,
            forall|p: int|
                0 <= p < claim.points@.len() ==> ring::minus(
                    ext::embed(x),
                    (#[trigger] claim.points@[p]).0,
                ) != Ext::zero_spec(),
        ensures
            final(self).alpha_pow@.len() == 32,
            final(self).ro@.len() == 32,
            forall|m: nat|
                m < 32 ==> #[trigger] final(self).state(m) == if m == l {
                    add_claims(
                        old(self).state(m),
                        row@,
                        claim.points@,
                        x,
                        alpha,
                        claim.points@.len(),
                    )
                } else {
                    old(self).state(m)
                },
    {
        let mut power: Ext = self.alpha_pow[l];
        let mut total: Ext = self.ro[l];
        let ghost start = (power, total);
        let mut p: usize = 0;
        while p < claim.points.len()
            invariant
                p <= claim.points@.len(),
                forall|p: int|
                    0 <= p < claim.points@.len() ==> ring::minus(
                        ext::embed(x),
                        (#[trigger] claim.points@[p]).0,
                    ) != Ext::zero_spec(),
                (power, total) == add_claims(start, row@, claim.points@, x, alpha, p as nat),
            decreases claim.points@.len() - p,
        {
            let (next_power, next_total) = add_row(
                power,
                total,
                row,
                &claim.points[p].1,
                x,
                claim.points[p].0,
                alpha,
            );
            power = next_power;
            total = next_total;
            p = p + 1;
        }
        self.alpha_pow.set(l, power);
        self.ro.set(l, total);
    }
}

/// The point of the commitment's coset that a query reads.
fn query_point(log_height: usize, log_global: usize, index: usize) -> (r: Felt)
    requires
        log_height <= log_global < usize::BITS,
        log_height <= 27,
    ensures
        r == queried_point(log_height as nat, log_global as nat, index as nat),
{
    let reduced: usize = shift_right(index, log_global - log_height);
    let reversed: usize = if log_height == 0 {
        0
    } else {
        p3_util::reverse_bits_len(reduced, log_height)
    };
    let power: Felt = field::exp_u64(Felt::two_adic_generator(log_height), reversed as u64);
    proof {
        Felt::law_mul_comm(lde::generator(), power);
    }
    Felt { value: 31 }.mul(power)
}

/// Whether no claimed point is `x`.
fn points_differ(points: &Vec<(Ext, Vec<Ext>)>, x: Felt) -> (r: bool)
    ensures
        r == forall|p: int|
            0 <= p < points@.len() ==> ring::minus(ext::embed(x), (#[trigger] points@[p]).0)
                != Ext::zero_spec(),
{
    let mut p: usize = 0;
    while p < points.len()
        invariant
            p <= points@.len(),
            forall|e: int|
                0 <= e < p ==> ring::minus(ext::embed(x), (#[trigger] points@[e]).0)
                    != Ext::zero_spec(),
        decreases points@.len() - p,
    {
        let distance: Ext = Ext::from_base(x).sub(points[p].0);
        proof {
            ring::lemma_add_reduced(ext::embed(x), points@[p as int].0.negated());
        }
        if distance.equals(Ext::zero()) {
            assert(ring::minus(ext::embed(x), points@[p as int].0) == Ext::zero_spec());
            return false;
        }
        p = p + 1;
    }
    true
}

/// Whether the rows of a batch can be combined.
pub fn is_batch_ok(
    mats: &Vec<MatrixClaim>,
    rows: &Vec<Vec<Felt>>,
    log_blowup: usize,
    log_global: usize,
    index: usize,
) -> (r: bool)
    requires
        log_global < usize::BITS,
    ensures
        r == batch_ok(
            mats@,
            rows@,
            log_blowup as nat,
            log_global as nat,
            index as nat,
        ),
{
    let mut i: usize = 0;
    while i < mats.len() && i < rows.len()
        invariant
            i <= mats@.len(),
            i <= rows@.len(),
            log_global < usize::BITS,
            forall|e: int|
                0 <= e < i ==> {
                    let log_height = (#[trigger] mats@[e]).domain.log_n + log_blowup;
                    &&& log_height <= log_global
                    &&& log_height <= 27
                    &&& forall|p: int|
                        0 <= p < mats@[e].points@.len() ==> ring::minus(
                            ext::embed(
                                queried_point(log_height as nat, log_global as nat, index as nat),
                            ),
                            (#[trigger] mats@[e].points@[p]).0,
                        ) != Ext::zero_spec()
                },
        decreases mats@.len() - i,
    {
        let log_n: usize = mats[i].domain.log_n;
        if log_n > log_global || log_blowup > log_global - log_n || log_n + log_blowup > 27 {
            assert(!(mats@[i as int].domain.log_n + log_blowup <= log_global
                && mats@[i as int].domain.log_n + log_blowup <= 27));
            return false;
        }
        let x: Felt = query_point(log_n + log_blowup, log_global, index);
        if !points_differ(&mats[i].points, x) {
            assert(mats@[i as int].domain.log_n + log_blowup == log_n + log_blowup);
            return false;
        }
        i = i + 1;
    }
    true
}

impl TwoAdicFriPcs {
    /// What a query asks of one batch: the sizes of its matrices and the index of the row that is
    /// read from the highest of them.
    pub fn batch_query(&self, domains: &Vec<Coset>, log_global: usize, index: usize) -> (r: (
        Vec<Dimensions>,
        usize,
    ))
        requires
            domains@.len() > 0,
            log_global < usize::BITS,
            forall|i: int|
                0 <= i < domains@.len() ==> (#[trigger] domains@[i]).log_n + self.fri.log_blowup
                    <= log_global,
        ensures
            r.0@.len() == domains@.len(),
            forall|i: int|
                0 <= i < domains@.len() ==> (#[trigger] r.0@[i]).width == 0 && r.0@[i].height == pow2(
                    domains@[i].log_n as nat + self.fri.log_blowup as nat,
                ),
            exists|i: int|
                0 <= i < domains@.len() && r.1 == index as nat / pow2(
                    (log_global - ((#[trigger] domains@[i]).log_n + self.fri.log_blowup)) as nat,
                ) && forall|e: int|
                    0 <= e < domains@.len() ==> (#[trigger] domains@[e]).log_n
                        <= domains@[i].log_n,
    {
        let mut dims: Vec<Dimensions> = Vec::new();
        let mut max: usize = domains[0].log_n;
        let ghost mut at: int = 0;
        let mut i: usize = 0;
        while i < domains.len()
            invariant
                i <= domains@.len(),
                log_global < usize::BITS,
                forall|i: int|
                    0 <= i < domains@.len() ==> (#[trigger] domains@[i]).log_n
                        + self.fri.log_blowup <= log_global,
                dims@.len() == i,
                forall|e: int|
                    0 <= e < i ==> (#[trigger] dims@[e]).width == 0 && dims@[e].height == pow2(
                        domains@[e].log_n as nat + self.fri.log_blowup as nat,
                    ),
                0 <= at < domains@.len(),
                max == domains@[at].log_n,
                forall|e: int| 0 <= e < i ==> (#[trigger] domains@[e]).log_n <= max,
            decreases domains@.len() - i,
        {
            assert(domains@[i as int].log_n + self.fri.log_blowup <= log_global);
            let log_height: usize = domains[i].log_n + self.fri.log_blowup;
            proof {
                bits::lemma_pow2_fits(log_height as nat);
                vstd::bits::lemma_usize_shl_is_mul(1, log_height);
            }
            dims.push(Dimensions { width: 0, height: 1usize << log_height });
            if domains[i].log_n > max {
                max = domains[i].log_n;
                proof {
                    at = i as int;
                }
            }
            i = i + 1;
        }
        assert(domains@[at].log_n + self.fri.log_blowup <= log_global);
        let reduced_index: usize = shift_right(index, log_global - (max + self.fri.log_blowup));
        (dims, reduced_index)
    }

    /// The verifier's combination of the opened rows of one query, at each height.
    pub fn verify_query(
        &self,
        batches: &Vec<Vec<MatrixClaim>>,
        rows: &Vec<Vec<Vec<Felt>>>,
        log_global: usize,
        index: usize,
        alpha: Ext,
    ) -> (r: Vec<Ext>)
        requires
            log_global < usize::BITS,
            forall|k: int|
                0 <= k < batches@.len() && k < rows@.len() ==> batch_ok(
                    (#[trigger] batches@[k])@,
                    rows@[k]@,
                    self.fri.log_blowup as nat,
                    log_global as nat,
                    index as nat,
                ),
        ensures
            r@ == Seq::new(
                32,
                |l: int|
                    add_batches(
                        l as nat,
                        self.fri.log_blowup as nat,
                        batches@,
                        rows@,
                        log_global as nat,
                        index as nat,
                        alpha,
                        reducer::shorter(batches@.len(), rows@.len()),
                    ).1,
            ),
    {
        let ghost log_blowup = self.fri.log_blowup as nat;
        let ghost g = log_global as nat;
        let ghost ix = index as nat;
        let mut acc: Runnings = Runnings::new();
        let mut k: usize = 0;
        while k < batches.len() && k < rows.len()
            invariant
                k <= reducer::shorter(batches@.len(), rows@.len()),
                log_global < usize::BITS,
                log_blowup == self.fri.log_blowup as nat,
                g == log_global as nat,
                ix == index as nat,
                forall|k: int|
                    0 <= k < batches@.len() && k < rows@.len() ==> batch_ok(
                        (#[trigger] batches@[k])@,
                        rows@[k]@,
                        log_blowup,
                        g,
                        ix,
                    ),
                acc.alpha_pow@.len() == 32,
                acc.ro@.len() == 32,
                forall|l: nat|
                    l < 32 ==> #[trigger] acc.state(l) == add_batches(
                        l,
                        log_blowup,
                        batches@,
                        rows@,
                        g,
                        ix,
                        alpha,
                        k as nat,
                    ),
            decreases batches@.len() - k,
        {
            let mats: &Vec<MatrixClaim> = &batches[k];
            let batch_rows: &Vec<Vec<Felt>> = &rows[k];
            let ghost start = acc;
            let mut i: usize = 0;
            while i < mats.len() && i < batch_rows.len()
                invariant
                    i <= reducer::shorter(mats@.len(), batch_rows@.len()),
                    log_global < usize::BITS,
                    log_blowup == self.fri.log_blowup as nat,
                    g == log_global as nat,
                    ix == index as nat,
                    batch_ok(mats@, batch_rows@, log_blowup, g, ix),
                    acc.alpha_pow@.len() == 32,
                    acc.ro@.len() == 32,
                    forall|l: nat|
                        l < 32 ==> #[trigger] acc.state(l) == add_batch(
                            start.state(l),
                            l,
                            log_blowup,
                            mats@,
                            batch_rows@,
                            g,
                            ix,
                            alpha,
                            i as nat,
                        ),
                decreases mats@.len() - i,
            {
                assert(mats@[i as int].domain.log_n + log_blowup <= 27);
                let log_height: usize = mats[i].domain.log_n + self.fri.log_blowup;
                let x: Felt = query_point(log_height, log_global, index);
                let ghost before = acc;
                acc.add_matrix(&mats[i], &batch_rows[i], log_height, x, alpha);
                assert forall|l: nat| l < 32 implies #[trigger] acc.state(l) == add_batch(
                    start.state(l),
                    l,
                    log_blowup,
                    mats@,
                    batch_rows@,
                    g,
                    ix,
                    alpha,
                    (i + 1) as nat,
                ) by {
                    assert(before.state(l) == add_batch(
                        start.state(l),
                        l,
                        log_blowup,
                        mats@,
                        batch_rows@,
                        g,
                        ix,
                        alpha,
                        i as nat,
                    ));
                }
                i = i + 1;
            }
            k = k + 1;
        }
        assert forall|l: int| 0 <= l < 32 implies #[trigger] acc.ro@[l] == add_batches(
            l as nat,
            log_blowup,
            batches@,
            rows@,
            g,
            ix,
            alpha,
            reducer::shorter(batches@.len(), rows@.len()),
        ).1 by {
            assert(acc.state(l as nat).1 == acc.ro@[l]);
        }
        assert(acc.ro@ =~= Seq::new(
            32,
            |l: int|
                add_batches(
                    l as nat,
                    log_blowup,
                    batches@,
                    rows@,
                    g,
                    ix,
                    alpha,
                    reducer::shorter(batches@.len(), rows@.len()),
                ).1,
        ));
        acc.ro
    }
}

/// Column by column, a row adds the same as its combined entries and values do at once.
proof fn lemma_columns(s: Running, row: Seq<Felt>, ys: Seq<Ext>, x: Felt, z: Ext, alpha: Ext, n: nat)
    requires
        ring::reduced(s.0) == s.0,
        ring::reduced(s.1) == s.1,
    ensures
        add_columns(s, row, ys, x, z, alpha, n).0 == s.0.times(ring::pow(alpha, n)),
        add_columns(s, row, ys, x, z, alpha, n).1 == s.1.plus(
            ring::inv(ring::minus(ext::embed(x), z)).times(s.0).times(
                ring::minus(
                    ring::sum(n, |c: int| ring::pow(alpha, c as nat).times(ext::embed(row[c]))),
                    ring::sum(n, |c: int| ring::pow(alpha, c as nat).times(ys[c])),
                ),
            ),
        ),
    decreases n,
{
    let f = |c: int| ring::pow(alpha, c as nat).times(ext::embed(row[c]));
    let g = |c: int| ring::pow(alpha, c as nat).times(ys[c]);
    let inv = ring::inv(ring::minus(ext::embed(x), z));
    let u = inv.times(s.0);
    if n == 0 {
        ring::lemma_mul_one(s.0);
        ring::lemma_sub_self(Ext::zero_spec());
        ring::lemma_mul_zero(u);
    } else {
        let k = (n - 1) as nat;
        lemma_columns(s, row, ys, x, z, alpha, k);
        let ak = ring::pow(alpha, k);
        Ext::law_mul_assoc(s.0, ak, alpha);
        let (sf, sg) = (ring::sum(k, f), ring::sum(k, g));
        let d = ring::minus(ext::embed(row[n - 1]), ys[n - 1]);
        // the new column's share
        let share = s.0.times(ak).times(d.times(inv));
        assert(share == u.times(ring::minus(f(n - 1), g(n - 1)))) by {
            ring::lemma_mul_sub(ak, ext::embed(row[n - 1]), ys[n - 1]);
            Ext::law_mul_comm(d, inv);
            ring::lemma_mul_swap(s.0, ak, inv, d);
            Ext::law_mul_comm(s.0, inv);
        }
        ring::lemma_sub_swap(sf, f(n - 1), sg, g(n - 1));
        Ext::law_distrib(u, ring::minus(sf, sg), ring::minus(f(n - 1), g(n - 1)));
        Ext::law_add_assoc(s.1, u.times(ring::minus(sf, sg)), share);
    }
}

/// Whether the verifier's claims, and the rows that a query reads, are those of the prover.
pub open spec fn claims_match(
    rounds: Seq<(&Vec<Matrix<Felt>>, &Vec<Vec<Ext>>)>,
    opened: Seq<Vec<Vec<Vec<Ext>>>>,
    batches: Seq<Vec<MatrixClaim>>,
    rows: Seq<Vec<Vec<Felt>>>,
    log_blowup: nat,
    log_global: nat,
    index: nat,
) -> bool {
    &&& batches.len() == rounds.len()
    &&& rows.len() == rounds.len()
    &&& forall|k: int|
        0 <= k < rounds.len() ==> batch_matches(
            (#[trigger] rounds[k]).0@,
            rounds[k].1@,
            opened[k]@,
            batches[k]@,
            rows[k]@,
            log_blowup,
            log_global,
            index,
        )
}

/// As [`claims_match`], for one batch.
pub open spec fn batch_matches(
    mats: Seq<Matrix<Felt>>,
    points: Seq<Vec<Ext>>,
    opened: Seq<Vec<Vec<Ext>>>,
    claims: Seq<MatrixClaim>,
    rows: Seq<Vec<Felt>>,
    log_blowup: nat,
    log_global: nat,
    index: nat,
) -> bool {
    &&& claims.len() == pcs::opened_count(mats, points)
    &&& rows.len() == claims.len()
    &&& forall|i: int|
        0 <= i < claims.len() ==> {
            let log_height = bits::log2(mats[i].rows());
            &&& (#[trigger] claims[i]).domain.log_n + log_blowup == log_height
            &&& claims[i].points@.len() == points[i]@.len()
            &&& forall|p: int|
                0 <= p < points[i]@.len() ==> (#[trigger] claims[i].points@[p]).0 == points[i]@[p]
                    && claims[i].points@[p].1@ == opened[i]@[p]@
            &&& rows[i]@ == mats[i].row(
                (index / pow2((log_global - log_height) as nat)) as int,
            )
        }
}

proof fn lemma_claims_agree(
    s: reduction::Combined,
    mat: Matrix<Felt>,
    points: Seq<Ext>,
    ys: Seq<Vec<Ext>>,
    claims: Seq<(Ext, Vec<Ext>)>,
    alpha: Ext,
    j: nat,
    n: nat,
)
    requires
        n <= points.len(),
        ring::reduced(s.1) == s.1,
        ys.len() == points.len(),
        claims.len() == points.len(),
        forall|p: int| 0 <= p < ys.len() ==> (#[trigger] ys[p])@.len() == mat.width,
        forall|p: int|
            0 <= p < points.len() ==> (#[trigger] claims[p]).0 == points[p] && claims[p].1@ == ys[p]@,
    ensures
        ({
            let t = reduction::add_points(s, mat, points, ys, alpha, j, n);
            let x = denominators::reversed_point(lde::generator(), bits::log2(mat.rows()), j);
            &&& ring::reduced(t.1) == t.1
            &&& add_claims((ring::pow(alpha, s.0), s.1), mat.row(j as int), claims, x, alpha, n) == (
                ring::pow(alpha, t.0),
                t.1,
            )
        }),
    decreases n,
{
    if n > 0 {
        let k = (n - 1) as nat;
        lemma_claims_agree(s, mat, points, ys, claims, alpha, j, k);
        let t = reduction::add_points(s, mat, points, ys, alpha, j, k);
        let x = denominators::reversed_point(lde::generator(), bits::log2(mat.rows()), j);
        let row = mat.row(j as int);
        let (z, y) = (points[n - 1], ys[n - 1]@);
        let w = mat.width as nat;
        assert(claims[n - 1].0 == z && claims[n - 1].1@ == y);
        ring::lemma_pow_reduced(alpha, t.0);
        lemma_columns((ring::pow(alpha, t.0), t.1), row, y, x, z, alpha, w);
        ring::lemma_pow_add(alpha, t.0, w);
        let f = |c: int| ring::pow(alpha, c as nat).times(ext::embed(row[c]));
        let g = |c: int| ring::pow(alpha, c as nat).times(ext::embed(mat.at(j as int, c)));
        assert forall|c: int| 0 <= c < w implies #[trigger] f(c) == g(c) by {}
        ring::lemma_sum_ext(w, f, g);
        ring::lemma_add_reduced(t.1, reduction::claim(mat, z, y, alpha, t.0, j));
    }
}

proof fn lemma_batch_agrees(
    s: reduction::Combined,
    l: nat,
    mats: Seq<Matrix<Felt>>,
    points: Seq<Vec<Ext>>,
    opened: Seq<Vec<Vec<Ext>>>,
    claims: Seq<MatrixClaim>,
    rows: Seq<Vec<Felt>>,
    log_blowup: nat,
    log_global: nat,
    index: nat,
    alpha: Ext,
    n: nat,
)
    requires
        l <= log_global,
        n <= pcs::opened_count(mats, points),
        ring::reduced(s.1) == s.1,
        pcs::round_opened(mats, points, log_blowup, opened),
        batch_matches(mats, points, opened, claims, rows, log_blowup, log_global, index),
    ensures
        ({
            let j = index / pow2((log_global - l) as nat);
            let t = reduction::add_matrices(s, l, mats, points, opened, alpha, j, n);
            &&& ring::reduced(t.1) == t.1
            &&& add_batch(
                (ring::pow(alpha, s.0), s.1),
                l,
                log_blowup,
                claims,
                rows,
                log_global,
                index,
                alpha,
                n,
            ) == (ring::pow(alpha, t.0), t.1)
        }),
    decreases n,
{
    lemma_pow2_pos((log_global - l) as nat);
    if n > 0 {
        let k = (n - 1) as nat;
        let i = n - 1;
        lemma_batch_agrees(
            s, l, mats, points, opened, claims, rows, log_blowup, log_global, index, alpha, k,
        );
        let j = index / pow2((log_global - l) as nat);
        assert(claims[i].domain.log_n + log_blowup == bits::log2(mats[i].rows()));
        if bits::log2(mats[i].rows()) == l {
            assert(opened[i]@.len() == points[i]@.len());
            assert forall|p: int| 0 <= p < opened[i]@.len() implies (#[trigger] opened[i]@[p])@.len()
                == mats[i].width by {
                assert(opened[i]@[p]@ == pcs::opened_row(mats[i], log_blowup, points[i]@[p]));
            }
            lemma_claims_agree(
                reduction::add_matrices(s, l, mats, points, opened, alpha, j, k),
                mats[i],
                points[i]@,
                opened[i]@,
                claims[i].points@,
                alpha,
                j,
                points[i]@.len(),
            );
            assert(rows[i]@ == mats[i].row(j as int));
            assert(queried_point(l, log_global, index) == denominators::reversed_point(
                lde::generator(),
                bits::log2(mats[i].rows()),
                j,
            ));
            assert(claims[i].points@.len() == points[i]@.len());
        }
    }
}

proof fn lemma_batches_agree(
    l: nat,
    rounds: Seq<(&Vec<Matrix<Felt>>, &Vec<Vec<Ext>>)>,
    opened: Seq<Vec<Vec<Vec<Ext>>>>,
    batches: Seq<Vec<MatrixClaim>>,
    rows: Seq<Vec<Vec<Felt>>>,
    log_blowup: nat,
    log_global: nat,
    index: nat,
    alpha: Ext,
    n: nat,
)
    requires
        l <= log_global,
        n <= rounds.len(),
        pcs::all_opened(rounds, log_blowup, opened),
        claims_match(rounds, opened, batches, rows, log_blowup, log_global, index),
    ensures
        ({
            let j = index / pow2((log_global - l) as nat);
            let t = reduction::add_rounds(l, rounds, opened, alpha, j, n);
            &&& ring::reduced(t.1) == t.1
            &&& add_batches(l, log_blowup, batches, rows, log_global, index, alpha, n) == (
                ring::pow(alpha, t.0),
                t.1,
            )
        }),
    decreases n,
{
    Ext::law_constants();
    lemma_pow2_pos((log_global - l) as nat);
    if n > 0 {
        let k = n - 1;
        lemma_batches_agree(
            l, rounds, opened, batches, rows, log_blowup, log_global, index, alpha, k as nat,
        );
        let j = index / pow2((log_global - l) as nat);
        let (mats, points) = (rounds[k].0@, rounds[k].1@);
        assert(pcs::round_opened(mats, points, log_blowup, opened[k]@));
        assert(batch_matches(
            rounds[k].0@,
            rounds[k].1@,
            opened[k]@,
            batches[k]@,
            rows[k]@,
            log_blowup,
            log_global,
            index,
        ));
        lemma_batch_agrees(
            reduction::add_rounds(l, rounds, opened, alpha, j, k as nat),
            l,
            mats,
            points,
            opened[k]@,
            batches[k]@,
            rows[k]@,
            log_blowup,
            log_global,
            index,
            alpha,
            pcs::opened_count(mats, points),
        );
        assert(reducer::shorter(batches[k]@.len(), rows[k]@.len()) == pcs::opened_count(
            mats,
            points,
        ));
    }
}

/// The verifier and the prover agree: from the rows that a query reads and the opened values, the
/// verifier computes at each height the entry of the prover's combined codeword that the query
/// points to.
pub proof fn law_verifier_agrees(
    rounds: Seq<(&Vec<Matrix<Felt>>, &Vec<Vec<Ext>>)>,
    opening: Opening,
    words: Seq<Option<Vec<Ext>>>,
    batches: Seq<Vec<MatrixClaim>>,
    rows: Seq<Vec<Vec<Felt>>>,
    log_blowup: nat,
    index: nat,
    alpha: Ext,
    l: nat,
)
    requires
        opening.opens(rounds, log_blowup),
        reduction::combined(words, rounds, opening.opened_values@, alpha),
        claims_match(
            rounds,
            opening.opened_values@,
            batches,
            rows,
            log_blowup,
            opening.log_global_max_height as nat,
            index,
        ),
        index < pow2(opening.log_global_max_height as nat),
        l < 32,
        words[l as int] is Some,
    ensures
        l <= opening.log_global_max_height,
        index / pow2((opening.log_global_max_height - l) as nat) < words[l as int]->0@.len(),
        add_batches(
            l,
            log_blowup,
            batches,
            rows,
            opening.log_global_max_height as nat,
            index,
            alpha,
            rounds.len(),
        ).1 == words[l as int]->0@[(index / pow2(
            (opening.log_global_max_height - l) as nat,
        )) as int],
{
    let g = opening.log_global_max_height as nat;
    assert(reduction::has_height(l, rounds, rounds.len()));
    let b = (g - l) as nat;
    lemma_pow2_adds(l, b);
    lemma_pow2_pos(b);
    assert(index / pow2(b) < pow2(l)) by {
        lemma_multiply_divide_lt(index as int, pow2(b) as int, pow2(l) as int);
    }
    lemma_batches_agree(
        l,
        rounds,
        opening.opened_values@,
        batches,
        rows,
        log_blowup,
        g,
        index,
        alpha,
        rounds.len(),
    );
}

/// What a column adds to a combination, times the distance from the opening point to the point of the
/// query, is the difference between the entry that was read and the value that is claimed.
pub proof fn law_quotient_times_distance(p: Felt, y: Ext, x: Felt, z: Ext)
    requires
        ring::invertible(ring::minus(ext::embed(x), z)),
    ensures
        quotient(p, y, x, z).times(ring::minus(ext::embed(x), z)) == ring::minus(ext::embed(p), y),
{
    let d = ring::minus(ext::embed(x), z);
    let e = ring::minus(ext::embed(p), y);
    let r = choose|r: Ext| d.times(r) == Ext::one_spec();
    ring::lemma_inv(d, r);
    Ext::law_mul_comm(ring::inv(d), d);
    Ext::law_mul_assoc(e, ring::inv(d), d);
    ring::lemma_mul_one(e);
    Ext::law_add_reduced(ext::embed(p), y.negated());
}

/// The columns of a row are combined in order: each adds its quotient times a power of `alpha` that is
/// one higher than that of the column before it.
pub proof fn law_columns_are_combined_in_order(
    s: Running,
    row: Seq<Felt>,
    ys: Seq<Ext>,
    x: Felt,
    z: Ext,
    alpha: Ext,
    n: nat,
)
    requires
        n <= row.len(),
        n <= ys.len(),
        ring::reduced(s.0) == s.0,
        ring::reduced(s.1) == s.1,
    ensures
        add_columns(s, row, ys, x, z, alpha, n).0 == s.0.times(ring::pow(alpha, n)),
        add_columns(s, row, ys, x, z, alpha, n).1 == s.1.plus(
            ring::sum(
                n,
                |c: int|
                    s.0.times(ring::pow(alpha, c as nat)).times(quotient(row[c], ys[c], x, z)),
            ),
        ),
    decreases n,
{
    let f = |c: int| s.0.times(ring::pow(alpha, c as nat)).times(quotient(row[c], ys[c], x, z));
    if n == 0 {
        ring::lemma_mul_one(s.0);
        Ext::law_add_comm(s.1, Ext::zero_spec());
        ring::lemma_zero_left(s.1);
    } else {
        let m = (n - 1) as nat;
        law_columns_are_combined_in_order(s, row, ys, x, z, alpha, m);
        Ext::law_mul_assoc(s.0, ring::pow(alpha, m), alpha);
        Ext::law_add_assoc(s.1, ring::sum(m, f), f(m as int));
    }
}

/// The points of a matrix are combined in order, each with its own claimed values, as many as there are
/// both entries of the row and claimed values.
pub proof fn law_claims_are_combined_in_order(
    s: Running,
    row: Seq<Felt>,
    points: Seq<(Ext, Vec<Ext>)>,
    x: Felt,
    alpha: Ext,
    n: nat,
)
    requires
        0 < n <= points.len(),
    ensures
        add_claims(s, row, points, x, alpha, 0) == s,
        add_claims(s, row, points, x, alpha, n) == add_columns(
            add_claims(s, row, points.take(n - 1), x, alpha, (n - 1) as nat),
            row,
            points[n - 1].1@,
            x,
            points[n - 1].0,
            alpha,
            if row.len() <= points[n - 1].1@.len() {
                row.len()
            } else {
                points[n - 1].1@.len()
            },
        ),
{
    lemma_claims_prefix(s, row, points, x, alpha, (n - 1) as nat, (n - 1) as nat);
}

proof fn lemma_claims_prefix(
    s: Running,
    row: Seq<Felt>,
    points: Seq<(Ext, Vec<Ext>)>,
    x: Felt,
    alpha: Ext,
    m: nat,
    n: nat,
)
    requires
        n <= m <= points.len(),
    ensures
        add_claims(s, row, points.take(m as int), x, alpha, n) == add_claims(
            s,
            row,
            points,
            x,
            alpha,
            n,
        ),
    decreases n,
{
    if n > 0 {
        lemma_claims_prefix(s, row, points, x, alpha, m, (n - 1) as nat);
    }
}

} // verus!
