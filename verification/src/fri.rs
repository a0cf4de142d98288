//! The prover's side of the FRI protocol.

use vstd::prelude::*;
use vstd::arithmetic::power2::*;
use vstd::arithmetic::div_mod::*;
use crate::bits;
use crate::domain::TwoAdic;
use crate::ext::Ext;
use crate::field::Field;
use crate::fold;
use crate::matrix::Matrix;
use crate::pcs::FriConfig;
use crate::ring;
use crate::ring::Ring;

verus! {

/// A proof that codewords are close to polynomials of low degree.
pub struct FriProof<Commitment, Proof, Witness> {
    pub commit_phase_commits: Vec<Commitment>,
    pub query_proofs: Vec<QueryProof<Proof>>,
    pub final_poly: Ext,
    pub pow_witness: Witness,
}

pub struct QueryProof<Proof> {
    /// For each commit phase commitment, the opening of its codeword at the queried location.
    pub commit_phase_openings: Vec<CommitPhaseProofStep<Proof>>,
}

pub struct CommitPhaseProofStep<Proof> {
    /// The entry of the codeword at the sibling location.
    pub sibling_value: Ext,
    pub opening_proof: Proof,
}

impl FriConfig {
    /// The factor by which a codeword is longer than its polynomial.
    pub fn blowup(&self) -> (r: usize)
        requires
            self.log_blowup < usize::BITS,
        ensures
            r == pow2(self.log_blowup as nat),
    {
        proof {
            bits::lemma_pow2_fits(self.log_blowup as nat);
            vstd::bits::lemma_usize_shl_is_mul(1, self.log_blowup);
        }
        1usize << self.log_blowup
    }
}

/// The entries of two codewords, added.
pub open spec fn added(a: Seq<Ext>, b: Seq<Ext>) -> Seq<Ext> {
    Seq::new(a.len(), |i: int| a[i].plus(b[i]))
}

/// The codeword after a fold with `beta` to height `2^log_folded`, with the input of that height
/// added.
pub open spec fn fold_step(
    word: Seq<Ext>,
    beta: Ext,
    input: Seq<Option<Vec<Ext>>>,
    log_folded: nat,
) -> Seq<Ext> {
    let next = fold::folded(word, beta);
    match input[log_folded as int] {
        Some(v) => added(next, v@),
        None => next,
    }
}

/// The codeword after `n` folds, starting with the input of height `2^log_max`.
pub open spec fn codeword(
    input: Seq<Option<Vec<Ext>>>,
    log_max: nat,
    betas: Seq<Ext>,
    n: nat,
) -> Seq<Ext>
    decreases n,
{
    if n == 0 {
        input[log_max as int]->0@
    } else {
        fold_step(
            codeword(input, log_max, betas, (n - 1) as nat),
            betas[n - 1],
            input,
            (log_max - n) as nat,
        )
    }
}

/// Each input has the length of its height, which the roots of unity reach.
pub open spec fn inputs_ok(input: Seq<Option<Vec<Ext>>>) -> bool {
    forall|l: nat|
        l < input.len() && (#[trigger] input[l as int]) is Some ==> input[l as int]->0@.len() == pow2(
            l,
        ) && l <= 29
}

/// The highest input.
pub open spec fn is_log_max(input: Seq<Option<Vec<Ext>>>, l: nat) -> bool {
    &&& l < input.len()
    &&& input[l as int] is Some
    &&& forall|k: int| l < k < input.len() ==> (#[trigger] input[k]) is None
}

/// A commit phase in progress: the codeword that is folded next, and its height.
pub struct CommitPhase {
    pub log_height: usize,
    pub current: Vec<Ext>,
}

/// The height of the highest input, as a logarithm.
pub fn log_max_height(input: &Vec<Option<Vec<Ext>>>) -> (r: Option<usize>)
    ensures
        r matches Some(l) ==> is_log_max(input@, l as nat),
        r is None ==> forall|k: int| 0 <= k < input@.len() ==> (#[trigger] input@[k]) is None,
{
    let mut l: usize = input.len();
    while l > 0
        invariant
            l <= input@.len(),
            forall|k: int| l <= k < input@.len() ==> (#[trigger] input@[k]) is None,
        decreases l,
    {
        l = l - 1;
        if input[l].is_some() {
            return Some(l);
        }
    }
    None
}

fn copy_word(v: &Vec<Ext>) -> (r: Vec<Ext>)
    ensures
        r@ == v@,
{
    let mut r: Vec<Ext> = Vec::new();
    let mut i: usize = 0;
    while i < v.len()
        invariant
            i <= v@.len(),
            r@ == v@.take(i as int),
        decreases v@.len() - i,
    {
        r.push(v[i]);
        i = i + 1;
        assert(r@ =~= v@.take(i as int));
    }
    assert(v@.take(i as int) =~= v@);
    r
}

/// Adds the entries of `v` to those of `word`.
fn add_word(word: &mut Vec<Ext>, v: &Vec<Ext>)
    requires
        old(word)@.len() == v@.len(),
    ensures
        final(word)@ == added(old(word)@, v@),
{
    let ghost before = word@;
    let mut i: usize = 0;
    while i < word.len()
        invariant
            i <= word@.len(),
            word@.len() == before.len(),
            v@.len() == before.len(),
            forall|k: int| 0 <= k < i ==> #[trigger] word@[k] == before[k].plus(v@[k]),
            forall|k: int| i <= k < word@.len() ==> #[trigger] word@[k] == before[k],
        decreases word@.len() - i,
    {
        let value: Ext = word[i].add(v[i]);
        word.set(i, value);
        i = i + 1;
    }
    assert(word@ =~= added(before, v@));
}

impl CommitPhase {
    /// The codeword has the length of its height.
    pub open spec fn well_formed(&self) -> bool {
        self.current@.len() == pow2(self.log_height as nat) && self.log_height <= 29
    }

    /// The phase after `n` folds.
    pub open spec fn reached(
        &self,
        input: Seq<Option<Vec<Ext>>>,
        log_max: nat,
        betas: Seq<Ext>,
        n: nat,
    ) -> bool {
        &&& self.well_formed()
        &&& n <= log_max
        &&& self.log_height == log_max - n
        &&& self.current@ == codeword(input, log_max, betas, n)
    }

    /// Starts with the highest input.
    pub fn start(input: &Vec<Option<Vec<Ext>>>, log_max: usize) -> (r: Self)
        requires
            inputs_ok(input@),
            is_log_max(input@, log_max as nat),
        ensures
            r.reached(input@, log_max as nat, Seq::empty(), 0),
    {
        match &input[log_max] {
            Some(v) => CommitPhase { log_height: log_max, current: copy_word(v) },
            None => CommitPhase { log_height: log_max, current: Vec::new() },
        }
    }

    /// The pairs of entries that are committed before the next challenge is drawn, if the codeword
    /// is still longer than the blowup factor.
    pub fn leaves(self, config: &FriConfig) -> (r: Result<Matrix<Ext>, Self>)
        ensures
            r is Ok <==> self.log_height > config.log_blowup,
            r matches Ok(m) ==> m.values == self.current && m.width == 2,
            r matches Err(phase) ==> phase == self,
    {
        if self.log_height > config.log_blowup {
            Ok(Matrix { values: self.current, width: 2 })
        } else {
            Err(self)
        }
    }

    /// Folds the committed codeword with the challenge and adds the input of the new height.
    pub fn fold(
        input: &Vec<Option<Vec<Ext>>>,
        log_height: usize,
        leaves: &Matrix<Ext>,
        beta: Ext,
    ) -> (r: Self)
        requires
            inputs_ok(input@),
            0 < log_height <= 29,
            log_height <= input@.len(),
            leaves.values@.len() == pow2(log_height as nat),
        ensures
            r.well_formed(),
            r.log_height == log_height - 1,
            r.current@ == fold_step(leaves.values@, beta, input@, (log_height - 1) as nat),
    {
        let log_folded: usize = log_height - 1;
        proof {
            lemma_pow2_unfold(log_height as nat);
            bits::lemma_log2_pow2(log_folded as nat);
        }
        let mut current: Vec<Ext> = fold::fold_from_committed(leaves, beta);
        if let Some(v) = &input[log_folded] {
            assert(input@[log_folded as nat as int] is Some);
            add_word(&mut current, v);
        }
        CommitPhase { log_height: log_folded, current }
    }

    /// The constant that is left, if the codeword has the length of the blowup factor and all its
    /// entries are the same.
    pub fn finish(&self, config: &FriConfig) -> (r: Option<Ext>)
        requires
            config.log_blowup < usize::BITS,
        ensures
            r is Some <==> is_constant(self.current@, config.log_blowup as nat),
            r matches Some(c) ==> c == self.current@[0],
    {
        let blowup: usize = config.blowup();
        proof {
            lemma_pow2_pos(config.log_blowup as nat);
        }
        if self.current.len() != blowup {
            return None;
        }
        let first: Ext = self.current[0];
        let mut i: usize = 0;
        while i < self.current.len()
            invariant
                i <= self.current@.len(),
                self.current@.len() == pow2(config.log_blowup as nat),
                self.current@.len() > 0,
                first == self.current@[0],
                forall|k: int|
                    0 <= k < i ==> ring::reduced(#[trigger] self.current@[k]) == ring::reduced(first),
            decreases self.current@.len() - i,
        {
            if !self.current[i].equals(first) {
                return None;
            }
            i = i + 1;
        }
        Some(first)
    }
}

/// Whether a codeword has the length of the blowup factor and is constant.
pub open spec fn is_constant(word: Seq<Ext>, log_blowup: nat) -> bool {
    &&& word.len() == pow2(log_blowup)
    &&& forall|k: int|
        0 <= k < word.len() ==> ring::reduced(#[trigger] word[k]) == ring::reduced(word[0])
}

/// A codeword depends on the challenges drawn so far only.
pub proof fn lemma_codeword_prefix(
    input: Seq<Option<Vec<Ext>>>,
    log_max: nat,
    a: Seq<Ext>,
    b: Seq<Ext>,
    n: nat,
)
    requires
        n <= a.len(),
        n <= b.len(),
        forall|i: int| 0 <= i < n ==> #[trigger] a[i] == b[i],
    ensures
        codeword(input, log_max, a, n) == codeword(input, log_max, b, n),
    decreases n,
{
    if n > 0 {
        lemma_codeword_prefix(input, log_max, a, b, (n - 1) as nat);
        assert(a[n - 1] == b[n - 1]);
    }
}

/// The result of a commit phase: the committed matrices, one per challenge, and the constant that
/// is left.
pub struct CommitPhaseResult {
    pub data: Vec<Matrix<Ext>>,
    pub final_poly: Ext,
}

/// What a commit phase gives: the codewords before each fold, in pairs, and the constant that the
/// last one consists of, if it is constant; else nothing.
pub open spec fn phase_gives(
    input: Seq<Option<Vec<Ext>>>,
    log_max: nat,
    betas: Seq<Ext>,
    log_blowup: nat,
    r: Option<CommitPhaseResult>,
) -> bool {
    &&& r is Some <==> is_constant(codeword(input, log_max, betas, betas.len()), log_blowup)
    &&& r matches Some(result) ==> {
        &&& result.data@.len() == betas.len()
        &&& forall|i: int|
            0 <= i < betas.len() ==> (#[trigger] result.data@[i]).width == 2
                && result.data@[i].values@ == codeword(input, log_max, betas, i as nat)
        &&& result.final_poly == codeword(input, log_max, betas, betas.len())[0]
    }
}

/// Runs the commit phase with the challenges `betas`, which are drawn after each commitment.
pub fn commit_phase(
    config: &FriConfig,
    input: &Vec<Option<Vec<Ext>>>,
    log_max: usize,
    betas: &Vec<Ext>,
) -> (r: Option<CommitPhaseResult>)
    requires
        config.log_blowup < usize::BITS,
        inputs_ok(input@),
        is_log_max(input@, log_max as nat),
        betas@.len() == (if log_max > config.log_blowup {
            log_max - config.log_blowup
        } else {
            0
        }),
    ensures
        phase_gives(input@, log_max as nat, betas@, config.log_blowup as nat, r),
{
    let ghost lm = log_max as nat;
    let mut phase: CommitPhase = CommitPhase::start(input, log_max);
    let mut data: Vec<Matrix<Ext>> = Vec::new();
    let mut i: usize = 0;
    while i < betas.len()
        invariant
            i <= betas@.len(),
            lm == log_max as nat,
            inputs_ok(input@),
            is_log_max(input@, lm),
            betas@.len() == (if log_max > config.log_blowup {
                log_max - config.log_blowup
            } else {
                0
            }),
            phase.well_formed(),
            phase.log_height == lm - i,
            phase.current@ == codeword(input@, lm, betas@, i as nat),
            data@.len() == i,
            forall|k: int|
                0 <= k < i ==> (#[trigger] data@[k]).width == 2 && data@[k].values@ == codeword(
                    input@,
                    lm,
                    betas@,
                    k as nat,
                ),
        decreases betas@.len() - i,
    {
        let log_height: usize = phase.log_height;
        let leaves = Matrix { values: phase.current, width: 2 };
        phase = CommitPhase::fold(input, log_height, &leaves, betas[i]);
        assert((lm - (i + 1)) as nat == (log_height - 1) as nat);
        data.push(leaves);
        i = i + 1;
    }
    match phase.finish(config) {
        Some(final_poly) => Some(CommitPhaseResult { data, final_poly }),
        None => None,
    }
}

/// The coefficients of `p_even + beta p_odd`.
pub open spec fn folded_coeffs(coeffs: Seq<Ext>, beta: Ext) -> Seq<Ext> {
    Seq::new(coeffs.len() / 2, |k: int| coeffs[2 * k].plus(beta.times(coeffs[2 * k + 1])))
}

/// The coefficients of the polynomial behind the codeword after `n` folds, from those behind the
/// inputs.
pub open spec fn codeword_coeffs(
    input: Seq<Option<Vec<Ext>>>,
    coeffs: Seq<Seq<Ext>>,
    log_max: nat,
    betas: Seq<Ext>,
    n: nat,
) -> Seq<Ext>
    decreases n,
{
    if n == 0 {
        coeffs[log_max as int]
    } else {
        let next = folded_coeffs(
            codeword_coeffs(input, coeffs, log_max, betas, (n - 1) as nat),
            betas[n - 1],
        );
        let l = log_max - n;
        match input[l] {
            Some(v) => added(next, coeffs[l]),
            None => next,
        }
    }
}

/// Whether `coeffs` gives polynomials whose evaluations the inputs are, of a degree below the
/// length over the blowup factor.
pub open spec fn low_degree(
    input: Seq<Option<Vec<Ext>>>,
    coeffs: Seq<Seq<Ext>>,
    log_blowup: nat,
) -> bool {
    &&& coeffs.len() == input.len()
    &&& forall|l: nat|
        log_blowup <= l < input.len() && (#[trigger] input[l as int]) is Some ==> coeffs[l as int].len()
            == pow2((l - log_blowup) as nat) && input[l as int]->0@ == fold::evaluations(
            coeffs[l as int],
            l,
        )
}

proof fn lemma_poly_folded(coeffs: Seq<Ext>, beta: Ext, y: Ext)
    ensures
        ring::poly(folded_coeffs(coeffs, beta), y) == ring::poly(fold::even_part(coeffs), y).plus(
            beta.times(ring::poly(fold::odd_part(coeffs), y)),
        ),
{
    let n = coeffs.len() / 2;
    let e = |k: int| fold::even_part(coeffs)[k].times(ring::pow(y, k as nat));
    let o = |k: int| fold::odd_part(coeffs)[k].times(ring::pow(y, k as nat));
    let bo = |k: int| beta.times(o(k));
    let f = |k: int| folded_coeffs(coeffs, beta)[k].times(ring::pow(y, k as nat));
    ring::lemma_sum_scale(n, beta, o);
    ring::lemma_sum_add(n, e, bo);
    assert forall|k: int| 0 <= k < n implies #[trigger] f(k) == e(k).plus(bo(k)) by {
        let yk = ring::pow(y, k as nat);
        ring::lemma_distrib_right(coeffs[2 * k], beta.times(coeffs[2 * k + 1]), yk);
        Ext::law_mul_assoc(beta, coeffs[2 * k + 1], yk);
    }
    ring::lemma_sum_ext(n, f, |k: int| e(k).plus(bo(k)));
}

proof fn lemma_poly_added(a: Seq<Ext>, b: Seq<Ext>, y: Ext)
    requires
        a.len() == b.len(),
    ensures
        ring::poly(added(a, b), y) == ring::poly(a, y).plus(ring::poly(b, y)),
{
    let f = |k: int| a[k].times(ring::pow(y, k as nat));
    let g = |k: int| b[k].times(ring::pow(y, k as nat));
    let h = |k: int| added(a, b)[k].times(ring::pow(y, k as nat));
    ring::lemma_sum_add(a.len(), f, g);
    assert forall|k: int| 0 <= k < a.len() implies #[trigger] h(k) == f(k).plus(g(k)) by {
        ring::lemma_distrib_right(a[k], b[k], ring::pow(y, k as nat));
    }
    ring::lemma_sum_ext(a.len(), h, |k: int| f(k).plus(g(k)));
}

/// The codewords of a commit phase are evaluations of the folded polynomials.
pub proof fn lemma_codeword_coeffs(
    input: Seq<Option<Vec<Ext>>>,
    coeffs: Seq<Seq<Ext>>,
    log_blowup: nat,
    log_max: nat,
    betas: Seq<Ext>,
    n: nat,
)
    requires
        inputs_ok(input),
        is_log_max(input, log_max),
        low_degree(input, coeffs, log_blowup),
        n + log_blowup <= log_max,
    ensures
        codeword_coeffs(input, coeffs, log_max, betas, n).len() == pow2(
            (log_max - n - log_blowup) as nat,
        ),
        codeword(input, log_max, betas, n) == fold::evaluations(
            codeword_coeffs(input, coeffs, log_max, betas, n),
            (log_max - n) as nat,
        ),
    decreases n,
{
    if n > 0 {
        let m = (n - 1) as nat;
        lemma_codeword_coeffs(input, coeffs, log_blowup, log_max, betas, m);
        let c = codeword_coeffs(input, coeffs, log_max, betas, m);
        let beta = betas[n - 1];
        let l = (log_max - n) as nat;
        assert((log_max - m) as nat == l + 1);
        lemma_pow2_unfold((log_max - m - log_blowup) as nat);
        assert(c.len() % 2 == 0);
        fold::law_fold_even_odd(c, beta, l);
        let fc = folded_coeffs(c, beta);
        let word = fold::folded(codeword(input, log_max, betas, m), beta);
        assert(word =~= fold::evaluations(fc, l)) by {
            assert forall|i: int| 0 <= i < word.len() implies #[trigger] word[i]
                == fold::evaluations(fc, l)[i] by {
                let y = ring::pow(Ext::root(l), bits::bitrev(i as nat, l));
                lemma_poly_folded(c, beta, y);
            }
        }
        if input[l as int] is Some {
            let v = input[l as int]->0@;
            assert(v == fold::evaluations(coeffs[l as int], l));
            assert(added(word, v) =~= fold::evaluations(added(fc, coeffs[l as int]), l)) by {
                assert forall|i: int| 0 <= i < word.len() implies #[trigger] added(word, v)[i]
                    == fold::evaluations(added(fc, coeffs[l as int]), l)[i] by {
                    let y = ring::pow(Ext::root(l), bits::bitrev(i as nat, l));
                    lemma_poly_added(fc, coeffs[l as int], y);
                }
            }
        }
    } else {
        assert(input[log_max as int] is Some);
    }
}

/// A commit phase on evaluations of low-degree polynomials is left with a constant: it never fails
/// on an honest prover's codewords, whatever the challenges are.
pub proof fn law_commit_phase_completes(
    input: Seq<Option<Vec<Ext>>>,
    coeffs: Seq<Seq<Ext>>,
    log_blowup: nat,
    log_max: nat,
    betas: Seq<Ext>,
)
    requires
        inputs_ok(input),
        is_log_max(input, log_max),
        low_degree(input, coeffs, log_blowup),
        log_blowup <= log_max,
        betas.len() == log_max - log_blowup,
    ensures
        is_constant(codeword(input, log_max, betas, betas.len()), log_blowup),
{
    let n = betas.len();
    lemma_codeword_coeffs(input, coeffs, log_blowup, log_max, betas, n);
    let c = codeword_coeffs(input, coeffs, log_max, betas, n);
    let word = codeword(input, log_max, betas, n);
    lemma2_to64();
    assert(c.len() == 1);
    lemma_pow2_pos(log_blowup);
    assert forall|k: int| 0 <= k < word.len() implies #[trigger] word[k] == word[0] by {
        let x = ring::pow(Ext::root(log_blowup), bits::bitrev(k as nat, log_blowup));
        let y = ring::pow(Ext::root(log_blowup), bits::bitrev(0, log_blowup));
        let f = |i: int| c[i].times(ring::pow(x, i as nat));
        let g = |i: int| c[i].times(ring::pow(y, i as nat));
        assert forall|i: int| 0 <= i < 1 implies #[trigger] f(i) == g(i) by {
            assert(ring::pow(x, 0) == ring::pow(y, 0));
        }
        ring::lemma_sum_ext(1, f, g);
    }
}

/// The location next to `index` in its pair.
pub open spec fn sibling(index: nat) -> nat {
    if index % 2 == 0 {
        index + 1
    } else {
        (index - 1) as nat
    }
}

/// What a query reads from the codeword with number `i`: the row of pairs, and the slot of the
/// sibling in that row.
pub fn query_location(index: usize, i: usize) -> (r: (usize, usize))
    requires
        i < usize::BITS,
    ensures
        r.0 == (index as nat / pow2(i as nat)) / 2,
        r.1 == sibling(index as nat / pow2(i as nat)) % 2,
        r.1 < 2,
{
    proof {
        vstd::bits::lemma_usize_shr_is_div(index, i);
    }
    let index_i: usize = index >> i;
    assert(index_i ^ 1 == if index_i % 2 == 0 {
        (index_i + 1) as usize
    } else {
        (index_i - 1) as usize
    }) by (bit_vector);
    assert(index_i >> 1 == index_i / 2) by (bit_vector);
    let index_i_sibling: usize = index_i ^ 1;
    let index_pair: usize = index_i >> 1;
    (index_pair, index_i_sibling % 2)
}

/// Whether a query is answered from opened rows: with the entry of each row that is not the query's
/// own, and with the proof of the row.
pub open spec fn are_answers<Proof>(
    r: QueryProof<Proof>,
    opened: Seq<(Vec<Vec<Ext>>, Proof)>,
    index: nat,
) -> bool {
    &&& r.commit_phase_openings@.len() == opened.len()
    &&& forall|i: int|
        0 <= i < opened.len() ==> (#[trigger] r.commit_phase_openings@[i]).sibling_value
            == opened[i].0@[0]@[(sibling(index / pow2(i as nat)) % 2) as int]
            && r.commit_phase_openings@[i].opening_proof == opened[i].1
}

/// Answers a query from the opened rows, one per codeword, that are read at
/// [`query_location`].
pub fn answer_query<Proof>(opened: Vec<(Vec<Vec<Ext>>, Proof)>, index: usize) -> (r: QueryProof<Proof>)
    requires
        opened@.len() <= usize::BITS,
        forall|i: int|
            0 <= i < opened@.len() ==> (#[trigger] opened@[i]).0@.len() == 1
                && opened@[i].0@[0]@.len() == 2,
    ensures
        are_answers(r, opened@, index as nat),
{
    let ghost all = opened@;
    let mut left: Vec<(Vec<Vec<Ext>>, Proof)> = opened;
    let mut steps: Vec<CommitPhaseProofStep<Proof>> = Vec::new();
    let mut i: usize = 0;
    while left.len() > 0
        invariant
            all.len() <= usize::BITS,
            left@.len() + i == all.len(),
            left@ == all.skip(i as int),
            forall|i: int|
                0 <= i < all.len() ==> (#[trigger] all[i]).0@.len() == 1 && all[i].0@[0]@.len()
                    == 2,
            steps@.len() == i,
            forall|k: int|
                0 <= k < i ==> (#[trigger] steps@[k]).sibling_value == all[k].0@[0]@[(sibling(
                    index as nat / pow2(k as nat),
                ) % 2) as int] && steps@[k].opening_proof == all[k].1,
        decreases left@.len(),
    {
        let (opened_rows, opening_proof) = left.remove(0);
        assert((opened_rows, opening_proof) == all[i as int]);
        assert(left@ =~= all.skip(i + 1));
        let (_pair, slot) = query_location(index, i);
        let sibling_value: Ext = opened_rows[0][slot];
        steps.push(CommitPhaseProofStep { sibling_value, opening_proof });
        i = i + 1;
    }
    QueryProof { commit_phase_openings: steps }
}

/// The value that answers a query is the entry of the committed codeword at the sibling location.
pub proof fn law_answer_is_sibling(leaves: Matrix<Ext>, index: nat, row: Seq<Ext>)
    requires
        leaves.width == 2,
        leaves.values@.len() % 2 == 0,
        index < leaves.values@.len(),
        row == leaves.row((index / 2) as int),
    ensures
        sibling(index) < leaves.values@.len(),
        row[(sibling(index) % 2) as int] == leaves.values@[sibling(index) as int],
{
}

/// Whether each query is answered from its own opened rows.
pub open spec fn all_answered<Proof>(
    proofs: Seq<QueryProof<Proof>>,
    opened: Seq<Vec<(Vec<Vec<Ext>>, Proof)>>,
    query_indices: Seq<usize>,
) -> bool {
    &&& proofs.len() == query_indices.len()
    &&& forall|q: int|
        0 <= q < proofs.len() ==> are_answers(
            #[trigger] proofs[q],
            opened[q]@,
            query_indices[q] as nat,
        )
}

/// Answers all queries, in order.
pub fn prove_query_phase_sequential<Commitment, Proof>(
    commits: Vec<Commitment>,
    final_poly: Ext,
    opened: Vec<Vec<(Vec<Vec<Ext>>, Proof)>>,
    query_indices: &Vec<usize>,
) -> (r: (Vec<Commitment>, Vec<QueryProof<Proof>>, Ext))
    requires
        opened@.len() == query_indices@.len(),
        forall|q: int| 0 <= q < opened@.len() ==> (#[trigger] opened@[q])@.len() <= usize::BITS,
        forall|q: int, i: int|
            0 <= q < opened@.len() && 0 <= i < opened@[q]@.len() ==> (
            #[trigger] opened@[q]@[i]).0@.len() == 1 && opened@[q]@[i].0@[0]@.len() == 2,
    ensures
        r.0 == commits,
        r.2 == final_poly,
        all_answered(r.1@, opened@, query_indices@),
{
    let ghost all = opened@;
    let mut left: Vec<Vec<(Vec<Vec<Ext>>, Proof)>> = opened;
    let mut proofs: Vec<QueryProof<Proof>> = Vec::new();
    let mut q: usize = 0;
    let n: usize = query_indices.len();
    while left.len() > 0
        invariant
            n == all.len(),
            left@.len() + q == all.len(),
            left@ == all.skip(q as int),
            all.len() == query_indices@.len(),
            forall|q: int| 0 <= q < all.len() ==> (#[trigger] all[q])@.len() <= usize::BITS,
            forall|q: int, i: int|
                0 <= q < all.len() && 0 <= i < all[q]@.len() ==> (#[trigger] all[q]@[i]).0@.len()
                    == 1 && all[q]@[i].0@[0]@.len() == 2,
            proofs@.len() == q,
            forall|k: int|
                0 <= k < q ==> are_answers(
                    #[trigger] proofs@[k],
                    all[k]@,
                    query_indices@[k] as nat,
                ),
        decreases left@.len(),
    {
        let steps: Vec<(Vec<Vec<Ext>>, Proof)> = left.remove(0);
        assert(steps == all[q as int]);
        assert(left@ =~= all.skip(q + 1));
        assert forall|i: int| 0 <= i < steps@.len() implies (#[trigger] steps@[i]).0@.len() == 1
            && steps@[i].0@[0]@.len() == 2 by {
            assert(all[q as int]@[i].0@.len() == 1);
        }
        proofs.push(answer_query(steps, query_indices[q]));
        q = q + 1;
    }
    (commits, proofs, final_poly)
}

/// Puts a proof together: the commitments and the final polynomial of the commit phase, the answers
/// to the queries, and the proof of work.
pub fn prove<Commitment, Proof, Witness>(
    commits: Vec<Commitment>,
    final_poly: Ext,
    opened: Vec<Vec<(Vec<Vec<Ext>>, Proof)>>,
    pow_witness: Witness,
    query_indices: Vec<usize>,
) -> (r: (FriProof<Commitment, Proof, Witness>, Vec<usize>))
    requires
        opened@.len() == query_indices@.len(),
        forall|q: int| 0 <= q < opened@.len() ==> (#[trigger] opened@[q])@.len() <= usize::BITS,
        forall|q: int, i: int|
            0 <= q < opened@.len() && 0 <= i < opened@[q]@.len() ==> (
            #[trigger] opened@[q]@[i]).0@.len() == 1 && opened@[q]@[i].0@[0]@.len() == 2,
    ensures
        r.0.commit_phase_commits == commits,
        r.0.final_poly == final_poly,
        r.0.pow_witness == pow_witness,
        r.1 == query_indices,
        all_answered(r.0.query_proofs@, opened@, query_indices@),
{
    let (commit_phase_commits, query_proofs, final_poly) = prove_query_phase_sequential(
        commits,
        final_poly,
        opened,
        &query_indices,
    );
    (FriProof { commit_phase_commits, query_proofs, final_poly, pow_witness }, query_indices)
}

/// The sibling of a location is the other one of its pair.
pub proof fn law_siblings_are_pairs(index: nat)
    ensures
        sibling(index) != index,
        sibling(index) / 2 == index / 2,
        sibling(sibling(index)) == index,
{
}

/// What a commit phase commits to: first the highest input, and then each time the fold of what was
/// committed before with the challenge drawn since, to which the input of that height is added where
/// there is one. Two entries in a row are a pair, and the constant that is left is every entry of the
/// last fold.
pub proof fn law_phase_commits_folds(
    input: Seq<Option<Vec<Ext>>>,
    log_max: nat,
    betas: Seq<Ext>,
    log_blowup: nat,
    result: CommitPhaseResult,
    i: int,
    k: int,
)
    requires
        phase_gives(input, log_max, betas, log_blowup, Some(result)),
        inputs_ok(input),
        is_log_max(input, log_max),
        betas.len() <= log_max,
        0 <= i < betas.len(),
        0 <= k < result.data@[i].values@.len() / 2,
    ensures
        result.data@.len() == betas.len(),
        result.data@[i].width == 2,
        result.data@[0].values@ == input[log_max as int]->0@,
        ({
            let folded = fold::folded(result.data@[i].values@, betas[i])[k];
            let value = match input[log_max - i - 1] {
                Some(v) => folded.plus(v@[k]),
                None => folded,
            };
            if i + 1 < betas.len() {
                result.data@[i + 1].values@[k] == value
            } else {
                ring::reduced(result.final_poly) == ring::reduced(value)
            }
        }),
{
    assert(result.data@[0].values@ == codeword(input, log_max, betas, 0));
    let word = codeword(input, log_max, betas, i as nat);
    assert(result.data@[i].values@ == word);
    let next = codeword(input, log_max, betas, (i + 1) as nat);
    assert(next == fold_step(word, betas[i], input, (log_max - (i + 1)) as nat));
    assert(fold::folded(word, betas[i]).len() == word.len() / 2);
    if i + 1 < betas.len() {
        assert(result.data@[i + 1].values@ == next);
    } else {
        assert(is_constant(next, log_blowup));
        assert(ring::reduced(next[k]) == ring::reduced(next[0]));
    }
}

/// The answers to a query complete the pairs that it reads: of each opened row of two, the answer is the
/// entry that is not the query's own, whatever the row holds, and it comes with the proof of that row.
pub proof fn law_answers_complete_pairs<Proof>(
    r: QueryProof<Proof>,
    opened: Seq<(Vec<Vec<Ext>>, Proof)>,
    index: nat,
    i: int,
)
    requires
        are_answers(r, opened, index),
        0 <= i < opened.len(),
        opened[i].0@.len() == 1,
        opened[i].0@[0]@.len() == 2,
    ensures
        r.commit_phase_openings@.len() == opened.len(),
        r.commit_phase_openings@[i].opening_proof == opened[i].1,
        ({
            let row = opened[i].0@[0]@;
            let own = (index / pow2(i as nat)) % 2;
            &&& own == 0 ==> r.commit_phase_openings@[i].sibling_value == row[1]
            &&& own == 1 ==> r.commit_phase_openings@[i].sibling_value == row[0]
        }),
{
    let step = r.commit_phase_openings@[i];
    let x = index / pow2(i as nat);
    lemma_pow2_pos(i as nat);
    lemma_div_pos_is_pos(index as int, pow2(i as nat) as int);
    assert(x % 2 == 0 ==> sibling(x) % 2 == 1);
    assert(x % 2 == 1 ==> sibling(x) % 2 == 0);
    assert(step.sibling_value == opened[i].0@[0]@[(sibling(x) % 2) as int]);
}

/// Each query is answered for its own index, from the rows that were opened for it.
pub proof fn law_queries_are_answered_apart<Proof>(
    proofs: Seq<QueryProof<Proof>>,
    opened: Seq<Vec<(Vec<Vec<Ext>>, Proof)>>,
    query_indices: Seq<usize>,
    q: int,
    i: int,
)
    requires
        all_answered(proofs, opened, query_indices),
        0 <= q < query_indices.len(),
        0 <= i < opened[q]@.len(),
        opened[q]@[i].0@.len() == 1,
        opened[q]@[i].0@[0]@.len() == 2,
    ensures
        proofs.len() == query_indices.len(),
        proofs[q].commit_phase_openings@.len() == opened[q]@.len(),
        proofs[q].commit_phase_openings@[i].opening_proof == opened[q]@[i].1,
        proofs[q].commit_phase_openings@[i].sibling_value == opened[q]@[i].0@[0]@[1 - (
        query_indices[q] as nat / pow2(i as nat)) % 2],
{
    assert(are_answers(proofs[q], opened[q]@, query_indices[q] as nat));
    law_answers_complete_pairs(proofs[q], opened[q]@, query_indices[q] as nat, i);
}

} // verus!
