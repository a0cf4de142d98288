//! The quotient and opening rounds of proving a shard.

use vstd::prelude::*;
use vstd::arithmetic::div_mod::*;
use vstd::arithmetic::power2::*;
use crate::babybear::{Felt, P};
use crate::bits;
use crate::builder::SepticDigest;
use crate::chip::Air;
use crate::cosets;
use crate::dispatch::ChipDispatch;
use crate::domain::TwoAdic;
use crate::ext;
use crate::ext::Ext;
use crate::field::Field;
use crate::folder;
use crate::ir;
use crate::lde;
use crate::lde::Coset;
use crate::matrix::Matrix;
use crate::memory;
use crate::names::NameMap;
use crate::prover;
use crate::prover::ShardChip;
use crate::quotient;
use crate::quotient::Selectors;
use crate::ring::Ring;

verus! {

/// The domain of the quotient of a chip.
pub fn quotient_domain(trace_domain: &Coset, log_degree: usize, log_quotient_degree: usize) -> (r:
    Coset)
    requires
        log_degree + log_quotient_degree < usize::BITS,
    ensures
        r.log_n == log_degree + log_quotient_degree,
        r.shift == trace_domain.shift.times(lde::generator()),
{
    let k: usize = log_degree + log_quotient_degree;
    proof {
        bits::lemma_pow2_fits(k as nat);
        vstd::bits::lemma_usize_shl_is_mul(1, k);
    }
    let r = trace_domain.create_disjoint_domain(1 << k);
    proof {
        lemma_log2_ceil_pow2(r.log_n as nat, k as nat);
    }
    r
}

proof fn lemma_log2_ceil_pow2(r: nat, k: nat)
    requires
        cosets::is_log2_ceil(r, pow2(k)),
    ensures
        r == k,
{
    if r < k {
        lemma_pow2_strictly_increases(r, k);
    }
    if r > k && r - 1 > k {
        lemma_pow2_strictly_increases(k, (r - 1) as nat);
    }
}

/// The evaluations of the traces of a chip on its quotient domain.
pub struct ChipEvaluations {
    pub preprocessed: Option<Matrix<Felt>>,
    pub main: Matrix<Felt>,
    pub permutation: Matrix<Felt>,
}

/// What the quotients of a shard ask of its chips.
pub open spec fn round_divisible<A: Air>(
    chips: Seq<ShardChip<A>>,
    trace_domains: Seq<Coset>,
    quotient_domains: Seq<Coset>,
    evaluations: Seq<ChipEvaluations>,
    local_sums: Seq<Ext>,
    global_sums: Seq<SepticDigest>,
    challenges: nat,
    public_values: nat,
) -> bool {
    &&& trace_domains.len() == chips.len()
    &&& quotient_domains.len() == chips.len()
    &&& evaluations.len() == chips.len()
    &&& local_sums.len() == chips.len()
    &&& global_sums.len() == chips.len()
    &&& forall|i: int|
        0 <= i < chips.len() ==> quotient::quotient_ok(
            (#[trigger] chips[i]).chip,
            chips[i].commit_scope,
            trace_domains[i],
            quotient_domains[i],
            evaluations[i].preprocessed,
            evaluations[i].main,
            evaluations[i].permutation,
            challenges,
            public_values,
        )
}

/// Whether values are the quotient of a chip.
pub open spec fn is_quotient_of<A: Air>(
    values: Seq<Ext>,
    chip: ShardChip<A>,
    trace_domain: Coset,
    quotient_domain: Coset,
    evaluations: ChipEvaluations,
    local_sum: Ext,
    global_sum: SepticDigest,
    challenges: Seq<Ext>,
    alpha: Ext,
    public_values: Seq<Felt>,
) -> bool {
    &&& values.len() == pow2(quotient_domain.log_n as nat)
    &&& exists|sels: Selectors| #[trigger]
        quotient::is_quotient(
            values,
            chip.chip,
            chip.commit_scope,
            local_sum,
            global_sum,
            trace_domain,
            quotient_domain,
            evaluations.preprocessed,
            evaluations.main,
            evaluations.permutation,
            challenges,
            alpha,
            public_values,
            sels,
        )
}

/// Computes the quotient of each chip of a shard.
pub fn quotient_round<A: Air>(
    chips: &Vec<ShardChip<A>>,
    trace_domains: &Vec<Coset>,
    quotient_domains: &Vec<Coset>,
    evaluations: &Vec<ChipEvaluations>,
    local_sums: &Vec<Ext>,
    global_sums: &Vec<SepticDigest>,
    challenges: &Vec<Ext>,
    alpha: Ext,
    public_values: &Vec<Felt>,
) -> (r: Vec<Vec<Ext>>)
    requires
        round_divisible(
            chips@,
            trace_domains@,
            quotient_domains@,
            evaluations@,
            local_sums@,
            global_sums@,
            challenges@.len(),
            public_values@.len(),
        ),
    ensures
        r@.len() == chips@.len(),
        forall|i: int|
            0 <= i < chips@.len() ==> is_quotient_of(
                (#[trigger] r@[i])@,
                chips@[i],
                trace_domains@[i],
                quotient_domains@[i],
                evaluations@[i],
                local_sums@[i],
                global_sums@[i],
                challenges@,
                alpha,
                public_values@,
            ),
{
    let mut r: Vec<Vec<Ext>> = Vec::new();
    let mut i: usize = 0;
    while i < chips.len()
        invariant
            i <= chips@.len(),
            round_divisible(
                chips@,
                trace_domains@,
                quotient_domains@,
                evaluations@,
                local_sums@,
                global_sums@,
                challenges@.len(),
                public_values@.len(),
            ),
            r@.len() == i,
            forall|k: int|
                0 <= k < i ==> is_quotient_of(
                    (#[trigger] r@[k])@,
                    chips@[k],
                    trace_domains@[k],
                    quotient_domains@[k],
                    evaluations@[k],
                    local_sums@[k],
                    global_sums@[k],
                    challenges@,
                    alpha,
                    public_values@,
                ),
        decreases chips@.len() - i,
    {
        assert(quotient::quotient_ok(
            chips@[i as int].chip,
            chips@[i as int].commit_scope,
            trace_domains@[i as int],
            quotient_domains@[i as int],
            evaluations@[i as int].preprocessed,
            evaluations@[i as int].main,
            evaluations@[i as int].permutation,
            challenges@.len(),
            public_values@.len(),
        ));
        let values = quotient::quotient_values(
            &chips[i].chip,
            chips[i].commit_scope,
            local_sums[i],
            global_sums[i],
            trace_domains[i],
            quotient_domains[i],
            &evaluations[i].preprocessed,
            &evaluations[i].main,
            &evaluations[i].permutation,
            challenges,
            alpha,
            public_values,
        );
        r.push(values);
        i = i + 1;
    }
    r
}

/// The number of quotient chunks of the first `n` chips.
pub open spec fn chunk_offset(log_degrees: Seq<usize>, n: nat) -> nat
    decreases n,
{
    if n == 0 {
        0
    } else {
        chunk_offset(log_degrees, (n - 1) as nat) + pow2(log_degrees[n - 1] as nat)
    }
}

/// Whether a matrix holds every `step`-th of some extension elements, from number `j` on, four
/// columns for each.
pub open spec fn is_ext_chunk(chunk: Matrix<Felt>, values: Seq<Ext>, step: int, j: int) -> bool {
    &&& chunk.width == 4
    &&& chunk.values@.len() == (values.len() as int / step) * 4
    &&& forall|k: int, c: int|
        0 <= k < values.len() as int / step && 0 <= c < 4 ==> #[trigger] chunk.at(k, c)
            == ir::coordinates(values[k * step + j])[c]
}

/// What splitting the quotients asks of them.
pub open spec fn splittable(
    domains: Seq<Coset>,
    values: Seq<Vec<Ext>>,
    log_degrees: Seq<usize>,
) -> bool {
    &&& values.len() == domains.len()
    &&& log_degrees.len() == domains.len()
    &&& forall|i: int|
        0 <= i < domains.len() ==> {
            &&& log_degrees[i] <= (#[trigger] domains[i]).log_n <= 27
            &&& values[i]@.len() == pow2(domains[i].log_n as nat)
        }
}

/// Whether the chunks of chip `i` are in their place.
pub open spec fn chunks_of(
    chunks: Seq<(Coset, Matrix<Felt>)>,
    domain: Coset,
    values: Seq<Ext>,
    log_degree: usize,
    offset: nat,
) -> bool {
    forall|j: int|
        0 <= j < pow2(log_degree as nat) ==> {
            &&& (#[trigger] chunks[offset + j]).0 == cosets::chunk_domain(
                domain,
                log_degree as nat,
                j as nat,
            )
            &&& is_ext_chunk(
                chunks[offset + j].1,
                values,
                pow2(log_degree as nat) as int,
                j,
            )
        }
}

/// Splits the quotient of a chip into chunks of the degree of its trace.
fn split_one(domain: Coset, values: &Vec<Ext>, log_degree: usize) -> (r: Vec<(Coset, Matrix<Felt>)>)
    requires
        log_degree <= domain.log_n <= 27,
        values@.len() == pow2(domain.log_n as nat),
    ensures
        r@.len() == pow2(log_degree as nat),
        chunks_of(r@, domain, values@, log_degree, 0),
{
    proof {
        bits::lemma_pow2_fits(log_degree as nat);
        vstd::bits::lemma_usize_shl_is_mul(1, log_degree);
        lemma_pow2_pos(log_degree as nat);
        lemma_pow2_pos(domain.log_n as nat);
        bits::lemma_log2_pow2(log_degree as nat);
    }
    let degree: usize = 1 << log_degree;
    let flat = Matrix { values: prover::flatten_values(values), width: 4 };
    proof {
        let n = values@.len() as int;
        assert(flat.values@.len() == 4 * n);
        assert((4 * n) % 4 == 0 && (4 * n) / 4 == n);
        assert(flat.rows() == n);
        lemma_pow2_adds((domain.log_n - log_degree) as nat, log_degree as nat);
        lemma_mod_multiples_basic(pow2((domain.log_n - log_degree) as nat) as int, degree as int);
    }
    let mut domains = domain.split_domains(degree);
    let mut mats = domain.split_evals(degree, &flat);
    let ghost all_domains = domains@;
    let ghost all_mats = mats@;
    let mut r: Vec<(Coset, Matrix<Felt>)> = Vec::new();
    let mut j: usize = 0;
    while j < degree
        invariant
            j <= degree,
            degree == pow2(log_degree as nat),
            all_domains.len() == degree,
            all_mats.len() == degree,
            domains@ == all_domains,
            mats@ == all_mats.skip(j as int),
            r@.len() == j,
            forall|q: int| 0 <= q < j ==> #[trigger] r@[q] == (all_domains[q], all_mats[q]),
        decreases degree - j,
    {
        let m = mats.remove(0);
        assert(m == all_mats[j as int]);
        assert(mats@ =~= all_mats.skip(j + 1));
        r.push((domains[j], m));
        j = j + 1;
    }
    proof {
        assert forall|q: int| 0 <= q < pow2(log_degree as nat) implies {
            &&& (#[trigger] r@[0 + q]).0 == cosets::chunk_domain(
                domain,
                log_degree as nat,
                q as nat,
            )
            &&& is_ext_chunk(r@[0 + q].1, values@, pow2(log_degree as nat) as int, q)
        } by {
            assert(r@[q] == (all_domains[q], all_mats[q]));
            assert(all_domains[q] == cosets::chunk_domain(domain, log_degree as nat, q as nat));
            lemma_ext_chunk(all_mats[q], flat, values@, degree as int, q);
        }
    }
    r
}

proof fn lemma_ext_chunk(chunk: Matrix<Felt>, flat: Matrix<Felt>, values: Seq<Ext>, step: int, j: int)
    requires
        step > 0,
        0 <= j < step,
        flat.width == 4,
        flat.values@ == folder::flatten(values),
        values.len() as int % step == 0,
        cosets::is_chunk(chunk, flat, step, j),
    ensures
        is_ext_chunk(chunk, values, step, j),
{
    let n = values.len() as int;
    assert((4 * n) / 4 == n);
    assert(flat.rows() == n);
    assert forall|k: int, c: int| 0 <= k < n / step && 0 <= c < 4 implies #[trigger] chunk.at(k, c)
        == ir::coordinates(values[k * step + j])[c] by {
        let row = k * step + j;
        lemma_fundamental_div_mod(n, step);
        assert(0 <= row < n) by (nonlinear_arith)
            requires
                0 <= k < n / step,
                0 <= j < step,
                n == step * (n / step) + n % step,
                n % step == 0,
                row == k * step + j,
        ;
        assert(flat.at(row, c) == folder::flatten(values)[row * 4 + c]);
        assert((row * 4 + c) / 4 == row && (row * 4 + c) % 4 == c);
    }
}

/// Splits the quotients of a shard: the chunks of each chip with their domains, one chip after the
/// other.
pub fn quotient_chunks(
    domains: &Vec<Coset>,
    values: &Vec<Vec<Ext>>,
    log_degrees: &Vec<usize>,
) -> (r: Vec<(Coset, Matrix<Felt>)>)
    requires
        splittable(domains@, values@, log_degrees@),
    ensures
        r@.len() == chunk_offset(log_degrees@, domains@.len()),
        forall|i: int|
            0 <= i < domains@.len() ==> chunks_of(
                r@,
                domains@[i],
                (#[trigger] values@[i])@,
                log_degrees@[i],
                chunk_offset(log_degrees@, i as nat),
            ),
{
    let mut r: Vec<(Coset, Matrix<Felt>)> = Vec::new();
    let mut i: usize = 0;
    while i < domains.len()
        invariant
            i <= domains@.len(),
            splittable(domains@, values@, log_degrees@),
            r@.len() == chunk_offset(log_degrees@, i as nat),
            forall|k: int|
                0 <= k < i ==> chunks_of(
                    r@,
                    domains@[k],
                    (#[trigger] values@[k])@,
                    log_degrees@[k],
                    chunk_offset(log_degrees@, k as nat),
                ),
        decreases domains@.len() - i,
    {
        assert(log_degrees@[i as int] <= domains@[i as int].log_n);
        let ghost before = r@;
        let mut one = split_one(domains[i], &values[i], log_degrees[i]);
        let ghost chunks = one@;
        r.append(&mut one);
        proof {
            let off = chunk_offset(log_degrees@, i as nat);
            assert forall|k: int| 0 <= k < i + 1 implies chunks_of(
                r@,
                domains@[k],
                (#[trigger] values@[k])@,
                log_degrees@[k],
                chunk_offset(log_degrees@, k as nat),
            ) by {
                if k < i {
                    lemma_offset_monotone(log_degrees@, (k + 1) as nat, i as nat);
                    let o = chunk_offset(log_degrees@, k as nat);
                    assert forall|j: int| 0 <= j < pow2(log_degrees@[k] as nat) implies {
                        &&& (#[trigger] r@[o + j]).0 == cosets::chunk_domain(
                            domains@[k],
                            log_degrees@[k] as nat,
                            j as nat,
                        )
                        &&& is_ext_chunk(
                            r@[o + j].1,
                            values@[k]@,
                            pow2(log_degrees@[k] as nat) as int,
                            j,
                        )
                    } by {
                        assert(r@[o + j] == before[o + j]);
                    }
                } else {
                    assert forall|j: int| 0 <= j < pow2(log_degrees@[k] as nat) implies {
                        &&& (#[trigger] r@[off + j]).0 == cosets::chunk_domain(
                            domains@[k],
                            log_degrees@[k] as nat,
                            j as nat,
                        )
                        &&& is_ext_chunk(
                            r@[off + j].1,
                            values@[k]@,
                            pow2(log_degrees@[k] as nat) as int,
                            j,
                        )
                    } by {
                        assert(r@[off + j] == chunks[0 + j]);
                    }
                }
            }
        }
        i = i + 1;
    }
    r
}

proof fn lemma_offset_monotone(log_degrees: Seq<usize>, a: nat, b: nat)
    requires
        a <= b,
    ensures
        chunk_offset(log_degrees, a) <= chunk_offset(log_degrees, b),
    decreases b,
{
    if a < b {
        lemma_offset_monotone(log_degrees, a, (b - 1) as nat);
    }
}

/// The bytes of elements, lowest first, of their canonical forms: the first `n`.
pub open spec fn element_bytes(xs: Seq<Felt>, n: nat) -> Seq<u8>
    decreases n,
{
    if n == 0 {
        Seq::empty()
    } else {
        element_bytes(xs, (n - 1) as nat) + memory::le_bytes(xs[n - 1].value % P)
    }
}

/// The bytes of the first `n` chunks.
pub open spec fn chunk_bytes(chunks: Seq<(Coset, Matrix<Felt>)>, n: nat) -> Seq<u8>
    decreases n,
{
    if n == 0 {
        Seq::empty()
    } else {
        chunk_bytes(chunks, (n - 1) as nat) + element_bytes(
            chunks[n - 1].1.values@,
            chunks[n - 1].1.values@.len(),
        )
    }
}

/// The digest that BLAKE3 gives.
pub uninterp spec fn blake3_digest(bytes: Seq<u8>) -> Seq<u8>;

/// Calls `blake3::hash`: the digest, of thirty-two bytes.
#[verifier::external_body]
fn blake3_hash(bytes: &Vec<u8>) -> (r: Vec<u8>)
    ensures
        r@ == blake3_digest(bytes@),
        r@.len() == 32,
{
    blake3::hash(bytes).as_bytes().to_vec()
}

/// All values of the chunks, as bytes.
pub fn quotient_bytes(chunks: &Vec<(Coset, Matrix<Felt>)>) -> (r: Vec<u8>)
    ensures
        r@ == chunk_bytes(chunks@, chunks@.len()),
{
    let mut r: Vec<u8> = Vec::new();
    let mut i: usize = 0;
    while i < chunks.len()
        invariant
            i <= chunks@.len(),
            r@ == chunk_bytes(chunks@, i as nat),
        decreases chunks@.len() - i,
    {
        let values: &Vec<Felt> = &chunks[i].1.values;
        let ghost before = r@;
        let mut k: usize = 0;
        assert(r@ =~= before + element_bytes(values@, 0));
        while k < values.len()
            invariant
                k <= values@.len(),
                r@ == before + element_bytes(values@, k as nat),
            decreases values@.len() - k,
        {
            let b = memory::to_le_bytes(values[k].value % P);
            r.push(b[0]);
            r.push(b[1]);
            r.push(b[2]);
            r.push(b[3]);
            k = k + 1;
            assert(r@ =~= before + element_bytes(values@, k as nat));
        }
        i = i + 1;
    }
    r
}

/// The digest of all values of the chunks.
pub fn quotient_hash(chunks: &Vec<(Coset, Matrix<Felt>)>) -> (r: Vec<u8>)
    ensures
        r@ == blake3_digest(chunk_bytes(chunks@, chunks@.len())),
        r@.len() == 32,
{
    let bytes = quotient_bytes(chunks);
    blake3_hash(&bytes)
}

/// Chunks with fewer rows than this may be left out of a commitment.
pub const TIERED_QUOTIENT_THRESHOLD: usize = 256;

/// The first `n` chunks without the small ones.
pub open spec fn large_chunks(chunks: Seq<(Coset, Matrix<Felt>)>, n: nat) -> Seq<(Coset, Matrix<Felt>)>
    decreases n,
{
    if n == 0 {
        Seq::empty()
    } else {
        let rest = large_chunks(chunks, (n - 1) as nat);
        if chunks[n - 1].1.rows() < TIERED_QUOTIENT_THRESHOLD {
            rest
        } else {
            rest.push(chunks[n - 1])
        }
    }
}

/// Leaves out the small chunks, and counts them.
pub fn filter_small_chunks(chunks: Vec<(Coset, Matrix<Felt>)>) -> (r: (
    Vec<(Coset, Matrix<Felt>)>,
    usize,
))
    requires
        forall|i: int| 0 <= i < chunks@.len() ==> (#[trigger] chunks@[i]).1.width > 0,
    ensures
        r.0@ == large_chunks(chunks@, chunks@.len()),
        r.1 == chunks@.len() - r.0@.len(),
{
    let ghost all = chunks@;
    let n: usize = chunks.len();
    let mut left = chunks;
    let mut kept: Vec<(Coset, Matrix<Felt>)> = Vec::new();
    let mut skipped: usize = 0;
    while left.len() > 0
        invariant
            n == all.len(),
            left@.len() <= n,
            left@ == all.skip(n - left@.len()),
            kept@ == large_chunks(all, (n - left@.len()) as nat),
            skipped + kept@.len() + left@.len() == n,
            forall|i: int| 0 <= i < all.len() ==> (#[trigger] all[i]).1.width > 0,
        decreases left@.len(),
    {
        let ghost i = n - left@.len();
        let chunk = left.remove(0);
        assert(chunk == all[i]);
        assert(left@ =~= all.skip(i + 1));
        if chunk.1.height() < TIERED_QUOTIENT_THRESHOLD {
            skipped = skipped + 1;
        } else {
            kept.push(chunk);
        }
    }
    (kept, skipped)
}

/// The number of chunks of all chips.
pub fn expected_chunks(log_degrees: &Vec<usize>) -> (r: usize)
    requires
        forall|i: int| 0 <= i < log_degrees@.len() ==> #[trigger] log_degrees@[i] < usize::BITS,
        chunk_offset(log_degrees@, log_degrees@.len()) <= usize::MAX,
    ensures
        r == chunk_offset(log_degrees@, log_degrees@.len()),
{
    let mut r: usize = 0;
    let mut i: usize = 0;
    while i < log_degrees.len()
        invariant
            i <= log_degrees@.len(),
            forall|i: int| 0 <= i < log_degrees@.len() ==> #[trigger] log_degrees@[i] < usize::BITS,
            chunk_offset(log_degrees@, log_degrees@.len()) <= usize::MAX,
            r == chunk_offset(log_degrees@, i as nat),
        decreases log_degrees@.len() - i,
    {
        let k: usize = log_degrees[i];
        proof {
            bits::lemma_pow2_fits(k as nat);
            vstd::bits::lemma_usize_shl_is_mul(1, k);
            lemma_offset_monotone(log_degrees@, (i + 1) as nat, log_degrees@.len());
        }
        r = r + (1 << k);
        i = i + 1;
    }
    r
}

/// The points at which a trace is opened: `zeta`, and the point after it where the constraints read
/// the next row.
pub open spec fn points(domain: Coset, zeta: Ext, local_only: bool) -> Seq<Ext> {
    if local_only {
        seq![zeta]
    } else {
        seq![zeta, zeta.times(ext::embed(Felt::root(domain.log_n as nat)))]
    }
}

fn points_of(domain: &Coset, zeta: Ext, local_only: bool) -> (r: Vec<Ext>)
    requires
        domain.log_n <= 27,
    ensures
        r@ == points(*domain, zeta, local_only),
{
    let mut r: Vec<Ext> = Vec::new();
    r.push(zeta);
    if !local_only {
        r.push(domain.next_point(zeta));
    }
    assert(r@ =~= points(*domain, zeta, local_only));
    r
}

/// The points at which the traces of a round are opened.
pub fn opening_points(domains: &Vec<Coset>, local_only: &Vec<bool>, zeta: Ext) -> (r: Vec<Vec<Ext>>)
    requires
        local_only@.len() == domains@.len(),
        forall|i: int| 0 <= i < domains@.len() ==> (#[trigger] domains@[i]).log_n <= 27,
    ensures
        r@.len() == domains@.len(),
        forall|i: int|
            0 <= i < r@.len() ==> (#[trigger] r@[i])@ == points(
                domains@[i],
                zeta,
                local_only@[i],
            ),
{
    let mut r: Vec<Vec<Ext>> = Vec::new();
    let mut i: usize = 0;
    while i < domains.len()
        invariant
            i <= domains@.len(),
            local_only@.len() == domains@.len(),
            forall|i: int| 0 <= i < domains@.len() ==> (#[trigger] domains@[i]).log_n <= 27,
            r@.len() == i,
            forall|k: int|
                0 <= k < i ==> (#[trigger] r@[k])@ == points(domains@[k], zeta, local_only@[k]),
        decreases domains@.len() - i,
    {
        assert(domains@[i as int].log_n <= 27);
        r.push(points_of(&domains[i], zeta, local_only[i]));
        i = i + 1;
    }
    r
}

/// The points at which permutation traces are opened: always both.
pub fn permutation_opening_points(domains: &Vec<Coset>, zeta: Ext) -> (r: Vec<Vec<Ext>>)
    requires
        forall|i: int| 0 <= i < domains@.len() ==> (#[trigger] domains@[i]).log_n <= 27,
    ensures
        r@.len() == domains@.len(),
        forall|i: int|
            0 <= i < r@.len() ==> (#[trigger] r@[i])@ == points(domains@[i], zeta, false),
{
    let mut r: Vec<Vec<Ext>> = Vec::new();
    let mut i: usize = 0;
    while i < domains.len()
        invariant
            i <= domains@.len(),
            forall|i: int| 0 <= i < domains@.len() ==> (#[trigger] domains@[i]).log_n <= 27,
            r@.len() == i,
            forall|k: int|
                0 <= k < i ==> (#[trigger] r@[k])@ == points(domains@[k], zeta, false),
        decreases domains@.len() - i,
    {
        assert(domains@[i as int].log_n <= 27);
        r.push(points_of(&domains[i], zeta, false));
        i = i + 1;
    }
    r
}

/// The point at which every quotient chunk is opened.
pub fn quotient_opening_points(num_chunks: usize, zeta: Ext) -> (r: Vec<Vec<Ext>>)
    ensures
        r@.len() == num_chunks,
        forall|i: int| 0 <= i < num_chunks ==> (#[trigger] r@[i])@ == seq![zeta],
{
    let mut r: Vec<Vec<Ext>> = Vec::new();
    let mut i: usize = 0;
    while i < num_chunks
        invariant
            i <= num_chunks,
            r@.len() == i,
            forall|k: int| 0 <= k < i ==> (#[trigger] r@[k])@ == seq![zeta],
        decreases num_chunks - i,
    {
        let mut one: Vec<Ext> = Vec::new();
        one.push(zeta);
        assert(one@ =~= seq![zeta]);
        r.push(one);
        i = i + 1;
    }
    r
}

/// The values of a trace at `zeta` and at the point after it.
#[derive(Debug)]
pub struct AirOpenedValues {
    pub local: Vec<Ext>,
    pub next: Vec<Ext>,
}

impl AirOpenedValues {
    /// Whether these are opened values; where only the local row was opened, the next one is zero.
    pub open spec fn holds(&self, opened: Seq<Vec<Ext>>, local_only: bool) -> bool {
        &&& self.local@ == opened[0]@
        &&& self.next@ == if local_only {
            Seq::new(opened[0]@.len(), |i: int| Ext::zero_spec())
        } else {
            opened[1]@
        }
    }
}

fn copy_row(xs: &Vec<Ext>) -> (r: Vec<Ext>)
    ensures
        r@ == xs@,
{
    let mut r: Vec<Ext> = Vec::new();
    let mut i: usize = 0;
    while i < xs.len()
        invariant
            i <= xs@.len(),
            r@ == xs@.take(i as int),
        decreases xs@.len() - i,
    {
        r.push(xs[i]);
        i = i + 1;
        assert(r@ =~= xs@.take(i as int));
    }
    assert(xs@.take(i as int) =~= xs@);
    r
}

/// Collects the opened values of a trace.
pub fn collect_air_values(opened: &Vec<Vec<Ext>>, local_only: bool) -> (r: AirOpenedValues)
    requires
        opened@.len() == if local_only {
            1
        } else {
            2int
        },
    ensures
        r.holds(opened@, local_only),
{
    let local = copy_row(&opened[0]);
    if local_only {
        let mut next: Vec<Ext> = Vec::new();
        let mut i: usize = 0;
        while i < local.len()
            invariant
                i <= local@.len(),
                next@ == Seq::new(i as nat, |k: int| Ext::zero_spec()),
            decreases local@.len() - i,
        {
            next.push(Ext::zero());
            i = i + 1;
            assert(next@ =~= Seq::new(i as nat, |k: int| Ext::zero_spec()));
        }
        AirOpenedValues { local, next }
    } else {
        AirOpenedValues { local, next: copy_row(&opened[1]) }
    }
}

/// The opened values of a chip.
#[derive(Debug)]
pub struct ChipOpenedValues {
    pub preprocessed: AirOpenedValues,
    pub main: AirOpenedValues,
    pub permutation: AirOpenedValues,
    /// The values of the quotient chunks.
    pub quotient: Vec<Vec<Ext>>,
    pub global_cumulative_sum: SepticDigest,
    pub local_cumulative_sum: Ext,
    pub log_degree: usize,
}

/// The openings of the four rounds: for each matrix, the values at each of its points.
pub struct RoundOpenings {
    pub preprocessed: Vec<Vec<Vec<Ext>>>,
    pub main: Vec<Vec<Vec<Ext>>>,
    pub permutation: Vec<Vec<Vec<Ext>>>,
    pub quotient: Vec<Vec<Vec<Ext>>>,
}

/// Whether as many values were opened as points were asked for.
pub open spec fn opened_at(opened: Seq<Vec<Vec<Ext>>>, local_only: Seq<bool>) -> bool {
    &&& opened.len() == local_only.len()
    &&& forall|i: int|
        0 <= i < opened.len() ==> (#[trigger] opened[i])@.len() == if local_only[i] {
            1
        } else {
            2int
        }
}

/// What collecting the opened values of a shard asks of them.
pub open spec fn collectable<A>(
    openings: RoundOpenings,
    chips: Seq<ShardChip<A>>,
    prep_local_only: Seq<bool>,
    prep_ordering: Map<Seq<char>, usize>,
    local_sums: Seq<Ext>,
    global_sums: Seq<SepticDigest>,
    log_degrees: Seq<usize>,
) -> bool {
    &&& opened_at(openings.preprocessed@, prep_local_only)
    &&& opened_at(openings.main@, Seq::new(chips.len(), |i: int| chips[i].local_only))
    &&& opened_at(openings.permutation@, Seq::new(chips.len(), |i: int| false))
    &&& openings.quotient@.len() >= chunk_offset(quotient_degrees(chips), chips.len())
    &&& forall|j: int|
        0 <= j < openings.quotient@.len() ==> (#[trigger] openings.quotient@[j])@.len() >= 1
    &&& forall|i: int| 0 <= i < chips.len() ==> (#[trigger] chips[i]).log_quotient_degree < usize::BITS
    &&& forall|k: Seq<char>| #[trigger]
        prep_ordering.contains_key(k) ==> prep_ordering[k] < openings.preprocessed@.len()
    &&& local_sums.len() == chips.len()
    &&& global_sums.len() == chips.len()
    &&& log_degrees.len() == chips.len()
}

pub open spec fn quotient_degrees<A>(chips: Seq<ShardChip<A>>) -> Seq<usize> {
    Seq::new(chips.len(), |i: int| chips[i].log_quotient_degree)
}

impl ChipOpenedValues {
    /// Whether these are the opened values of chip `i`.
    pub open spec fn holds<A>(
        &self,
        openings: RoundOpenings,
        chips: Seq<ShardChip<A>>,
        prep_local_only: Seq<bool>,
        prep_ordering: Map<Seq<char>, usize>,
        local_sums: Seq<Ext>,
        global_sums: Seq<SepticDigest>,
        log_degrees: Seq<usize>,
        i: int,
    ) -> bool {
        let name = chips[i].name@;
        let degree = pow2(chips[i].log_quotient_degree as nat);
        let offset = chunk_offset(quotient_degrees(chips), i as nat);
        &&& if prep_ordering.contains_key(name) {
            let index = prep_ordering[name] as int;
            self.preprocessed.holds(openings.preprocessed@[index]@, prep_local_only[index])
        } else {
            self.preprocessed.local@.len() == 0 && self.preprocessed.next@.len() == 0
        }
        &&& self.main.holds(openings.main@[i]@, chips[i].local_only)
        &&& self.permutation.holds(openings.permutation@[i]@, false)
        &&& self.quotient@.len() == degree
        &&& forall|j: int|
            0 <= j < degree ==> (#[trigger] self.quotient@[j])@ == openings.quotient@[offset
                + j]@.last()@
        &&& self.global_cumulative_sum == global_sums[i]
        &&& self.local_cumulative_sum == local_sums[i]
        &&& self.log_degree == log_degrees[i]
    }
}

/// Whether values are those that are collected from the openings of a shard.
pub open spec fn are_collected<A>(
    values: Seq<ChipOpenedValues>,
    openings: RoundOpenings,
    chips: Seq<ShardChip<A>>,
    prep_local_only: Seq<bool>,
    prep_ordering: Map<Seq<char>, usize>,
    local_sums: Seq<Ext>,
    global_sums: Seq<SepticDigest>,
    log_degrees: Seq<usize>,
) -> bool {
    &&& values.len() == chips.len()
    &&& forall|i: int|
        0 <= i < chips.len() ==> (#[trigger] values[i]).holds(
            openings,
            chips,
            prep_local_only,
            prep_ordering,
            local_sums,
            global_sums,
            log_degrees,
            i,
        )
}

/// Collects the opened values of each chip of a shard.
pub fn collect_opened_values<A>(
    openings: &RoundOpenings,
    chips: &Vec<ShardChip<A>>,
    prep_local_only: &Vec<bool>,
    prep_ordering: &NameMap,
    local_sums: &Vec<Ext>,
    global_sums: &Vec<SepticDigest>,
    log_degrees: &Vec<usize>,
) -> (r: Vec<ChipOpenedValues>)
    requires
        collectable(
            *openings,
            chips@,
            prep_local_only@,
            prep_ordering@,
            local_sums@,
            global_sums@,
            log_degrees@,
        ),
    ensures
        are_collected(
            r@,
            *openings,
            chips@,
            prep_local_only@,
            prep_ordering@,
            local_sums@,
            global_sums@,
            log_degrees@,
        ),
{
    let ghost degrees = quotient_degrees(chips@);
    let mut r: Vec<ChipOpenedValues> = Vec::new();
    let mut offset: usize = 0;
    let mut i: usize = 0;
    let total: usize = openings.quotient.len();
    while i < chips.len()
        invariant
            i <= chips@.len(),
            collectable(
                *openings,
                chips@,
                prep_local_only@,
                prep_ordering@,
                local_sums@,
                global_sums@,
                log_degrees@,
            ),
            degrees == quotient_degrees(chips@),
            total == openings.quotient@.len(),
            offset == chunk_offset(degrees, i as nat),
            r@.len() == i,
            forall|k: int|
                0 <= k < i ==> (#[trigger] r@[k]).holds(
                    *openings,
                    chips@,
                    prep_local_only@,
                    prep_ordering@,
                    local_sums@,
                    global_sums@,
                    log_degrees@,
                    k,
                ),
        decreases chips@.len() - i,
    {
        let k: usize = chips[i].log_quotient_degree;
        proof {
            assert(chips@[i as int].log_quotient_degree < usize::BITS);
            bits::lemma_pow2_fits(k as nat);
            vstd::bits::lemma_usize_shl_is_mul(1, k);
            lemma_offset_monotone(degrees, (i + 1) as nat, chips@.len());
        }
        let degree: usize = 1 << k;
        let preprocessed = match prep_ordering.get(&chips[i].name) {
            Some(index) => {
                assert(prep_ordering@.contains_key(chips@[i as int].name@));
                assert(openings.preprocessed@[index as int]@.len() >= 1);
                collect_air_values(&openings.preprocessed[index], prep_local_only[index])
            },
            None => AirOpenedValues { local: Vec::new(), next: Vec::new() },
        };
        assert(openings.main@[i as int]@.len() >= 1);
        assert(openings.permutation@[i as int]@.len() == 2);
        let main = collect_air_values(&openings.main[i], chips[i].local_only);
        let permutation = collect_air_values(&openings.permutation[i], false);
        let mut quotient: Vec<Vec<Ext>> = Vec::new();
        let mut j: usize = 0;
        while j < degree
            invariant
                j <= degree,
                offset + degree <= total,
                total == openings.quotient@.len(),
                forall|j: int|
                    0 <= j < openings.quotient@.len() ==> (
                    #[trigger] openings.quotient@[j])@.len() >= 1,
                quotient@.len() == j,
                forall|q: int|
                    0 <= q < j ==> (#[trigger] quotient@[q])@ == openings.quotient@[offset
                        + q]@.last()@,
            decreases degree - j,
        {
            let op: &Vec<Vec<Ext>> = &openings.quotient[offset + j];
            assert(openings.quotient@[offset + j]@.len() >= 1);
            let last: usize = op.len() - 1;
            quotient.push(copy_row(&op[last]));
            j = j + 1;
        }
        r.push(
            ChipOpenedValues {
                preprocessed,
                main,
                permutation,
                quotient,
                global_cumulative_sum: global_sums[i],
                local_cumulative_sum: local_sums[i],
                log_degree: log_degrees[i],
            },
        );
        offset = offset + degree;
        i = i + 1;
    }
    r
}

/// Parts the chips of a shard: those with a dispatch, with their numbers, and the numbers of the
/// others.
pub fn partition_dispatches(dispatches: Vec<Option<ChipDispatch>>) -> (r: (
    Vec<(usize, ChipDispatch)>,
    Vec<usize>,
))
    ensures
        r.0@ == dispatched(dispatches@, dispatches@.len()),
        r.1@ == left_over(dispatches@, dispatches@.len()),
{
    let ghost all = dispatches@;
    let n: usize = dispatches.len();
    let mut left = dispatches;
    let mut gpu: Vec<(usize, ChipDispatch)> = Vec::new();
    let mut cpu: Vec<usize> = Vec::new();
    let mut i: usize = 0;
    while left.len() > 0
        invariant
            n == all.len(),
            i + left@.len() == n,
            left@ == all.skip(i as int),
            gpu@ == dispatched(all, i as nat),
            cpu@ == left_over(all, i as nat),
        decreases left@.len(),
    {
        let one = left.remove(0);
        assert(one == all[i as int]);
        assert(left@ =~= all.skip(i + 1));
        match one {
            Some(d) => {
                gpu.push((i, d));
            },
            None => {
                cpu.push(i);
            },
        }
        i = i + 1;
    }
    (gpu, cpu)
}

/// The dispatches among the first `n` chips.
pub open spec fn dispatched(all: Seq<Option<ChipDispatch>>, n: nat) -> Seq<(usize, ChipDispatch)>
    decreases n,
{
    if n == 0 {
        Seq::empty()
    } else {
        let rest = dispatched(all, (n - 1) as nat);
        match all[n - 1] {
            Some(d) => rest.push(((n - 1) as usize, d)),
            None => rest,
        }
    }
}

/// The chips without a dispatch among the first `n`.
pub open spec fn left_over(all: Seq<Option<ChipDispatch>>, n: nat) -> Seq<usize>
    decreases n,
{
    if n == 0 {
        Seq::empty()
    } else {
        let rest = left_over(all, (n - 1) as nat);
        match all[n - 1] {
            Some(_) => rest,
            None => rest.push((n - 1) as usize),
        }
    }
}

/// Puts the quotients of both parts back in the order of the chips.
pub fn merge_results(n: usize, parts: Vec<(usize, Vec<Ext>)>) -> (r: Vec<Option<Vec<Ext>>>)
    requires
        forall|k: int| 0 <= k < parts@.len() ==> (#[trigger] parts@[k]).0 < n,
    ensures
        r@.len() == n,
        forall|i: int|
            0 <= i < n ==> #[trigger] r@[i] == last_part(parts@, i, parts@.len()),
{
    let mut r: Vec<Option<Vec<Ext>>> = Vec::new();
    let mut i: usize = 0;
    while i < n
        invariant
            i <= n,
            r@.len() == i,
            forall|k: int| 0 <= k < i ==> #[trigger] r@[k] == None::<Vec<Ext>>,
        decreases n - i,
    {
        r.push(None);
        i = i + 1;
    }
    let ghost all = parts@;
    let mut left = parts;
    let ghost mut k: nat = 0;
    while left.len() > 0
        invariant
            k + left@.len() == all.len(),
            left@ == all.skip(k as int),
            r@.len() == n,
            forall|k: int| 0 <= k < all.len() ==> (#[trigger] all[k]).0 < n,
            forall|i: int| 0 <= i < n ==> #[trigger] r@[i] == last_part(all, i, k),
        decreases left@.len(),
    {
        let (index, values) = left.remove(0);
        assert((index, values) == all[k as int]);
        assert(left@ =~= all.skip((k + 1) as int));
        let ghost before = r@;
        r.set(index, Some(values));
        proof {
            k = k + 1;
            assert forall|i: int| 0 <= i < n implies #[trigger] r@[i] == last_part(all, i, k) by {
                if i != index {
                    assert(r@[i] == before[i]);
                }
            }
        }
    }
    r
}

/// The last of the first `n` parts that belongs to chip `i`.
pub open spec fn last_part(parts: Seq<(usize, Vec<Ext>)>, i: int, n: nat) -> Option<Vec<Ext>>
    decreases n,
{
    if n == 0 {
        None
    } else if parts[n - 1].0 == i {
        Some(parts[n - 1].1)
    } else {
        last_part(parts, i, (n - 1) as nat)
    }
}

/// The chunks of a chip hold its quotient: each of its values stands in one of them, four elements of
/// the base field in a row, and the point of that row is the point that the value belongs to.
pub proof fn law_chunks_hold_quotient(
    chunks: Seq<(Coset, Matrix<Felt>)>,
    domain: Coset,
    values: Seq<Ext>,
    log_degree: usize,
    offset: nat,
    q: int,
) -> (r: (int, int))
    requires
        chunks_of(chunks, domain, values, log_degree, offset),
        log_degree <= domain.log_n <= 27,
        values.len() == pow2(domain.log_n as nat),
        0 <= q < values.len(),
    ensures
        0 <= r.0 < pow2(log_degree as nat),
        0 <= r.1 < pow2((domain.log_n - log_degree) as nat),
        chunks[offset + r.0].0.log_n == domain.log_n - log_degree,
        quotient::point(chunks[offset + r.0].0, r.1) == quotient::point(domain, q),
        chunks[offset + r.0].1.width == 4,
        chunks[offset + r.0].1.at(r.1, 0) == values[q].c0,
        chunks[offset + r.0].1.at(r.1, 1) == values[q].c1,
        chunks[offset + r.0].1.at(r.1, 2) == values[q].c2,
        chunks[offset + r.0].1.at(r.1, 3) == values[q].c3,
{
    let step = pow2(log_degree as nat) as int;
    let rows = pow2((domain.log_n - log_degree) as nat) as int;
    lemma_pow2_pos(log_degree as nat);
    lemma_pow2_adds((domain.log_n - log_degree) as nat, log_degree as nat);
    let (j, k) = (q % step, q / step);
    lemma_fundamental_div_mod(q, step);
    lemma_mod_bound(q, step);
    lemma_div_pos_is_pos(q, step);
    vstd::arithmetic::mul::lemma_mul_is_commutative(step, k);
    assert(k < rows) by (nonlinear_arith)
        requires
            q < rows * step,
            q == step * k + j,
            0 <= j,
            step > 0,
    ;
    lemma_div_multiples_vanish(rows, step);
    vstd::arithmetic::mul::lemma_mul_is_commutative(step, rows);
    let chunk = chunks[offset + j];
    cosets::law_split_points(domain, log_degree as nat, j as nat, k as nat);
    assert(chunk.0 == cosets::chunk_domain(domain, log_degree as nat, j as nat));
    assert(is_ext_chunk(chunk.1, values, step, j));
    assert(chunk.1.at(k, 0) == ir::coordinates(values[q])[0]);
    assert(chunk.1.at(k, 1) == ir::coordinates(values[q])[1]);
    assert(chunk.1.at(k, 2) == ir::coordinates(values[q])[2]);
    assert(chunk.1.at(k, 3) == ir::coordinates(values[q])[3]);
    (j, k)
}

/// Leaving out the small chunks goes chunk by chunk and keeps the order: what is kept of two lists in
/// a row is what is kept of the first and then what is kept of the second, and a chunk alone is kept
/// where it has two hundred and fifty-six rows or more.
pub proof fn law_large_chunks_are_kept(
    a: Seq<(Coset, Matrix<Felt>)>,
    b: Seq<(Coset, Matrix<Felt>)>,
)
    ensures
        large_chunks(a + b, (a + b).len()) == large_chunks(a, a.len()) + large_chunks(b, b.len()),
        a.len() == 1 && a[0].1.rows() >= 256 ==> large_chunks(a, a.len()) == a,
        a.len() == 1 && a[0].1.rows() < 256 ==> large_chunks(a, a.len()).len() == 0,
    decreases b.len(),
{
    reveal_with_fuel(large_chunks, 2);
    if b.len() == 0 {
        assert(a + b =~= a);
        assert(large_chunks(a, a.len()) + large_chunks(b, 0) =~= large_chunks(a, a.len()));
    } else {
        let rest = b.drop_last();
        law_large_chunks_are_kept(a, rest);
        lemma_large_chunks_prefix(a + b, a + rest, (a + rest).len());
        lemma_large_chunks_prefix(b, rest, rest.len());
        assert((a + b).last() == b.last());
        assert(large_chunks(a + b, (a + b).len()) =~= large_chunks(a, a.len()) + large_chunks(
            b,
            b.len(),
        ));
    }
}

proof fn lemma_large_chunks_prefix(
    a: Seq<(Coset, Matrix<Felt>)>,
    b: Seq<(Coset, Matrix<Felt>)>,
    n: nat,
)
    requires
        n <= a.len(),
        n <= b.len(),
        forall|i: int| 0 <= i < n ==> a[i] == b[i],
    ensures
        large_chunks(a, n) == large_chunks(b, n),
    decreases n,
{
    if n > 0 {
        lemma_large_chunks_prefix(a, b, (n - 1) as nat);
    }
}

/// A chunk that is kept is one of the chunks, and has enough rows.
pub proof fn lemma_kept_chunk(chunks: Seq<(Coset, Matrix<Felt>)>, n: nat, j: int) -> (k: int)
    requires
        n <= chunks.len(),
        0 <= j < large_chunks(chunks, n).len(),
    ensures
        0 <= k < n,
        large_chunks(chunks, n)[j] == chunks[k],
        chunks[k].1.rows() >= 256,
    decreases n,
{
    let rest = large_chunks(chunks, (n - 1) as nat);
    if j < rest.len() {
        lemma_kept_chunk(chunks, (n - 1) as nat, j)
    } else {
        n - 1
    }
}

/// The bytes of elements show each of them: there are four for each, and the four from number `4 i` on
/// are the value of element `i`, as the field knows it, lowest byte first.
pub proof fn law_bytes_show_elements(xs: Seq<Felt>, n: nat, i: int)
    requires
        0 <= i < n <= xs.len(),
    ensures
        element_bytes(xs, n).len() == 4 * n,
        element_bytes(xs, n)[4 * i] + 256 * element_bytes(xs, n)[4 * i + 1] + 65536
            * element_bytes(xs, n)[4 * i + 2] + 16777216 * element_bytes(xs, n)[4 * i + 3]
            == xs[i].value % P,
    decreases n,
{
    reveal_with_fuel(element_bytes, 2);
    let b = memory::le_bytes(xs[n - 1].value % P);
    let m = (n - 1) as nat;
    if i < m {
        law_bytes_show_elements(xs, m, i);
    } else {
        if m > 0 {
            law_bytes_show_elements(xs, m, 0);
        }
        memory::law_bytes_give_number(xs[n - 1].value % P);
        let all = element_bytes(xs, n);
        assert(all[4 * i] == b[0] && all[4 * i + 1] == b[1] && all[4 * i + 2] == b[2] && all[4 * i
            + 3] == b[3]);
    }
}

/// The bytes of two lists of chunks in a row are those of the first and then those of the second, and
/// the bytes of one chunk are those of its values.
pub proof fn law_bytes_of_chunks(a: Seq<(Coset, Matrix<Felt>)>, b: Seq<(Coset, Matrix<Felt>)>)
    ensures
        chunk_bytes(a + b, (a + b).len()) == chunk_bytes(a, a.len()) + chunk_bytes(b, b.len()),
        a.len() == 1 ==> chunk_bytes(a, a.len()) == element_bytes(
            a[0].1.values@,
            a[0].1.values@.len(),
        ),
    decreases b.len(),
{
    reveal_with_fuel(chunk_bytes, 2);
    if a.len() == 1 {
        let e = element_bytes(a[0].1.values@, a[0].1.values@.len());
        assert(Seq::<u8>::empty() + e =~= e);
    }
    if b.len() == 0 {
        assert(a + b =~= a);
        assert(chunk_bytes(a, a.len()) + chunk_bytes(b, 0) =~= chunk_bytes(a, a.len()));
    } else {
        let rest = b.drop_last();
        law_bytes_of_chunks(a, rest);
        lemma_chunk_bytes_prefix(a + b, a + rest, (a + rest).len());
        lemma_chunk_bytes_prefix(b, rest, rest.len());
        assert((a + b).last() == b.last());
        assert(chunk_bytes(a + b, (a + b).len()) =~= chunk_bytes(a, a.len()) + chunk_bytes(
            b,
            b.len(),
        ));
    }
}

proof fn lemma_chunk_bytes_prefix(
    a: Seq<(Coset, Matrix<Felt>)>,
    b: Seq<(Coset, Matrix<Felt>)>,
    n: nat,
)
    requires
        n <= a.len(),
        n <= b.len(),
        forall|i: int| 0 <= i < n ==> a[i] == b[i],
    ensures
        chunk_bytes(a, n) == chunk_bytes(b, n),
    decreases n,
{
    if n > 0 {
        lemma_chunk_bytes_prefix(a, b, (n - 1) as nat);
    }
}

/// Parting the chips loses none and doubles none: each chip stands once in one of the two lists, in
/// the first with its own dispatch where it has one, else in the second. Both lists keep the order of
/// the chips.
pub proof fn law_dispatches_part_chips(all: Seq<Option<ChipDispatch>>, n: nat)
    requires
        n <= all.len() <= usize::MAX,
    ensures
        dispatched(all, n).len() + left_over(all, n).len() == n,
        forall|k: int|
            0 <= k < dispatched(all, n).len() ==> {
                let (i, d) = #[trigger] dispatched(all, n)[k];
                i < n && all[i as int] == Some(d)
            },
        forall|k: int|
            0 <= k < left_over(all, n).len() ==> {
                let i = #[trigger] left_over(all, n)[k];
                i < n && all[i as int] is None
            },
        forall|j: int, k: int|
            0 <= j < k < dispatched(all, n).len() ==> (#[trigger] dispatched(all, n)[j]).0 < (
            #[trigger] dispatched(all, n)[k]).0,
        forall|j: int, k: int|
            0 <= j < k < left_over(all, n).len() ==> #[trigger] left_over(all, n)[j]
                < #[trigger] left_over(all, n)[k],
    decreases n,
{
    if n > 0 {
        law_dispatches_part_chips(all, (n - 1) as nat);
    }
}

/// Merging puts each part where it belongs: where no two parts are of one chip, the result of a chip
/// is the part that is of it, and there is none where no part is.
pub proof fn law_merged_parts_are_in_place(parts: Seq<(usize, Vec<Ext>)>, i: int, n: nat)
    requires
        n <= parts.len(),
        forall|j: int, k: int|
            0 <= j < k < parts.len() ==> (#[trigger] parts[j]).0 != (#[trigger] parts[k]).0,
    ensures
        forall|k: int|
            0 <= k < n && (#[trigger] parts[k]).0 == i ==> last_part(parts, i, n) == Some(parts[k].1),
        (forall|k: int| 0 <= k < n ==> (#[trigger] parts[k]).0 != i) ==> last_part(parts, i, n)
            == None::<Vec<Ext>>,
    decreases n,
{
    if n > 0 {
        law_merged_parts_are_in_place(parts, i, (n - 1) as nat);
    }
}

} // verus!
