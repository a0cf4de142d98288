//! The quotient of the folded constraints by the vanishing polynomial of the trace domain.

use vstd::prelude::*;
use vstd::arithmetic::div_mod::*;
use vstd::arithmetic::power2::*;
use p3_baby_bear::BabyBear;
use p3_commit::{PolynomialSpace, TwoAdicMultiplicativeCoset};
use p3_field::{AbstractField, PrimeField32};
use crate::babybear::{Felt, P};
use crate::barycentric;
use crate::bits;
use crate::builder;
use crate::builder::{BuilderSpec, ConstraintBuilder, SepticDigest};
use crate::chip::{Air, Chip};
use crate::compile;
use crate::constraints;
use crate::domain;
use crate::domain::TwoAdic;
use crate::ext;
use crate::ext::Ext;
use crate::field::Field;
use crate::folder;
use crate::folder::ConstraintFolder;
use crate::lde::Coset;
use crate::lookup::InteractionScope;
use crate::matrix::Matrix;
use crate::program::Window;
use crate::ring;
use crate::ring::Ring;

verus! {

/// `x^n - 1`, which vanishes on the subgroup of order `n = 2^log_n`.
pub open spec fn vanishing(log_n: nat, x: Felt) -> Felt {
    ring::minus(ring::pow(x, pow2(log_n)), Felt::one_spec())
}

/// The last element of the subgroup of order `2^log_n`: the inverse of its generator.
pub open spec fn last_point(log_n: nat) -> Felt {
    ring::pow(Felt::root(log_n), (pow2(log_n) - 1) as nat)
}

/// Point `i` of a coset.
pub open spec fn point(coset: Coset, i: int) -> Felt {
    barycentric::coset_point(coset.shift, coset.log_n as nat, i as nat)
}

/// The row selectors on a coset.
#[derive(Debug)]
pub struct Selectors {
    pub is_first_row: Vec<Felt>,
    pub is_last_row: Vec<Felt>,
    pub is_transition: Vec<Felt>,
    /// The inverses of the vanishing polynomial.
    pub inv_zeroifier: Vec<Felt>,
}

impl Selectors {
    pub open spec fn has_size(&self, n: nat) -> bool {
        &&& self.is_first_row@.len() == n
        &&& self.is_last_row@.len() == n
        &&& self.is_transition@.len() == n
        &&& self.inv_zeroifier@.len() == n
    }
}

/// Whether the selectors of the subgroup of order `2^log_n` exist on a coset: it is at least as
/// large as the subgroup, and does not meet it.
pub open spec fn selectable(trace: Coset, coset: Coset) -> bool {
    &&& ring::reduced(trace.shift) == Felt::one_spec()
    &&& trace.log_n <= coset.log_n <= 27
    &&& forall|i: int|
        0 <= i < pow2(coset.log_n as nat) ==> vanishing(
            trace.log_n as nat,
            #[trigger] point(coset, i),
        ) != Felt::zero_spec()
}

/// Calls `selectors_on_coset` of `p3_commit::PolynomialSpace` on a subgroup: at each point `x` of
/// the coset, with `z` the vanishing polynomial there, the selector of the first row is
/// `z / (x - 1)`, that of the last row `z / (x - g)`, that of the transitions `x - g`, where `g`
/// is the last point of the subgroup, and the last one is `1 / z`. The results are in canonical
/// form.
#[verifier::external_body]
pub(crate) fn selectors_on_coset(trace: Coset, coset: Coset) -> (r: Selectors)
    requires
        selectable(trace, coset),
    ensures
        r.has_size(pow2(coset.log_n as nat)),
        forall|i: int|
            0 <= i < pow2(coset.log_n as nat) ==> (#[trigger] r.is_first_row@[i]).times(
                ring::minus(point(coset, i), Felt::one_spec()),
            ) == vanishing(trace.log_n as nat, point(coset, i)) && r.is_first_row@[i].value
                < P,
        forall|i: int|
            0 <= i < pow2(coset.log_n as nat) ==> (#[trigger] r.is_last_row@[i]).times(
                ring::minus(point(coset, i), last_point(trace.log_n as nat)),
            ) == vanishing(trace.log_n as nat, point(coset, i)) && r.is_last_row@[i].value
                < P,
        forall|i: int|
            0 <= i < pow2(coset.log_n as nat) ==> #[trigger] r.is_transition@[i] == ring::minus(
                point(coset, i),
                last_point(trace.log_n as nat),
            ),
        forall|i: int|
            0 <= i < pow2(coset.log_n as nat) ==> (#[trigger] r.inv_zeroifier@[i]).times(
                vanishing(trace.log_n as nat, point(coset, i)),
            ) == Felt::one_spec() && r.inv_zeroifier@[i].value < P,
{
    let wide = |c: Coset| TwoAdicMultiplicativeCoset {
        log_n: c.log_n,
        shift: BabyBear::from_wrapped_u32(c.shift.value),
    };
    let narrow = |v: Vec<BabyBear>| -> Vec<Felt> {
        v.into_iter().map(|x| Felt { value: x.as_canonical_u32() }).collect()
    };
    let s = wide(trace).selectors_on_coset(wide(coset));
    Selectors {
        is_first_row: narrow(s.is_first_row),
        is_last_row: narrow(s.is_last_row),
        is_transition: narrow(s.is_transition),
        inv_zeroifier: narrow(s.inv_zeroifier),
    }
}

/// The preprocessed row: a single zero where there is no preprocessed trace.
pub open spec fn prep_row(preprocessed: Option<Matrix<Felt>>, i: int) -> Seq<Felt> {
    match preprocessed {
        Some(m) => m.row(i),
        None => seq![Felt::zero_spec()],
    }
}

pub open spec fn prep_width(preprocessed: Option<Matrix<Felt>>) -> nat {
    match preprocessed {
        Some(m) => m.width as nat,
        None => 1,
    }
}

/// The rows and selectors at point `i` of a domain of `size` points, where the next row of the
/// trace is `step` points away.
pub open spec fn quotient_window(
    preprocessed: Option<Matrix<Felt>>,
    main: Matrix<Felt>,
    perm: Matrix<Felt>,
    sels: Selectors,
    size: int,
    step: int,
    i: int,
) -> Window {
    let j = (i + step) % size;
    Window {
        prep_local: prep_row(preprocessed, i),
        prep_next: prep_row(preprocessed, j),
        main_local: main.row(i),
        main_next: main.row(j),
        perm_local: perm.row(i),
        perm_next: perm.row(j),
        selectors: seq![sels.is_first_row@[i], sels.is_last_row@[i], sels.is_transition@[i]],
    }
}

/// Row `i`.
fn row_of(mat: &Matrix<Felt>, i: usize) -> (r: Vec<Felt>)
    requires
        mat.width > 0,
        i < mat.rows(),
    ensures
        r@ == mat.row(i as int),
{
    let mut r: Vec<Felt> = Vec::new();
    let mut j: usize = 0;
    while j < mat.width
        invariant
            j <= mat.width,
            mat.width > 0,
            i < mat.rows(),
            r@ == mat.row(i as int).take(j as int),
        decreases mat.width - j,
    {
        r.push(mat.get(i, j));
        j = j + 1;
        assert(r@ =~= mat.row(i as int).take(j as int));
    }
    assert(mat.row(i as int).take(j as int) =~= mat.row(i as int));
    r
}

fn prep_row_of(preprocessed: &Option<Matrix<Felt>>, i: usize) -> (r: Vec<Felt>)
    requires
        preprocessed matches Some(m) ==> m.width > 0 && i < m.rows(),
    ensures
        r@ == prep_row(*preprocessed, i as int),
{
    match preprocessed {
        Some(m) => row_of(m, i),
        None => {
            let mut r: Vec<Felt> = Vec::new();
            r.push(Felt::zero());
            assert(r@ =~= seq![Felt::zero_spec()]);
            r
        },
    }
}

/// Row `i`, with four columns for each extension element.
fn ext_row_of(mat: &Matrix<Felt>, i: usize) -> (r: Vec<Ext>)
    requires
        mat.width > 0,
        mat.width % 4 == 0,
        i < mat.rows(),
    ensures
        r@.len() * 4 == mat.width,
        folder::flatten(r@) == mat.row(i as int),
{
    let n: usize = mat.width / 4;
    let mut r: Vec<Ext> = Vec::new();
    let mut c: usize = 0;
    while c < n
        invariant
            c <= n,
            n * 4 == mat.width,
            mat.width > 0,
            i < mat.rows(),
            r@.len() == c,
            forall|k: int|
                0 <= k < c ==> #[trigger] r@[k] == builder::ext_at(mat.row(i as int), k),
        decreases n - c,
    {
        let x = Ext {
            c0: mat.get(i, 4 * c),
            c1: mat.get(i, 4 * c + 1),
            c2: mat.get(i, 4 * c + 2),
            c3: mat.get(i, 4 * c + 3),
        };
        r.push(x);
        c = c + 1;
    }
    proof {
        let flat = folder::flatten(r@);
        let row = mat.row(i as int);
        assert forall|k: int| 0 <= k < flat.len() implies flat[k] == row[k] by {
            let q = k / 4;
            assert(r@[q] == builder::ext_at(row, q));
            assert(k == 4 * q + k % 4);
        }
        assert(flat =~= row);
    }
    r
}

/// What the quotient asks of a chip and its traces.
pub open spec fn divisible<A: Air>(
    chip: Chip<A>,
    scope: InteractionScope,
    preprocessed: Option<Matrix<Felt>>,
    main: Matrix<Felt>,
    perm: Matrix<Felt>,
    size: nat,
    challenges: nat,
    public_values: nat,
) -> bool {
    &&& preprocessed matches Some(m) ==> m.width > 0 && size <= m.rows()
    &&& main.width > 0
    &&& size <= main.rows()
    &&& perm.width > 0
    &&& perm.width == 4 * chip.perm_width()
    &&& size <= perm.rows()
    &&& compile::compilable(
        chip,
        prep_width(preprocessed),
        main.width as nat,
        scope,
        challenges,
        public_values,
    )
}

/// The quotient at each point, given the selectors there: the folded constraints of the row,
/// times the inverse of the vanishing polynomial.
pub fn quotient_values_with<A: Air>(
    chip: &Chip<A>,
    commit_scope: InteractionScope,
    local_cumulative_sum: Ext,
    global_cumulative_sum: SepticDigest,
    sels: &Selectors,
    size: usize,
    next_step: usize,
    preprocessed: &Option<Matrix<Felt>>,
    main: &Matrix<Felt>,
    perm: &Matrix<Felt>,
    perm_challenges: &Vec<Ext>,
    alpha: Ext,
    public_values: &Vec<Felt>,
) -> (r: Vec<Ext>)
    requires
        size > 0,
        size + next_step <= usize::MAX,
        sels.has_size(size as nat),
        divisible(
            *chip,
            commit_scope,
            *preprocessed,
            *main,
            *perm,
            size as nat,
            perm_challenges@.len(),
            public_values@.len(),
        ),
    ensures
        r@.len() == size,
        forall|i: int|
            0 <= i < size ==> #[trigger] r@[i] == compile::folded_constraints(
                *chip,
                commit_scope,
                perm_challenges@,
                local_cumulative_sum,
                global_cumulative_sum,
                alpha,
                main.width as nat,
                public_values@,
                quotient_window(
                    *preprocessed,
                    *main,
                    *perm,
                    *sels,
                    size as int,
                    next_step as int,
                    i,
                ),
            ).times(ext::embed(sels.inv_zeroifier@[i])),
{
    let mut r: Vec<Ext> = Vec::new();
    let mut i: usize = 0;
    while i < size
        invariant
            i <= size,
            size > 0,
            size + next_step <= usize::MAX,
            sels.has_size(size as nat),
            divisible(
                *chip,
                commit_scope,
                *preprocessed,
                *main,
                *perm,
                size as nat,
                perm_challenges@.len(),
                public_values@.len(),
            ),
            r@.len() == i,
            forall|k: int|
                0 <= k < i ==> #[trigger] r@[k] == compile::folded_constraints(
                    *chip,
                    commit_scope,
                    perm_challenges@,
                    local_cumulative_sum,
                    global_cumulative_sum,
                    alpha,
                    main.width as nat,
                    public_values@,
                    quotient_window(
                        *preprocessed,
                        *main,
                        *perm,
                        *sels,
                        size as int,
                        next_step as int,
                        k,
                    ),
                ).times(ext::embed(sels.inv_zeroifier@[k])),
        decreases size - i,
    {
        let j: usize = (i + next_step) % size;
        let prep_local = prep_row_of(preprocessed, i);
        let prep_next = prep_row_of(preprocessed, j);
        let main_local = row_of(main, i);
        let main_next = row_of(main, j);
        let perm_local = ext_row_of(perm, i);
        let perm_next = ext_row_of(perm, j);
        let mut folder = ConstraintFolder {
            preprocessed_local: prep_local.as_slice(),
            preprocessed_next: prep_next.as_slice(),
            main_local: main_local.as_slice(),
            main_next: main_next.as_slice(),
            perm_local: perm_local.as_slice(),
            perm_next: perm_next.as_slice(),
            perm_challenges,
            local_cumulative_sum,
            global_cumulative_sum,
            is_first_row: sels.is_first_row[i],
            is_last_row: sels.is_last_row[i],
            is_transition: sels.is_transition[i],
            alpha,
            accumulator: Ext::zero(),
        };
        let ghost f0 = folder;
        let ghost env = quotient_window(
            *preprocessed,
            *main,
            *perm,
            *sels,
            size as int,
            next_step as int,
            i as int,
        );
        assert(folder.env() =~= env);
        compile::eval_chip(chip, commit_scope, public_values, &mut folder);
        proof {
            assert(f0.accepts(env));
            assert(folder.acc(env) == compile::folded_constraints(
                *chip,
                commit_scope,
                perm_challenges@,
                local_cumulative_sum,
                global_cumulative_sum,
                alpha,
                main.width as nat,
                public_values@,
                env,
            ));
        }
        r.push(folder.accumulator.mul(Ext::from_base(sels.inv_zeroifier[i])));
        i = i + 1;
    }
    r
}

/// What the quotient on a domain asks of a chip and its traces.
pub open spec fn quotient_ok<A: Air>(
    chip: Chip<A>,
    scope: InteractionScope,
    trace_domain: Coset,
    quotient_domain: Coset,
    preprocessed: Option<Matrix<Felt>>,
    main: Matrix<Felt>,
    perm: Matrix<Felt>,
    challenges: nat,
    public_values: nat,
) -> bool {
    &&& selectable(trace_domain, quotient_domain)
    &&& divisible(
        chip,
        scope,
        preprocessed,
        main,
        perm,
        pow2(quotient_domain.log_n as nat),
        challenges,
        public_values,
    )
}

/// The distance of a row's point to that of the next row, on the larger domain.
pub open spec fn step(trace_domain: Coset, quotient_domain: Coset) -> nat {
    pow2((quotient_domain.log_n - trace_domain.log_n) as nat)
}

/// Computes the quotient of the folded constraints by the vanishing polynomial, at each point of
/// the quotient domain.
pub fn quotient_values<A: Air>(
    chip: &Chip<A>,
    commit_scope: InteractionScope,
    local_cumulative_sum: Ext,
    global_cumulative_sum: SepticDigest,
    trace_domain: Coset,
    quotient_domain: Coset,
    preprocessed_trace_on_quotient_domain: &Option<Matrix<Felt>>,
    main_trace_on_quotient_domain: &Matrix<Felt>,
    permutation_trace_on_quotient_domain: &Matrix<Felt>,
    perm_challenges: &Vec<Ext>,
    alpha: Ext,
    public_values: &Vec<Felt>,
) -> (r: Vec<Ext>)
    requires
        quotient_ok(
            *chip,
            commit_scope,
            trace_domain,
            quotient_domain,
            *preprocessed_trace_on_quotient_domain,
            *main_trace_on_quotient_domain,
            *permutation_trace_on_quotient_domain,
            perm_challenges@.len(),
            public_values@.len(),
        ),
    ensures
        r@.len() == pow2(quotient_domain.log_n as nat),
        exists|sels: Selectors| #[trigger]
            is_quotient(
                r@,
                *chip,
                commit_scope,
                local_cumulative_sum,
                global_cumulative_sum,
                trace_domain,
                quotient_domain,
                *preprocessed_trace_on_quotient_domain,
                *main_trace_on_quotient_domain,
                *permutation_trace_on_quotient_domain,
                perm_challenges@,
                alpha,
                public_values@,
                sels,
            ),
{
    let sels: Selectors = selectors_on_coset(trace_domain, quotient_domain);
    let qdb: usize = quotient_domain.log_n - trace_domain.log_n;
    proof {
        bits::lemma_pow2_fits(quotient_domain.log_n as nat);
        bits::lemma_pow2_fits(qdb as nat);
        vstd::layout::unsigned_int_max_values();
        vstd::bits::lemma_usize_shl_is_mul(1, quotient_domain.log_n);
        vstd::bits::lemma_usize_shl_is_mul(1, qdb);
        lemma_pow2_pos(quotient_domain.log_n as nat);
        lemma_sum_fits(quotient_domain.log_n as nat, qdb as nat);
    }
    let size: usize = 1 << quotient_domain.log_n;
    let next_step: usize = 1 << qdb;
    let r = quotient_values_with(
        chip,
        commit_scope,
        local_cumulative_sum,
        global_cumulative_sum,
        &sels,
        size,
        next_step,
        preprocessed_trace_on_quotient_domain,
        main_trace_on_quotient_domain,
        permutation_trace_on_quotient_domain,
        perm_challenges,
        alpha,
        public_values,
    );
    proof {
        assert forall|i: int| 0 <= i < size implies (#[trigger] r@[i]).times(
            ext::embed(vanishing(trace_domain.log_n as nat, point(quotient_domain, i))),
        ) == ring::reduced(
            compile::folded_constraints(
                *chip,
                commit_scope,
                perm_challenges@,
                local_cumulative_sum,
                global_cumulative_sum,
                alpha,
                main_trace_on_quotient_domain.width as nat,
                public_values@,
                quotient_window(
                    *preprocessed_trace_on_quotient_domain,
                    *main_trace_on_quotient_domain,
                    *permutation_trace_on_quotient_domain,
                    sels,
                    size as int,
                    next_step as int,
                    i,
                ),
            ),
        ) by {
            let x = compile::folded_constraints(
                *chip,
                commit_scope,
                perm_challenges@,
                local_cumulative_sum,
                global_cumulative_sum,
                alpha,
                main_trace_on_quotient_domain.width as nat,
                public_values@,
                quotient_window(
                    *preprocessed_trace_on_quotient_domain,
                    *main_trace_on_quotient_domain,
                    *permutation_trace_on_quotient_domain,
                    sels,
                    size as int,
                    next_step as int,
                    i,
                ),
            );
            let inv = sels.inv_zeroifier@[i];
            let z = vanishing(trace_domain.log_n as nat, point(quotient_domain, i));
            assert(inv.times(z) == Felt::one_spec());
            ext::lemma_embed(inv, z);
            Ext::law_mul_assoc(x, ext::embed(inv), ext::embed(z));
            assert(ext::embed(Felt::one_spec()) == Ext::one_spec());
            ring::lemma_mul_one(x);
        }
        assert(is_quotient(
            r@,
            *chip,
            commit_scope,
            local_cumulative_sum,
            global_cumulative_sum,
            trace_domain,
            quotient_domain,
            *preprocessed_trace_on_quotient_domain,
            *main_trace_on_quotient_domain,
            *permutation_trace_on_quotient_domain,
            perm_challenges@,
            alpha,
            public_values@,
            sels,
        ));
    }
    r
}

proof fn lemma_sum_fits(a: nat, b: nat)
    requires
        a <= 27,
        b <= a,
    ensures
        pow2(a) + pow2(b) <= 0x1000_0000,
{
    if a < 27 {
        lemma_pow2_strictly_increases(a, 27);
    }
    if b < a {
        lemma_pow2_strictly_increases(b, a);
    }
    lemma2_to64();
}

/// What selectors of the trace domain are at a point of the quotient domain.
pub open spec fn selects(sels: Selectors, trace_domain: Coset, x: Felt, i: int) -> bool {
    let z = vanishing(trace_domain.log_n as nat, x);
    let last = last_point(trace_domain.log_n as nat);
    &&& sels.is_first_row@[i].times(ring::minus(x, Felt::one_spec())) == z
    &&& sels.is_last_row@[i].times(ring::minus(x, last)) == z
    &&& sels.is_transition@[i] == ring::minus(x, last)
    &&& sels.inv_zeroifier@[i].times(z) == Felt::one_spec()
    &&& sels.is_first_row@[i].value < P
    &&& sels.is_last_row@[i].value < P
    &&& sels.inv_zeroifier@[i].value < P
}

/// Whether the values are those of the quotient: with the selectors of the trace domain, each one
/// times the vanishing polynomial is the folded constraints of its row.
pub open spec fn is_quotient<A: Air>(
    values: Seq<Ext>,
    chip: Chip<A>,
    scope: InteractionScope,
    local_sum: Ext,
    digest: SepticDigest,
    trace_domain: Coset,
    quotient_domain: Coset,
    preprocessed: Option<Matrix<Felt>>,
    main: Matrix<Felt>,
    perm: Matrix<Felt>,
    challenges: Seq<Ext>,
    alpha: Ext,
    public_values: Seq<Felt>,
    sels: Selectors,
) -> bool {
    let size = pow2(quotient_domain.log_n as nat);
    &&& sels.has_size(size)
    &&& forall|i: int|
        0 <= i < size ==> selects(sels, trace_domain, #[trigger] point(quotient_domain, i), i)
    &&& forall|i: int|
        0 <= i < size ==> {
            let folded = compile::folded_constraints(
                chip,
                scope,
                challenges,
                local_sum,
                digest,
                alpha,
                main.width as nat,
                public_values,
                quotient_window(
                    preprocessed,
                    main,
                    perm,
                    sels,
                    size as int,
                    step(trace_domain, quotient_domain) as int,
                    i,
                ),
            );
            &&& #[trigger] values[i] == folded.times(ext::embed(sels.inv_zeroifier@[i]))
            &&& values[i].times(
                ext::embed(vanishing(trace_domain.log_n as nat, point(quotient_domain, i))),
            ) == ring::reduced(folded)
        }
}

/// The point of the row after that of point `i`: on the larger domain it is as many points away as the
/// domain is larger, and around the end.
pub proof fn law_next_row_is_next_point(trace_domain: Coset, quotient_domain: Coset, i: int)
    requires
        trace_domain.log_n <= quotient_domain.log_n <= 27,
        0 <= i < pow2(quotient_domain.log_n as nat),
    ensures
        point(
            quotient_domain,
            (i + step(trace_domain, quotient_domain)) % (pow2(
                quotient_domain.log_n as nat,
            ) as int),
        ) == point(quotient_domain, i).times(Felt::root(trace_domain.log_n as nat)),
{
    let n = quotient_domain.log_n as nat;
    let d = (quotient_domain.log_n - trace_domain.log_n) as nat;
    let size = pow2(n) as int;
    let w = Felt::root(n);
    let s = pow2(d);
    lemma_pow2_pos(n);
    lemma_pow2_pos(d);
    domain::lemma_root_pow2::<Felt>(n, d);
    let h = Felt::root((n - d) as nat);
    assert(h == ring::pow(w, s));
    let k = i + s;
    let j = k % size;
    let q = k / size;
    lemma_fundamental_div_mod(k, size);
    lemma_mod_bound(k, size);
    lemma_div_pos_is_pos(k, size);
    // w^k = (w^size)^q w^j
    domain::lemma_root_order::<Felt>(n);
    ring::lemma_pow_pow(w, size as nat, q as nat);
    ring::lemma_pow_base_one::<Felt>(q as nat);
    ring::lemma_pow_add(w, (size * q) as nat, j as nat);
    vstd::arithmetic::mul::lemma_mul_nonnegative(size, q);
    ring::lemma_mul_one(ring::pow(w, j as nat));
    ring::lemma_pow_reduced(w, j as nat);
    assert(ring::pow(w, k as nat) == ring::pow(w, j as nat));
    ring::lemma_pow_add(w, i as nat, s);
    let (a, b) = (ring::pow(w, i as nat), quotient_domain.shift);
    ring::lemma_mul_left_comm(a, h, b);
    assert(a.times(h).times(b) == a.times(b).times(h));
}

/// The last point of the trace domain is the one before the first: its successor is one.
pub proof fn law_last_point_wraps(log_n: nat)
    requires
        log_n <= 27,
    ensures
        last_point(log_n).times(Felt::root(log_n)) == Felt::one_spec(),
        vanishing(log_n, Felt::one_spec()) == Felt::zero_spec(),
        vanishing(log_n, last_point(log_n)) == Felt::zero_spec(),
{
    let w = Felt::root(log_n);
    let n = pow2(log_n);
    lemma_pow2_pos(log_n);
    domain::lemma_root_order::<Felt>(log_n);
    assert(ring::pow(w, n) == ring::pow(w, (n - 1) as nat).times(w));
    ring::lemma_pow_base_one::<Felt>(n);
    ring::lemma_sub_self(Felt::one_spec());
    ring::lemma_pow_pow(w, (n - 1) as nat, n);
    ring::lemma_pow_pow(w, n, (n - 1) as nat);
    vstd::arithmetic::mul::lemma_mul_is_commutative(n as int, n - 1);
    ring::lemma_pow_base_one::<Felt>((n - 1) as nat);
}

/// What the quotient of a chip is. At each point, it times the vanishing polynomial of the trace domain
/// is the sum of all constraints, each times a power of `alpha` that falls from constraint to
/// constraint: first those of the chip itself, then those of its local interactions. The constraints
/// are taken on the row of that point and the row of the next, with selectors that vanish on the trace
/// domain but at its first point, but at its last, and only at its last.
pub proof fn law_quotient_divides_constraints<A: Air>(
    values: Seq<Ext>,
    chip: Chip<A>,
    scope: InteractionScope,
    local_sum: Ext,
    digest: SepticDigest,
    trace_domain: Coset,
    quotient_domain: Coset,
    preprocessed: Option<Matrix<Felt>>,
    main: Matrix<Felt>,
    perm: Matrix<Felt>,
    challenges: Seq<Ext>,
    alpha: Ext,
    public_values: Seq<Felt>,
    sels: Selectors,
    i: int,
) -> (r: (Window, int))
    requires
        is_quotient(
            values,
            chip,
            scope,
            local_sum,
            digest,
            trace_domain,
            quotient_domain,
            preprocessed,
            main,
            perm,
            challenges,
            alpha,
            public_values,
            sels,
        ),
        trace_domain.log_n <= quotient_domain.log_n <= 27,
        0 <= i < pow2(quotient_domain.log_n as nat),
    ensures
        ({
            let (env, j) = r;
            let x = point(quotient_domain, i);
            let n = trace_domain.log_n as nat;
            let zero = ring::minus(ring::pow(x, pow2(n)), Felt::one_spec());
            let last = ring::pow(Felt::root(n), (pow2(n) - 1) as nat);
            let sends = Seq::new(chip.local_sends@.len(), |k: int| &chip.local_sends@[k]);
            let receives = Seq::new(chip.local_receives@.len(), |k: int| &chip.local_receives@[k]);
            let all = chip.air.constraints(env, public_values)
                + constraints::permutation_constraints(
                sends,
                receives,
                chip.logup_batch_size as nat,
                scope,
                challenges,
                local_sum,
                digest,
                main.width as nat,
                env,
            );
            &&& 0 <= j < pow2(quotient_domain.log_n as nat)
            &&& point(quotient_domain, j) == x.times(Felt::root(n))
            &&& env.main_local == main.row(i) && env.main_next == main.row(j)
            &&& env.perm_local == perm.row(i) && env.perm_next == perm.row(j)
            &&& preprocessed matches Some(m) ==> env.prep_local == m.row(i) && env.prep_next
                == m.row(j)
            &&& preprocessed is None ==> env.prep_local == seq![Felt::zero_spec()] && env.prep_next
                == seq![Felt::zero_spec()]
            &&& env.selectors.len() == 3
            &&& env.selectors[0].times(ring::minus(x, Felt::one_spec())) == zero
            &&& env.selectors[1].times(ring::minus(x, last)) == zero
            &&& env.selectors[2] == ring::minus(x, last)
            &&& values[i].times(ext::embed(zero)) == ring::sum(
                all.len(),
                |k: int| all[k].times(ring::pow(alpha, (all.len() - 1 - k) as nat)),
            )
        }),
{
    let size = pow2(quotient_domain.log_n as nat) as int;
    let s = step(trace_domain, quotient_domain) as int;
    let env = quotient_window(preprocessed, main, perm, sels, size, s, i);
    let j = (i + s) % size;
    lemma_pow2_pos(quotient_domain.log_n as nat);
    lemma_mod_bound(i + s, size);
    law_next_row_is_next_point(trace_domain, quotient_domain, i);
    assert(selects(sels, trace_domain, point(quotient_domain, i), i));
    let sends = Seq::new(chip.local_sends@.len(), |k: int| &chip.local_sends@[k]);
    let receives = Seq::new(chip.local_receives@.len(), |k: int| &chip.local_receives@[k]);
    assert(chip.sends() =~= sends);
    assert(chip.receives() =~= receives);
    let all = compile::chip_constraints(
        chip,
        scope,
        challenges,
        local_sum,
        digest,
        main.width as nat,
        public_values,
        env,
    );
    let zero = Ext::zero_spec();
    Ext::law_constants();
    builder::law_fold_is_polynomial(zero, alpha, all, all.len());
    let f = |k: int| all[k].times(ring::pow(alpha, (all.len() - 1 - k) as nat));
    ring::lemma_mul_zero(ring::pow(alpha, all.len()));
    ring::lemma_zero_left(ring::sum(all.len(), f));
    ring::lemma_sum_reduced(all.len(), f);
    (env, j)
}

} // verus!
