//! The permutation trace of the LogUp argument.

use vstd::prelude::*;
use vstd::arithmetic::div_mod::*;
use vstd::arithmetic::mul::*;
use vstd::slice::slice_subrange;
use crate::babybear;
use crate::babybear::Felt;
use crate::denominators;
use crate::ext;
use crate::ext::Ext;
use crate::field::Field;
use crate::lde;
use crate::lookup;
use crate::lookup::{Interaction, InteractionScope};
use crate::matrix::Matrix;
use crate::ring;
use crate::ring::Ring;

verus! {

/// `ceil(a / b)`.
pub open spec fn ceil_div(a: nat, b: nat) -> nat {
    if a % b == 0 {
        a / b
    } else {
        a / b + 1
    }
}

/// The width of the local permutation trace, in extension elements.
pub open spec fn trace_width(nb_interactions: nat, batch_size: nat) -> nat {
    if nb_interactions == 0 {
        0
    } else {
        ceil_div(nb_interactions, batch_size) + 1
    }
}

/// Computes the width of the local permutation trace: a column per batch of interactions, and one
/// for the running sum.
pub fn local_permutation_trace_width(nb_interactions: usize, batch_size: usize) -> (r: usize)
    requires
        nb_interactions > 0 ==> batch_size > 0,
        nb_interactions < usize::MAX,
    ensures
        r == trace_width(nb_interactions as nat, batch_size as nat),
{
    if nb_interactions == 0 {
        return 0;
    }
    proof {
        lemma_div_is_ordered_by_denominator(nb_interactions as int, 1, batch_size as int);
        if batch_size > 1 {
            lemma_div_decreases(nb_interactions as int, batch_size as int);
        }
        assert(nb_interactions % 1 == 0);
    }
    let full: usize = nb_interactions / batch_size;
    if nb_interactions % batch_size == 0 {
        full + 1
    } else {
        full + 1 + 1
    }
}

/// The fingerprint of an interaction with its first `n` values:
/// `alpha + index + beta v_0 + .. + beta^n v_(n-1)`.
pub open spec fn fingerprint(
    msg: Interaction,
    prep: Seq<Felt>,
    main: Seq<Felt>,
    alpha: Ext,
    beta: Ext,
    n: nat,
) -> Ext
    decreases n,
{
    if n == 0 {
        alpha.plus(
            ring::pow(beta, 0).times(ext::embed(babybear::felt(msg.argument_index as int))),
        )
    } else {
        fingerprint(msg, prep, main, alpha, beta, (n - 1) as nat).plus(
            ring::pow(beta, n).times(ext::embed(msg.values@[n - 1].value(prep, main))),
        )
    }
}

/// The random linear combination of an interaction's kind and values.
pub open spec fn rlc(msg: Interaction, prep: Seq<Felt>, main: Seq<Felt>, alpha: Ext, beta: Ext) -> Ext {
    fingerprint(msg, prep, main, alpha, beta, msg.values@.len())
}

/// How often an interaction occurs, negative for a receive.
pub open spec fn signed_multiplicity(
    msg: Interaction,
    is_send: bool,
    prep: Seq<Felt>,
    main: Seq<Felt>,
) -> Felt {
    let m = msg.multiplicity.value(prep, main);
    if is_send {
        m
    } else {
        m.negated()
    }
}

/// The interaction with number `k`, sends first.
pub open spec fn nth(sends: Seq<&Interaction>, receives: Seq<&Interaction>, k: int) -> (Interaction, bool) {
    if k < sends.len() {
        (*sends[k], true)
    } else {
        (*receives[k - sends.len()], false)
    }
}

/// The product of the first `n` elements.
pub open spec fn product(d: Seq<Ext>, n: nat) -> Ext
    decreases n,
{
    if n == 0 {
        Ext::one_spec()
    } else {
        product(d, (n - 1) as nat).times(d[n - 1])
    }
}

/// The product of the first `n` elements but that at `i`.
pub open spec fn product_but(d: Seq<Ext>, i: int, n: nat) -> Ext
    decreases n,
{
    if n == 0 {
        Ext::one_spec()
    } else if n - 1 == i {
        product_but(d, i, (n - 1) as nat)
    } else {
        product_but(d, i, (n - 1) as nat).times(d[n - 1])
    }
}

/// `sum_i m_i prod_(j != i) d_j`.
pub open spec fn numerator(d: Seq<Ext>, m: Seq<Felt>) -> Ext {
    ring::sum(d.len(), |i: int| ext::embed(m[i]).times(product_but(d, i, d.len())))
}

/// The number of interactions in batch `c`.
pub open spec fn batch_len(total: nat, batch_size: nat, c: int) -> nat {
    if (c + 1) * batch_size <= total {
        batch_size
    } else {
        (total - c * batch_size) as nat
    }
}

/// The combinations of the interactions of batch `c`.
pub open spec fn batch_denominators(
    sends: Seq<&Interaction>,
    receives: Seq<&Interaction>,
    batch_size: nat,
    prep: Seq<Felt>,
    main: Seq<Felt>,
    alpha: Ext,
    beta: Ext,
    c: int,
) -> Seq<Ext> {
    Seq::new(
        batch_len(sends.len() + receives.len(), batch_size, c),
        |i: int| rlc(nth(sends, receives, c * batch_size + i).0, prep, main, alpha, beta),
    )
}

/// The multiplicities of the interactions of batch `c`.
pub open spec fn batch_multiplicities(
    sends: Seq<&Interaction>,
    receives: Seq<&Interaction>,
    batch_size: nat,
    prep: Seq<Felt>,
    main: Seq<Felt>,
    c: int,
) -> Seq<Felt> {
    Seq::new(
        batch_len(sends.len() + receives.len(), batch_size, c),
        |i: int|
            {
                let (msg, is_send) = nth(sends, receives, c * batch_size + i);
                signed_multiplicity(msg, is_send, prep, main)
            },
    )
}

/// The entry of batch `c`: `sum_i m_i / d_i`, over a common denominator.
pub open spec fn batch_value(
    sends: Seq<&Interaction>,
    receives: Seq<&Interaction>,
    batch_size: nat,
    prep: Seq<Felt>,
    main: Seq<Felt>,
    alpha: Ext,
    beta: Ext,
    c: int,
) -> Ext {
    let d = batch_denominators(sends, receives, batch_size, prep, main, alpha, beta, c);
    let m = batch_multiplicities(sends, receives, batch_size, prep, main, c);
    numerator(d, m).times(ring::inv(product(d, d.len())))
}

/// The interactions read columns that exist, the batches are not empty, and none is larger than
/// eight.
pub open spec fn interactions_ok(
    sends: Seq<&Interaction>,
    receives: Seq<&Interaction>,
    batch_size: nat,
    prep_width: nat,
    main_width: nat,
) -> bool {
    &&& forall|i: int|
        0 <= i < sends.len() ==> (#[trigger] sends[i]).in_range(prep_width, main_width)
    &&& forall|i: int|
        0 <= i < receives.len() ==> (#[trigger] receives[i]).in_range(prep_width, main_width)
    &&& batch_size > 0
    &&& batch_size <= 8 || sends.len() + receives.len() <= 8
    &&& sends.len() + receives.len() < usize::MAX
}

/// The powers `beta^0, .., beta^(n - 1)`.
pub(crate) fn powers_of(beta: Ext, n: usize) -> (r: Vec<Ext>)
    ensures
        r@ == Seq::new(n as nat, |i: int| ring::pow(beta, i as nat)),
{
    let mut r: Vec<Ext> = Vec::new();
    let mut current: Ext = Ext::one();
    let mut i: usize = 0;
    while i < n
        invariant
            i <= n,
            current == ring::pow(beta, i as nat),
            r@ == Seq::new(i as nat, |k: int| ring::pow(beta, k as nat)),
        decreases n - i,
    {
        r.push(current);
        current = current.mul(beta);
        i = i + 1;
        assert(r@ =~= Seq::new(i as nat, |k: int| ring::pow(beta, k as nat)));
    }
    r
}

/// The combination of an interaction's kind and values on a row.
fn combine(
    msg: &Interaction,
    prep: &[Felt],
    main: &[Felt],
    alpha: Ext,
    beta_powers: &Vec<Ext>,
    Ghost(beta): Ghost<Ext>,
) -> (r: Ext)
    requires
        msg.in_range(prep@.len(), main@.len()),
        beta_powers@.len() > msg.values@.len(),
        forall|i: int|
            0 <= i < beta_powers@.len() ==> #[trigger] beta_powers@[i] == ring::pow(beta, i as nat),
    ensures
        r == rlc(*msg, prep@, main@, alpha, beta),
{
    let index = Felt { value: msg.argument_index as u32 };
    assert(index == babybear::felt(msg.argument_index as int));
    let mut r: Ext = alpha.add(beta_powers[0].mul(Ext::from_base(index)));
    let mut j: usize = 0;
    while j < msg.values.len()
        invariant
            j <= msg.values@.len(),
            msg.in_range(prep@.len(), main@.len()),
            beta_powers@.len() > msg.values@.len(),
            forall|i: int|
                0 <= i < beta_powers@.len() ==> #[trigger] beta_powers@[i] == ring::pow(
                    beta,
                    i as nat,
                ),
            r == fingerprint(*msg, prep@, main@, alpha, beta, j as nat),
        decreases msg.values@.len() - j,
    {
        assert(msg.values@[j as int].in_range(prep@.len(), main@.len()));
        r = r.add(beta_powers[j + 1].mul(Ext::from_base(msg.values[j].apply(prep, main))));
        j = j + 1;
    }
    r
}

/// How often an interaction occurs on a row, negative for a receive.
fn signed(msg: &Interaction, is_send: bool, prep: &[Felt], main: &[Felt]) -> (r: Felt)
    requires
        msg.in_range(prep@.len(), main@.len()),
    ensures
        r == signed_multiplicity(*msg, is_send, prep@, main@),
{
    let m: Felt = msg.multiplicity.apply(prep, main);
    if is_send {
        m
    } else {
        m.neg()
    }
}

/// Fingerprints are reduced.
pub proof fn lemma_rlc_reduced(msg: Interaction, prep: Seq<Felt>, main: Seq<Felt>, alpha: Ext, beta: Ext)
    ensures
        ring::reduced(rlc(msg, prep, main, alpha, beta)) == rlc(msg, prep, main, alpha, beta),
{
    let n = msg.values@.len();
    if n == 0 {
        ring::lemma_add_reduced(
            alpha,
            ring::pow(beta, 0).times(ext::embed(babybear::felt(msg.argument_index as int))),
        );
    } else {
        ring::lemma_add_reduced(
            fingerprint(msg, prep, main, alpha, beta, (n - 1) as nat),
            ring::pow(beta, n).times(ext::embed(msg.values@[n - 1].value(prep, main))),
        );
    }
}

/// The batches are within the interactions.
pub proof fn lemma_batches(total: nat, batch_size: nat, c: int)
    requires
        total > 0,
        batch_size > 0,
        0 <= c < ceil_div(total, batch_size),
    ensures
        0 <= c * batch_size < total,
        0 < batch_len(total, batch_size, c) <= batch_size,
        c * batch_size + batch_len(total, batch_size, c) <= total,
        batch_len(total, batch_size, c) == if total - c * batch_size < batch_size {
            (total - c * batch_size) as nat
        } else {
            batch_size
        },
{
    let b = batch_size as int;
    let q = total as int / b;
    lemma_fundamental_div_mod(total as int, b);
    lemma_mul_is_commutative(b, q);
    assert((c + 1) * b == c * b + b) by (nonlinear_arith);
    if c < q {
        assert(0 <= c * b && (c + 1) * b <= q * b) by (nonlinear_arith)
            requires
                0 <= c,
                c + 1 <= q,
                b > 0,
        ;
    } else {
        assert(c == q);
        assert(0 <= c * b) by (nonlinear_arith)
            requires
                0 <= c,
                b > 0,
        ;
    }
}

/// The combinations and multiplicities of the interactions of batch `c`.
pub(crate) fn batch_parts(
    sends: &Vec<&Interaction>,
    receives: &Vec<&Interaction>,
    batch_size: usize,
    c: usize,
    prep: &[Felt],
    main: &[Felt],
    alpha: Ext,
    beta_powers: &Vec<Ext>,
    Ghost(beta): Ghost<Ext>,
) -> (r: (Vec<Ext>, Vec<Felt>))
    requires
        interactions_ok(sends@, receives@, batch_size as nat, prep@.len(), main@.len()),
        sends@.len() + receives@.len() > 0,
        c < ceil_div(sends@.len() + receives@.len(), batch_size as nat),
        forall|i: int| 0 <= i < sends@.len() ==> beta_powers@.len() > (#[trigger] sends@[i]).values@.len(),
        forall|i: int|
            0 <= i < receives@.len() ==> beta_powers@.len() > (#[trigger] receives@[i]).values@.len(),
        forall|i: int|
            0 <= i < beta_powers@.len() ==> #[trigger] beta_powers@[i] == ring::pow(beta, i as nat),
    ensures
        r.0@ == batch_denominators(
            sends@,
            receives@,
            batch_size as nat,
            prep@,
            main@,
            alpha,
            beta,
            c as int,
        ),
        r.1@ == batch_multiplicities(
            sends@,
            receives@,
            batch_size as nat,
            prep@,
            main@,
            c as int,
        ),
        r.0@.len() > 0,
{
    let total: usize = sends.len() + receives.len();
    proof {
        lemma_batches(total as nat, batch_size as nat, c as int);
    }
    let start: usize = c * batch_size;
    let len: usize = if total - start < batch_size {
        total - start
    } else {
        batch_size
    };
    let ghost ds = batch_denominators(
        sends@,
        receives@,
        batch_size as nat,
        prep@,
        main@,
        alpha,
        beta,
        c as int,
    );
    let ghost ms = batch_multiplicities(
        sends@,
        receives@,
        batch_size as nat,
        prep@,
        main@,
        c as int,
    );
    let mut denominators: Vec<Ext> = Vec::new();
    let mut multiplicities: Vec<Felt> = Vec::new();
    let mut i: usize = 0;
    while i < len
        invariant
            i <= len,
            total == sends@.len() + receives@.len(),
            start == c * batch_size,
            start + len <= total,
            interactions_ok(sends@, receives@, batch_size as nat, prep@.len(), main@.len()),
            forall|i: int|
                0 <= i < sends@.len() ==> beta_powers@.len() > (
                #[trigger] sends@[i]).values@.len(),
            forall|i: int|
                0 <= i < receives@.len() ==> beta_powers@.len() > (
                #[trigger] receives@[i]).values@.len(),
            forall|i: int|
                0 <= i < beta_powers@.len() ==> #[trigger] beta_powers@[i] == ring::pow(
                    beta,
                    i as nat,
                ),
            ds.len() == len,
            ms.len() == len,
            ds == batch_denominators(
                sends@,
                receives@,
                batch_size as nat,
                prep@,
                main@,
                alpha,
                beta,
                c as int,
            ),
            ms == batch_multiplicities(
                sends@,
                receives@,
                batch_size as nat,
                prep@,
                main@,
                c as int,
            ),
            denominators@ == ds.take(i as int),
            multiplicities@ == ms.take(i as int),
        decreases len - i,
    {
        let k: usize = start + i;
        let is_send: bool = k < sends.len();
        let msg: &Interaction = if is_send {
            sends[k]
        } else {
            receives[k - sends.len()]
        };
        assert((*msg, is_send) == nth(sends@, receives@, c * batch_size + i));
        proof {
            if is_send {
                assert(sends@[k as int].in_range(prep@.len(), main@.len()));
            } else {
                assert(receives@[k - sends@.len()].in_range(prep@.len(), main@.len()));
            }
        }
        denominators.push(combine(msg, prep, main, alpha, beta_powers, Ghost(beta)));
        multiplicities.push(signed(msg, is_send, prep, main));
        i = i + 1;
        assert(denominators@ =~= ds.take(i as int));
        assert(multiplicities@ =~= ms.take(i as int));
    }
    assert(ds.take(i as int) =~= ds);
    assert(ms.take(i as int) =~= ms);
    (denominators, multiplicities)
}

pub(crate) proof fn lemma_product_reduced(d: Seq<Ext>, n: nat)
    ensures
        ring::reduced(product(d, n)) == product(d, n),
{
    Ext::law_constants();
    if n > 0 {
        ring::lemma_mul_reduced(product(d, (n - 1) as nat), d[n - 1]);
    }
}

pub(crate) proof fn lemma_numerator_one(d: Seq<Ext>, m: Seq<Felt>)
    requires
        d.len() == 1,
    ensures
        numerator(d, m) == ring::reduced(ext::embed(m[0])),
        product(d, 1) == ring::reduced(d[0]),
{
    let f = |i: int| ext::embed(m[i]).times(product_but(d, i, d.len()));
    reveal_with_fuel(ring::sum, 2);
    reveal_with_fuel(product, 2);
    reveal_with_fuel(product_but, 2);
    ring::lemma_mul_one(ext::embed(m[0]));
    ring::lemma_zero_left(f(0));
    ring::lemma_mul_reduced(ext::embed(m[0]), Ext::one_spec());
    ring::lemma_mul_one(d[0]);
}

pub(crate) proof fn lemma_numerator_two(d: Seq<Ext>, m: Seq<Felt>)
    requires
        d.len() == 2,
    ensures
        numerator(d, m) == ext::embed(m[0]).times(d[1]).plus(ext::embed(m[1]).times(d[0])),
        product(d, 2) == d[0].times(d[1]),
{
    let f = |i: int| ext::embed(m[i]).times(product_but(d, i, d.len()));
    reveal_with_fuel(ring::sum, 3);
    reveal_with_fuel(product, 3);
    reveal_with_fuel(product_but, 3);
    ring::lemma_mul_one(d[0]);
    ring::lemma_mul_one(d[1]);
    ring::lemma_mul_reduced(d[0], d[1]);
    ring::lemma_mul_reduced(ext::embed(m[0]), d[1]);
    ring::lemma_mul_reduced(ext::embed(m[1]), d[0]);
    ring::lemma_zero_left(f(0));
}

/// The common denominator and the numerator of a batch.
fn combine_batch(d: &Vec<Ext>, m: &Vec<Felt>) -> (r: (Ext, Ext))
    requires
        d@.len() > 0,
        m@.len() == d@.len(),
        forall|i: int| 0 <= i < d@.len() ==> ring::reduced(#[trigger] d@[i]) == d@[i],
    ensures
        r.0 == product(d@, d@.len()),
        ring::reduced(r.1) == numerator(d@, m@),
{
    let n: usize = d.len();
    if n == 1 {
        proof {
            lemma_numerator_one(d@, m@);
            assert(ring::reduced(d@[0]) == d@[0]);
        }
        (d[0], Ext::from_base(m[0]))
    } else if n == 2 {
        let r: Ext = Ext::from_base(m[0]).mul(d[1]).add(Ext::from_base(m[1]).mul(d[0]));
        proof {
            lemma_numerator_two(d@, m@);
            ring::lemma_add_reduced(
                ext::embed(m@[0]).times(d@[1]),
                ext::embed(m@[1]).times(d@[0]),
            );
        }
        (d[0].mul(d[1]), r)
    } else {
        let mut prod: Ext = Ext::one();
        let mut i: usize = 0;
        while i < n
            invariant
                i <= n,
                n == d@.len(),
                prod == product(d@, i as nat),
            decreases n - i,
        {
            prod = prod.mul(d[i]);
            i = i + 1;
        }
        let ghost f = |i: int| ext::embed(m@[i]).times(product_but(d@, i, d@.len()));
        let mut num: Ext = Ext::zero();
        let mut i: usize = 0;
        while i < n
            invariant
                i <= n,
                n == d@.len(),
                n == m@.len(),
                f == (|i: int| ext::embed(m@[i]).times(product_but(d@, i, d@.len()))),
                num == ring::sum(i as nat, f),
            decreases n - i,
        {
            let mut all_but_i: Ext = Ext::one();
            let mut j: usize = 0;
            while j < n
                invariant
                    i < n,
                    j <= n,
                    n == d@.len(),
                    all_but_i == product_but(d@, i as int, j as nat),
                decreases n - j,
            {
                if j != i {
                    all_but_i = all_but_i.mul(d[j]);
                }
                j = j + 1;
            }
            num = num.add(Ext::from_base(m[i]).mul(all_but_i));
            i = i + 1;
        }
        proof {
            ring::lemma_sum_reduced(n as nat, f);
        }
        (prod, num)
    }
}

/// The row of a preprocessed trace, if there is one.
pub open spec fn prep_row(preprocessed: Option<&Matrix<Felt>>, r: int) -> Seq<Felt> {
    match preprocessed {
        Some(m) => m.row(r),
        None => Seq::empty(),
    }
}

pub open spec fn prep_width(preprocessed: Option<&Matrix<Felt>>) -> nat {
    match preprocessed {
        Some(m) => m.width as nat,
        None => 0,
    }
}

/// Entry `c` of row `r` of the permutation trace, before the running sum.
pub open spec fn trace_entry(
    sends: Seq<&Interaction>,
    receives: Seq<&Interaction>,
    preprocessed: Option<&Matrix<Felt>>,
    main: Matrix<Felt>,
    alpha: Ext,
    beta: Ext,
    batch_size: nat,
    r: int,
    c: int,
) -> Ext {
    batch_value(
        sends,
        receives,
        batch_size,
        prep_row(preprocessed, r),
        main.row(r),
        alpha,
        beta,
        c,
    )
}

/// The sum of the entries of row `r`.
pub open spec fn row_total(
    sends: Seq<&Interaction>,
    receives: Seq<&Interaction>,
    preprocessed: Option<&Matrix<Felt>>,
    main: Matrix<Felt>,
    alpha: Ext,
    beta: Ext,
    batch_size: nat,
    r: int,
) -> Ext {
    ring::sum(
        ceil_div(sends.len() + receives.len(), batch_size),
        |c: int| trace_entry(sends, receives, preprocessed, main, alpha, beta, batch_size, r, c),
    )
}

/// The sum of the entries of the first `n` rows.
pub open spec fn running_sum(
    sends: Seq<&Interaction>,
    receives: Seq<&Interaction>,
    preprocessed: Option<&Matrix<Felt>>,
    main: Matrix<Felt>,
    alpha: Ext,
    beta: Ext,
    batch_size: nat,
    n: nat,
) -> Ext {
    ring::sum(
        n,
        |r: int| row_total(sends, receives, preprocessed, main, alpha, beta, batch_size, r),
    )
}

/// Whether no batch of any row has a denominator that is zero.
pub open spec fn denominators_ok(
    sends: Seq<&Interaction>,
    receives: Seq<&Interaction>,
    preprocessed: Option<&Matrix<Felt>>,
    main: Matrix<Felt>,
    alpha: Ext,
    beta: Ext,
    batch_size: nat,
) -> bool {
    forall|r: int, c: int|
        0 <= r < main.rows() && 0 <= c < ceil_div(sends.len() + receives.len(), batch_size) ==> {
            let d = #[trigger] batch_denominators(
                sends,
                receives,
                batch_size,
                prep_row(preprocessed, r),
                main.row(r),
                alpha,
                beta,
                c,
            );
            product(d, d.len()) != Ext::zero_spec()
        }
}

/// Whether the denominators of every batch of every row have an inverse.
pub open spec fn denominators_invertible(
    sends: Seq<&Interaction>,
    receives: Seq<&Interaction>,
    preprocessed: Option<&Matrix<Felt>>,
    main: Matrix<Felt>,
    alpha: Ext,
    beta: Ext,
    batch_size: nat,
) -> bool {
    forall|r: int, c: int|
        0 <= r < main.rows() && 0 <= c < ceil_div(sends.len() + receives.len(), batch_size) ==> {
            let d = #[trigger] batch_denominators(
                sends,
                receives,
                batch_size,
                prep_row(preprocessed, r),
                main.row(r),
                alpha,
                beta,
                c,
            );
            ring::invertible(product(d, d.len()))
        }
}

/// What the permutation trace holds.
pub open spec fn is_permutation_trace(
    trace: Matrix<Ext>,
    sends: Seq<&Interaction>,
    receives: Seq<&Interaction>,
    preprocessed: Option<&Matrix<Felt>>,
    main: Matrix<Felt>,
    alpha: Ext,
    beta: Ext,
    batch_size: nat,
) -> bool {
    let chunks = ceil_div(sends.len() + receives.len(), batch_size);
    &&& trace.width == chunks + 1
    &&& trace.values@.len() == main.rows() * trace.width
    &&& denominators_invertible(sends, receives, preprocessed, main, alpha, beta, batch_size)
    &&& forall|r: int, c: int|
        0 <= r < main.rows() && 0 <= c < chunks ==> #[trigger] trace.at(r, c) == trace_entry(
            sends,
            receives,
            preprocessed,
            main,
            alpha,
            beta,
            batch_size,
            r,
            c,
        )
    &&& forall|r: int|
        0 <= r < main.rows() ==> #[trigger] trace.at(r, chunks as int) == running_sum(
            sends,
            receives,
            preprocessed,
            main,
            alpha,
            beta,
            batch_size,
            (r + 1) as nat,
        )
}

/// What the generation of a permutation trace asks of the traces.
pub open spec fn traces_ok(preprocessed: Option<&Matrix<Felt>>, main: Matrix<Felt>) -> bool {
    &&& main.width > 0
    &&& main.values@.len() % (main.width as nat) == 0
    &&& preprocessed matches Some(p) ==> main.rows() * p.width <= p.values@.len()
}

/// The combined denominators and numerators of a row's batches, added to those of earlier rows.
fn add_row_batches(
    products: &mut Vec<Ext>,
    numerators: &mut Vec<Ext>,
    sends: &Vec<&Interaction>,
    receives: &Vec<&Interaction>,
    batch_size: usize,
    chunks: usize,
    prep: &[Felt],
    main: &[Felt],
    alpha: Ext,
    beta_powers: &Vec<Ext>,
    Ghost(beta): Ghost<Ext>,
)
    requires
        interactions_ok(sends@, receives@, batch_size as nat, prep@.len(), main@.len()),
        sends@.len() + receives@.len() > 0,
        chunks == ceil_div(sends@.len() + receives@.len(), batch_size as nat),
        forall|i: int| 0 <= i < sends@.len() ==> beta_powers@.len() > (#[trigger] sends@[i]).values@.len(),
        forall|i: int|
            0 <= i < receives@.len() ==> beta_powers@.len() > (#[trigger] receives@[i]).values@.len(),
        forall|i: int|
            0 <= i < beta_powers@.len() ==> #[trigger] beta_powers@[i] == ring::pow(beta, i as nat),
        old(products)@.len() == old(numerators)@.len(),
    ensures
        final(products)@.len() == old(products)@.len() + chunks,
        final(numerators)@.len() == old(products)@.len() + chunks,
        forall|k: int|
            0 <= k < old(products)@.len() ==> #[trigger] final(products)@[k] == old(products)@[k],
        forall|k: int|
            0 <= k < old(products)@.len() ==> #[trigger] final(numerators)@[k]
                == old(numerators)@[k],
        forall|c: int|
            0 <= c < chunks ==> {
                let d = #[trigger] batch_denominators(
                    sends@,
                    receives@,
                    batch_size as nat,
                    prep@,
                    main@,
                    alpha,
                    beta,
                    c,
                );
                let m = batch_multiplicities(
                    sends@,
                    receives@,
                    batch_size as nat,
                    prep@,
                    main@,
                    c,
                );
                &&& final(products)@[old(products)@.len() + c] == product(d, d.len())
                &&& ring::reduced(final(numerators)@[old(products)@.len() + c]) == numerator(d, m)
            },
{
    let ghost p0 = products@;
    let ghost n0 = numerators@;
    let mut c: usize = 0;
    while c < chunks
        invariant
            c <= chunks,
            interactions_ok(sends@, receives@, batch_size as nat, prep@.len(), main@.len()),
            sends@.len() + receives@.len() > 0,
            chunks == ceil_div(sends@.len() + receives@.len(), batch_size as nat),
            forall|i: int|
                0 <= i < sends@.len() ==> beta_powers@.len() > (
                #[trigger] sends@[i]).values@.len(),
            forall|i: int|
                0 <= i < receives@.len() ==> beta_powers@.len() > (
                #[trigger] receives@[i]).values@.len(),
            forall|i: int|
                0 <= i < beta_powers@.len() ==> #[trigger] beta_powers@[i] == ring::pow(
                    beta,
                    i as nat,
                ),
            p0.len() == n0.len(),
            products@.len() == p0.len() + c,
            numerators@.len() == p0.len() + c,
            forall|k: int| 0 <= k < p0.len() ==> #[trigger] products@[k] == p0[k],
            forall|k: int| 0 <= k < p0.len() ==> #[trigger] numerators@[k] == n0[k],
            forall|e: int|
                0 <= e < c ==> {
                    let d = #[trigger] batch_denominators(
                        sends@,
                        receives@,
                        batch_size as nat,
                        prep@,
                        main@,
                        alpha,
                        beta,
                        e,
                    );
                    let m = batch_multiplicities(
                        sends@,
                        receives@,
                        batch_size as nat,
                        prep@,
                        main@,
                        e,
                    );
                    &&& products@[p0.len() + e] == product(d, d.len())
                    &&& ring::reduced(numerators@[p0.len() + e]) == numerator(d, m)
                },
        decreases chunks - c,
    {
        let (d, m) = batch_parts(
            sends,
            receives,
            batch_size,
            c,
            prep,
            main,
            alpha,
            beta_powers,
            Ghost(beta),
        );
        assert forall|i: int| 0 <= i < d@.len() implies ring::reduced(#[trigger] d@[i])
            == d@[i] by {
            lemma_rlc_reduced(
                nth(sends@, receives@, c * batch_size + i).0,
                prep@,
                main@,
                alpha,
                beta,
            );
        }
        let (prod, num) = combine_batch(&d, &m);
        products.push(prod);
        numerators.push(num);
        c = c + 1;
    }
}

/// The largest number of values of an interaction.
pub(crate) fn max_values_len(sends: &Vec<&Interaction>, receives: &Vec<&Interaction>) -> (r: usize)
    ensures
        forall|i: int| 0 <= i < sends@.len() ==> (#[trigger] sends@[i]).values@.len() <= r,
        forall|i: int| 0 <= i < receives@.len() ==> (#[trigger] receives@[i]).values@.len() <= r,
        r > 0 ==> (exists|i: int| 0 <= i < sends@.len() && (#[trigger] sends@[i]).values@.len() == r)
            || (exists|i: int|
            0 <= i < receives@.len() && (#[trigger] receives@[i]).values@.len() == r),
{
    let mut r: usize = 0;
    let mut i: usize = 0;
    while i < sends.len()
        invariant
            i <= sends@.len(),
            forall|k: int| 0 <= k < i ==> (#[trigger] sends@[k]).values@.len() <= r,
            r > 0 ==> (exists|k: int|
                0 <= k < sends@.len() && (#[trigger] sends@[k]).values@.len() == r),
        decreases sends@.len() - i,
    {
        let n: usize = sends[i].values.len();
        if n > r {
            r = n;
            assert(sends@[i as int].values@.len() == r);
        }
        i = i + 1;
    }
    let mut i: usize = 0;
    while i < receives.len()
        invariant
            i <= receives@.len(),
            forall|k: int| 0 <= k < sends@.len() ==> (#[trigger] sends@[k]).values@.len() <= r,
            forall|k: int| 0 <= k < i ==> (#[trigger] receives@[k]).values@.len() <= r,
            r > 0 ==> (exists|k: int|
                0 <= k < sends@.len() && (#[trigger] sends@[k]).values@.len() == r) || (exists|
                k: int,
            |
                0 <= k < receives@.len() && (#[trigger] receives@[k]).values@.len() == r),
        decreases receives@.len() - i,
    {
        let n: usize = receives[i].values.len();
        if n > r {
            r = n;
            assert(receives@[i as int].values@.len() == r);
        }
        i = i + 1;
    }
    r
}

/// Some interaction's values, and one more, fit into memory.
pub open spec fn values_fit(sends: Seq<&Interaction>, receives: Seq<&Interaction>) -> bool {
    &&& forall|i: int| 0 <= i < sends.len() ==> (#[trigger] sends[i]).values@.len() < usize::MAX
    &&& forall|i: int|
        0 <= i < receives.len() ==> (#[trigger] receives[i]).values@.len() < usize::MAX
}

/// The entries of each row, with the running sum in the last column.
fn assemble_trace(
    products: &Vec<Ext>,
    numerators: &Vec<Ext>,
    height: usize,
    chunks: usize,
    Ghost(entry): Ghost<spec_fn(int, int) -> Ext>,
) -> (r: (Matrix<Ext>, Ext))
    requires
        products@.len() == height * chunks,
        numerators@.len() == height * chunks,
        height > 0,
        height * (chunks + 1) <= usize::MAX,
        forall|r: int, c: int|
            0 <= r < height && 0 <= c < chunks ==> (#[trigger] entry(r, c)) == numerators@[r * chunks
                + c].times(ring::inv(products@[r * chunks + c])),
        forall|k: int|
            0 <= k < products@.len() ==> ring::reduced(#[trigger] products@[k]) == products@[k]
                && products@[k] != Ext::zero_spec(),
    ensures
        r.0.width == chunks + 1,
        r.0.values@.len() == height * (chunks + 1),
        forall|r0: int, c: int|
            0 <= r0 < height && 0 <= c < chunks ==> #[trigger] r.0.at(r0, c) == entry(r0, c),
        forall|r0: int|
            0 <= r0 < height ==> #[trigger] r.0.at(r0, chunks as int) == ring::sum(
                (r0 + 1) as nat,
                |k: int| ring::sum(chunks as nat, |c: int| entry(k, c)),
            ),
        r.1 == ring::sum(
            height as nat,
            |k: int| ring::sum(chunks as nat, |c: int| entry(k, c)),
        ),
        forall|k: int| 0 <= k < products@.len() ==> ring::invertible(#[trigger] products@[k]),
{
    let inverses: Vec<Ext> = denominators::batch_multiplicative_inverse(products);
    proof {
        assert forall|k: int| 0 <= k < products@.len() implies ring::invertible(
            #[trigger] products@[k],
        ) by {
            assert(products@[k].times(inverses@[k]) == Ext::one_spec());
        }
    }
    assert(chunks + 1 <= height * (chunks + 1)) by (nonlinear_arith)
        requires
            height > 0,
    ;
    let width: usize = chunks + 1;
    let ghost totals = |k: int| ring::sum(chunks as nat, |c: int| entry(k, c));
    let mut values: Vec<Ext> = Vec::new();
    let mut running: Ext = Ext::zero();
    let mut r: usize = 0;
    while r < height
        invariant
            r <= height,
            width == chunks + 1,
            height * width <= usize::MAX,
            products@.len() == height * chunks,
            numerators@.len() == height * chunks,
            inverses@.len() == height * chunks,
            totals == (|k: int| ring::sum(chunks as nat, |c: int| entry(k, c))),
            forall|r: int, c: int|
                0 <= r < height && 0 <= c < chunks ==> (#[trigger] entry(r, c)) == numerators@[r
                    * chunks + c].times(ring::inv(products@[r * chunks + c])),
            forall|i: int|
                0 <= i < products@.len() ==> products@[i].times(#[trigger] inverses@[i])
                    == Ext::one_spec() && ring::reduced(inverses@[i]) == inverses@[i],
            running == ring::sum(r as nat, totals),
            values@.len() == r * width,
            forall|k: int, c: int|
                0 <= k < r && 0 <= c < chunks ==> #[trigger] values@[k * width + c] == entry(k, c),
            forall|k: int|
                0 <= k < r ==> #[trigger] values@[k * width + chunks] == ring::sum(
                    (k + 1) as nat,
                    totals,
                ),
        decreases height - r,
    {
        let ghost f = |c: int| entry(r as int, c);
        let ghost start = values@;
        let mut total: Ext = Ext::zero();
        let mut c: usize = 0;
        while c < chunks
            invariant
                r < height,
                c <= chunks,
                width == chunks + 1,
                height * width <= usize::MAX,
                products@.len() == height * chunks,
                numerators@.len() == height * chunks,
                inverses@.len() == height * chunks,
                f == (|c: int| entry(r as int, c)),
                forall|r: int, c: int|
                    0 <= r < height && 0 <= c < chunks ==> (#[trigger] entry(r, c)) == numerators@[r
                        * chunks + c].times(ring::inv(products@[r * chunks + c])),
                forall|i: int|
                    0 <= i < products@.len() ==> products@[i].times(#[trigger] inverses@[i])
                        == Ext::one_spec() && ring::reduced(inverses@[i]) == inverses@[i],
                total == ring::sum(c as nat, f),
                start.len() == r * width,
                values@.len() == r * width + c,
                forall|k: int| 0 <= k < start.len() ==> #[trigger] values@[k] == start[k],
                forall|e: int|
                    0 <= e < c ==> #[trigger] values@[r * width + e] == entry(r as int, e),
            decreases chunks - c,
        {
            proof {
                lde::lemma_row_before(r as int, height as int, chunks as int, c as int);
                assert(height * chunks <= height * width) by (nonlinear_arith)
                    requires
                        width == chunks + 1,
                ;
            }
            let k: usize = r * chunks + c;
            let value: Ext = numerators[k].mul(inverses[k]);
            proof {
                ring::lemma_inv(products@[k as int], inverses@[k as int]);
                assert(value == entry(r as int, c as int));
            }
            values.push(value);
            total = total.add(value);
            c = c + 1;
        }
        assert(total == totals(r as int));
        running = running.add(total);
        values.push(running);
        proof {
            assert((r + 1) * width == r * width + width) by (nonlinear_arith);
            assert forall|k: int, c: int|
                0 <= k < r + 1 && 0 <= c < chunks implies #[trigger] values@[k * width + c]
                == entry(k, c) by {
                if k < r {
                    lde::lemma_row_before(k, r as int, width as int, c);
                    assert(start[k * width + c] == entry(k, c));
                }
            }
            assert forall|k: int| 0 <= k < r + 1 implies #[trigger] values@[k * width + chunks]
                == ring::sum((k + 1) as nat, totals) by {
                if k < r {
                    lde::lemma_row_before(k, r as int, width as int, chunks as int);
                    assert(start[k * width + chunks] == ring::sum((k + 1) as nat, totals));
                }
            }
        }
        r = r + 1;
    }
    (Matrix { values, width }, running)
}

/// The slice of row `r`.
pub(crate) fn row_slice(mat: &Matrix<Felt>, r: usize) -> (row: &[Felt])
    requires
        (r + 1) * mat.width <= mat.values@.len(),
    ensures
        row@ == mat.row(r as int),
{
    let n: usize = mat.values.len();
    assert((r + 1) * mat.width == r * mat.width + mat.width) by (nonlinear_arith);
    assert(0 <= r * mat.width) by (nonlinear_arith);
    let start: usize = r * mat.width;
    let row: &[Felt] = slice_subrange(mat.values.as_slice(), start, start + mat.width);
    assert(row@ =~= mat.row(r as int));
    row
}

/// The rows of the traces are complete.
pub(crate) proof fn lemma_rows_complete(len: nat, width: nat, height: nat, r: nat)
    requires
        height * width <= len,
        r < height,
    ensures
        (r + 1) * width <= len,
{
    assert((r + 1) * width <= height * width) by (nonlinear_arith)
        requires
            r + 1 <= height,
    ;
}

/// Generates the permutation trace: for each row the sum of `m_i / d_i` over each batch of
/// interactions, and in the last column the running sum, which is returned too. Without
/// interactions the trace is empty and the sum is zero.
pub fn generate_permutation_trace_prescoped(
    local_sends: &Vec<&Interaction>,
    local_receives: &Vec<&Interaction>,
    preprocessed: Option<&Matrix<Felt>>,
    main: &Matrix<Felt>,
    random_elements: &Vec<Ext>,
    batch_size: usize,
) -> (r: (Matrix<Ext>, Ext))
    requires
        traces_ok(preprocessed, *main),
        values_fit(local_sends@, local_receives@),
        local_sends@.len() + local_receives@.len() > 0 ==> {
            &&& interactions_ok(
                local_sends@,
                local_receives@,
                batch_size as nat,
                prep_width(preprocessed),
                main.width as nat,
            )
            &&& random_elements@.len() >= 2
            &&& main.rows() > 0
            &&& main.rows() * trace_width(
                local_sends@.len() + local_receives@.len(),
                batch_size as nat,
            ) <= usize::MAX
            &&& denominators_ok(
                local_sends@,
                local_receives@,
                preprocessed,
                *main,
                random_elements@[0],
                random_elements@[1],
                batch_size as nat,
            )
        },
    ensures
        local_sends@.len() + local_receives@.len() == 0 ==> r.0.width == 0 && r.0.values@.len() == 0
            && r.1 == Ext::zero_spec(),
        local_sends@.len() + local_receives@.len() > 0 ==> is_permutation_trace(
            r.0,
            local_sends@,
            local_receives@,
            preprocessed,
            *main,
            random_elements@[0],
            random_elements@[1],
            batch_size as nat,
        ) && r.1 == running_sum(
            local_sends@,
            local_receives@,
            preprocessed,
            *main,
            random_elements@[0],
            random_elements@[1],
            batch_size as nat,
            main.rows(),
        ),
{
    if local_sends.len() == 0 && local_receives.len() == 0 {
        return (Matrix { values: Vec::new(), width: 0 }, Ext::zero());
    }
    let alpha: Ext = random_elements[0];
    let beta: Ext = random_elements[1];
    let total: usize = local_sends.len() + local_receives.len();
    let width: usize = local_permutation_trace_width(total, batch_size);
    let chunks: usize = width - 1;
    let height: usize = main.height();
    let max_len: usize = max_values_len(local_sends, local_receives);
    let beta_powers: Vec<Ext> = powers_of(beta, max_len + 1);
    let mut products: Vec<Ext> = Vec::new();
    let mut numerators: Vec<Ext> = Vec::new();
    let ghost (sends, receives, b) = (local_sends@, local_receives@, batch_size as nat);
    proof {
        lemma_fundamental_div_mod(main.values@.len() as int, main.width as int);
        lemma_mul_is_commutative(height as int, main.width as int);
        assert(0 * chunks == 0);
    }
    let mut r: usize = 0;
    while r < height
        invariant
            r <= height,
            height == main.rows(),
            height * main.width <= main.values@.len(),
            traces_ok(preprocessed, *main),
            total == sends.len() + receives.len(),
            total > 0,
            sends == local_sends@,
            receives == local_receives@,
            b == batch_size as nat,
            chunks == ceil_div(total as nat, b),
            interactions_ok(sends, receives, b, prep_width(preprocessed), main.width as nat),
            beta_powers@.len() == max_len + 1,
            forall|i: int| 0 <= i < sends.len() ==> (#[trigger] sends[i]).values@.len() <= max_len,
            forall|i: int|
                0 <= i < receives.len() ==> (#[trigger] receives[i]).values@.len() <= max_len,
            beta_powers@ == Seq::new(
                (max_len + 1) as nat,
                |i: int| ring::pow(beta, i as nat),
            ),
            products@.len() == r * chunks,
            numerators@.len() == r * chunks,
            forall|k: int, c: int|
                0 <= k < r && 0 <= c < chunks ==> {
                    let d = #[trigger] batch_denominators(
                        sends,
                        receives,
                        b,
                        prep_row(preprocessed, k),
                        main.row(k),
                        alpha,
                        beta,
                        c,
                    );
                    let m = batch_multiplicities(
                        sends,
                        receives,
                        b,
                        prep_row(preprocessed, k),
                        main.row(k),
                        c,
                    );
                    &&& products@[k * chunks + c] == product(d, d.len())
                    &&& ring::reduced(numerators@[k * chunks + c]) == numerator(d, m)
                },
        decreases height - r,
    {
        proof {
            lemma_rows_complete(
                main.values@.len(),
                main.width as nat,
                height as nat,
                r as nat,
            );
        }
        let main_row: &[Felt] = row_slice(main, r);
        let empty: Vec<Felt> = Vec::new();
        let prep: &[Felt] = match preprocessed {
            Some(p) => {
                proof {
                    lemma_rows_complete(
                        p.values@.len(),
                        p.width as nat,
                        height as nat,
                        r as nat,
                    );
                }
                row_slice(p, r)
            },
            None => empty.as_slice(),
        };
        assert(prep@ =~= prep_row(preprocessed, r as int));
        let ghost p0 = products@;
        let ghost n0 = numerators@;
        add_row_batches(
            &mut products,
            &mut numerators,
            local_sends,
            local_receives,
            batch_size,
            chunks,
            prep,
            main_row,
            alpha,
            &beta_powers,
            Ghost(beta),
        );
        proof {
            assert((r + 1) * chunks == r * chunks + chunks) by (nonlinear_arith);
            assert forall|k: int, c: int| 0 <= k < r + 1 && 0 <= c < chunks implies {
                let d = #[trigger] batch_denominators(
                    sends,
                    receives,
                    b,
                    prep_row(preprocessed, k),
                    main.row(k),
                    alpha,
                    beta,
                    c,
                );
                let m = batch_multiplicities(
                    sends,
                    receives,
                    b,
                    prep_row(preprocessed, k),
                    main.row(k),
                    c,
                );
                &&& products@[k * chunks + c] == product(d, d.len())
                &&& ring::reduced(numerators@[k * chunks + c]) == numerator(d, m)
            } by {
                if k < r {
                    lde::lemma_row_before(k, r as int, chunks as int, c);
                    assert(products@[k * chunks + c] == p0[k * chunks + c]);
                    assert(numerators@[k * chunks + c] == n0[k * chunks + c]);
                }
            }
        }
        r = r + 1;
    }
    let ghost entry = |r: int, c: int|
        trace_entry(sends, receives, preprocessed, *main, alpha, beta, b, r, c);
    proof {
        assert forall|r: int, c: int| 0 <= r < height && 0 <= c < chunks implies (
        #[trigger] entry(r, c)) == numerators@[r * chunks + c].times(
            ring::inv(products@[r * chunks + c]),
        ) by {
            let d = batch_denominators(
                sends,
                receives,
                b,
                prep_row(preprocessed, r),
                main.row(r),
                alpha,
                beta,
                c,
            );
            ring::lemma_mul_reduced(
                numerators@[r * chunks + c],
                ring::inv(products@[r * chunks + c]),
            );
        }
        lemma_fundamental_div_mod(total as int, batch_size as int);
        assert(batch_size * 0 == 0);
        assert(chunks > 0);
        lemma_mul_is_commutative(height as int, chunks as int);
        assert forall|k: int| 0 <= k < products@.len() implies ring::reduced(
            #[trigger] products@[k],
        ) == products@[k] && products@[k] != Ext::zero_spec() by {
            lemma_fundamental_div_mod(k, chunks as int);
            let (q, c) = (k / (chunks as int), k % (chunks as int));
            lemma_mul_is_commutative(chunks as int, q);
            assert(q < height) by {
                lemma_multiply_divide_lt(k, chunks as int, height as int);
            }
            lemma_div_pos_is_pos(k, chunks as int);
            let d = batch_denominators(
                sends,
                receives,
                b,
                prep_row(preprocessed, q),
                main.row(q),
                alpha,
                beta,
                c,
            );
            assert(products@[q * chunks + c] == product(d, d.len()));
            lemma_product_reduced(d, d.len());
        }
    }
    let (trace, sum) = assemble_trace(&products, &numerators, height, chunks, Ghost(entry));
    proof {
        assert forall|k: int, c: int| 0 <= k < main.rows() && 0 <= c < chunks implies {
            let d = #[trigger] batch_denominators(
                sends,
                receives,
                b,
                prep_row(preprocessed, k),
                main.row(k),
                alpha,
                beta,
                c,
            );
            ring::invertible(product(d, d.len()))
        } by {
            lde::lemma_row_before(k, height as int, chunks as int, c);
            assert(ring::invertible(products@[k * chunks + c]));
        }
        let totals = |k: int| ring::sum(chunks as nat, |c: int| entry(k, c));
        let named = |r: int| row_total(sends, receives, preprocessed, *main, alpha, beta, b, r);
        assert forall|k: int| #[trigger] totals(k) == named(k) by {
            let f = |c: int| entry(k, c);
            let g = |c: int|
                trace_entry(sends, receives, preprocessed, *main, alpha, beta, b, k, c);
            ring::lemma_sum_ext(chunks as nat, f, g);
        }
        assert forall|r: int| 0 <= r < main.rows() implies #[trigger] trace.at(r, chunks as int)
            == running_sum(
            sends,
            receives,
            preprocessed,
            *main,
            alpha,
            beta,
            b,
            (r + 1) as nat,
        ) by {
            ring::lemma_sum_ext((r + 1) as nat, totals, named);
        }
        ring::lemma_sum_ext(height as nat, totals, named);
    }
    (trace, sum)
}

/// Generates the permutation trace of the interactions that stay within the shard.
pub fn generate_permutation_trace(
    sends: &Vec<&Interaction>,
    receives: &Vec<&Interaction>,
    preprocessed: Option<&Matrix<Felt>>,
    main: &Matrix<Felt>,
    random_elements: &Vec<Ext>,
    batch_size: usize,
) -> (r: (Matrix<Ext>, Ext))
    requires
        ({
            let local_sends = lookup::of_scope(sends@, InteractionScope::Local);
            let local_receives = lookup::of_scope(receives@, InteractionScope::Local);
            &&& traces_ok(preprocessed, *main)
            &&& values_fit(local_sends, local_receives)
            &&& local_sends.len() + local_receives.len() > 0 ==> {
                &&& interactions_ok(
                    local_sends,
                    local_receives,
                    batch_size as nat,
                    prep_width(preprocessed),
                    main.width as nat,
                )
                &&& random_elements@.len() >= 2
                &&& main.rows() > 0
                &&& main.rows() * trace_width(
                    local_sends.len() + local_receives.len(),
                    batch_size as nat,
                ) <= usize::MAX
                &&& denominators_ok(
                    local_sends,
                    local_receives,
                    preprocessed,
                    *main,
                    random_elements@[0],
                    random_elements@[1],
                    batch_size as nat,
                )
            }
        }),
    ensures
        ({
            let local_sends = lookup::of_scope(sends@, InteractionScope::Local);
            let local_receives = lookup::of_scope(receives@, InteractionScope::Local);
            &&& local_sends.len() + local_receives.len() == 0 ==> r.0.width == 0
                && r.0.values@.len() == 0 && r.1 == Ext::zero_spec()
            &&& local_sends.len() + local_receives.len() > 0 ==> is_permutation_trace(
                r.0,
                local_sends,
                local_receives,
                preprocessed,
                *main,
                random_elements@[0],
                random_elements@[1],
                batch_size as nat,
            ) && r.1 == running_sum(
                local_sends,
                local_receives,
                preprocessed,
                *main,
                random_elements@[0],
                random_elements@[1],
                batch_size as nat,
                main.rows(),
            )
        }),
{
    let (scoped_sends, scoped_receives) = lookup::scoped_interactions(sends, receives);
    generate_permutation_trace_prescoped(
        &scoped_sends.local,
        &scoped_receives.local,
        preprocessed,
        main,
        random_elements,
        batch_size,
    )
}

/// The base of a list of powers.
pub open spec fn base_of(powers: Seq<Ext>) -> Ext {
    if powers.len() > 1 {
        powers[1]
    } else {
        Ext::one_spec()
    }
}

/// The product of the elements from `i` on.
pub open spec fn product_from(d: Seq<Ext>, i: int) -> Ext
    decreases d.len() - i,
{
    if i >= d.len() {
        Ext::one_spec()
    } else {
        product_from(d, i + 1).times(d[i])
    }
}

/// Leaving out one factor, the product is that of the factors before and after.
pub proof fn lemma_product_but(d: Seq<Ext>, i: int, n: nat)
    requires
        0 <= i < n <= d.len(),
    ensures
        product_but(d, i, n) == product(d, i as nat).times(product_between(d, (i + 1) as nat, n)),
    decreases n,
{
    if n == i + 1 {
        lemma_product_but_below(d, i, i as nat);
        lemma_product_reduced(d, i as nat);
        ring::lemma_mul_one(product(d, i as nat));
    } else {
        lemma_product_but(d, i, (n - 1) as nat);
        Ext::law_mul_assoc(
            product(d, i as nat),
            product_between(d, (i + 1) as nat, (n - 1) as nat),
            d[n - 1],
        );
    }
}

/// The product of the elements from `lo` to `n - 1`.
pub open spec fn product_between(d: Seq<Ext>, lo: nat, n: nat) -> Ext
    decreases n,
{
    if n <= lo {
        Ext::one_spec()
    } else {
        product_between(d, lo, (n - 1) as nat).times(d[n - 1])
    }
}

proof fn lemma_product_but_below(d: Seq<Ext>, i: int, n: nat)
    requires
        n <= i,
    ensures
        product_but(d, i, n) == product(d, n),
    decreases n,
{
    if n > 0 {
        lemma_product_but_below(d, i, (n - 1) as nat);
    }
}

/// A product from `i` on, in either order of multiplication.
pub proof fn lemma_product_from(d: Seq<Ext>, i: int)
    requires
        0 <= i <= d.len(),
    ensures
        product_from(d, i) == product_between(d, i as nat, d.len()),
    decreases d.len() - i,
{
    if i < d.len() {
        lemma_product_from(d, i + 1);
        lemma_product_between_first(d, i, d.len());
        Ext::law_mul_comm(d[i], product_between(d, (i + 1) as nat, d.len()));
    }
}

proof fn lemma_product_between_first(d: Seq<Ext>, i: int, n: nat)
    requires
        0 <= i < n <= d.len(),
    ensures
        product_between(d, i as nat, n) == d[i].times(product_between(d, (i + 1) as nat, n)),
    decreases n,
{
    if n == i + 1 {
        reveal_with_fuel(product_between, 2);
        ring::lemma_mul_one(d[i]);
    } else {
        lemma_product_between_first(d, i, (n - 1) as nat);
        Ext::law_mul_assoc(d[i], product_between(d, (i + 1) as nat, (n - 1) as nat), d[n - 1]);
    }
}

/// `sum_i m_i / d_i` of a batch, with a single inversion.
fn batch_sum(d: &Vec<Ext>, m: &Vec<Felt>) -> (r: Ext)
    requires
        d@.len() > 0,
        m@.len() == d@.len(),
        forall|i: int| 0 <= i < d@.len() ==> ring::reduced(#[trigger] d@[i]) == d@[i],
        product(d@, d@.len()) != Ext::zero_spec(),
    ensures
        r == numerator(d@, m@).times(ring::inv(product(d@, d@.len()))),
{
    let n: usize = d.len();
    let ghost total = product(d@, d@.len());
    proof {
        lemma_product_reduced(d@, d@.len());
    }
    if n == 1 {
        proof {
            lemma_numerator_one(d@, m@);
            assert(ring::reduced(d@[0]) == d@[0]);
        }
        let inverse: Ext = d[0].inverse();
        proof {
            ring::lemma_inv(d@[0], inverse);
            ring::lemma_mul_reduced(ext::embed(m@[0]), inverse);
        }
        Ext::from_base(m[0]).mul(inverse)
    } else {
        let mut prefix: Vec<Ext> = Vec::new();
        prefix.push(d[0]);
        proof {
            reveal_with_fuel(product, 2);
            ring::lemma_mul_one(d@[0]);
            assert(ring::reduced(d@[0]) == d@[0]);
        }
        let mut i: usize = 1;
        while i < n
            invariant
                1 <= i <= n,
                n == d@.len(),
                prefix@.len() == i,
                forall|k: int| 0 <= k < i ==> #[trigger] prefix@[k] == product(d@, (k + 1) as nat),
            decreases n - i,
        {
            let next: Ext = prefix[i - 1].mul(d[i]);
            prefix.push(next);
            i = i + 1;
        }
        assert(prefix@[n - 1] == total);
        let inverse: Ext = prefix[n - 1].inverse();
        proof {
            ring::lemma_inv(total, inverse);
        }
        let ghost f = |i: int| ext::embed(m@[i]).times(product_but(d@, i, d@.len()));
        // the terms from i on
        let ghost tail = |i: int| f(i).times(inverse);
        let mut inv: Ext = inverse;
        let mut sum: Ext = Ext::zero();
        let mut i: usize = n;
        proof {
            ring::lemma_mul_one(inverse);
        }
        while i > 1
            invariant
                1 <= i <= n,
                n == d@.len(),
                n == m@.len(),
                prefix@.len() == n,
                ring::reduced(inverse) == inverse,
                forall|k: int| 0 <= k < n ==> #[trigger] prefix@[k] == product(d@, (k + 1) as nat),
                f == (|i: int| ext::embed(m@[i]).times(product_but(d@, i, d@.len()))),
                inv == inverse.times(product_from(d@, i as int)),
                sum == tail_sum(f, inverse, i as nat, n as nat),
            decreases i,
        {
            i = i - 1;
            let inv_i: Ext = inv.mul(prefix[i - 1]);
            let term: Ext = Ext::from_base(m[i]).mul(inv_i);
            proof {
                let below = product(d@, i as nat);
                let above = product_from(d@, i + 1);
                lemma_product_but(d@, i as int, n as nat);
                lemma_product_from(d@, i + 1);
                Ext::law_mul_assoc(inverse, above, below);
                Ext::law_mul_comm(above, below);
                Ext::law_mul_comm(inverse, product_but(d@, i as int, n as nat));
                Ext::law_mul_assoc(
                    ext::embed(m@[i as int]),
                    product_but(d@, i as int, n as nat),
                    inverse,
                );
                assert(term == f(i as int).times(inverse));
            }
            sum = sum.add(term);
            proof {
                Ext::law_mul_assoc(inverse, product_from(d@, i + 1), d@[i as int]);
            }
            inv = inv.mul(d[i]);
        }
        let term: Ext = Ext::from_base(m[0]).mul(inv);
        proof {
            lemma_product_but(d@, 0, n as nat);
            lemma_product_from(d@, 1);
            let above = product_from(d@, 1);
            ring::lemma_mul_one(above);
            assert(ring::reduced(above) == above) by {
                ring::lemma_mul_reduced(product_from(d@, 2), d@[1]);
            }
            Ext::law_mul_comm(inverse, above);
            Ext::law_mul_assoc(ext::embed(m@[0]), above, inverse);
            assert(term == f(0).times(inverse));
        }
        sum = sum.add(term);
        proof {
            lemma_tail_sum(f, inverse, 0, n as nat);
            ring::lemma_distrib_right(Ext::zero_spec(), numerator(d@, m@), inverse);
            assert(sum == tail_sum(f, inverse, 0, n as nat));
            let shifted = |k: int| f(0 + k);
            ring::lemma_sum_ext(n as nat, shifted, f);
        }
        sum
    }
}

/// The terms from `i` on, each times `inverse`, added from the last to the first.
spec fn tail_sum(f: spec_fn(int) -> Ext, inverse: Ext, i: nat, n: nat) -> Ext
    decreases n - i,
{
    if i >= n {
        Ext::zero_spec()
    } else {
        tail_sum(f, inverse, i + 1, n).plus(f(i as int).times(inverse))
    }
}

proof fn lemma_tail_sum(f: spec_fn(int) -> Ext, inverse: Ext, i: nat, n: nat)
    requires
        i <= n,
    ensures
        tail_sum(f, inverse, i, n) == ring::sum((n - i) as nat, |k: int| f(i + k)).times(inverse),
    decreases n - i,
{
    let g = |k: int| f(i + k);
    if i == n {
        ring::lemma_mul_zero(inverse);
    } else {
        lemma_tail_sum(f, inverse, i + 1, n);
        let h = |k: int| f(i + 1 + k);
        let m = (n - i - 1) as nat;
        ring::lemma_sum_split(1, m, g);
        reveal_with_fuel(ring::sum, 2);
        let rest = |k: int| g(1 + k);
        ring::lemma_sum_ext(m, rest, h);
        assert(1 + m == (n - i) as nat);
        ring::lemma_zero_left(g(0));
        let s = ring::sum(m, h);
        ring::lemma_add_reduced(g(0), s);
        ring::lemma_distrib_right(g(0), s, inverse);
        Ext::law_add_comm(g(0).times(inverse), s.times(inverse));
    }
}

/// Fills a row of the permutation trace: the value of each batch, for as many batches as the row
/// has entries.
pub fn populate_local_permutation_row(
    row: &mut Vec<Ext>,
    preprocessed_row: &[Felt],
    main_row: &[Felt],
    sends: &Vec<&Interaction>,
    receives: &Vec<&Interaction>,
    alpha: Ext,
    beta_powers: &Vec<Ext>,
    batch_size: usize,
)
    requires
        interactions_ok(
            sends@,
            receives@,
            batch_size as nat,
            preprocessed_row@.len(),
            main_row@.len(),
        ),
        forall|i: int| 0 <= i < sends@.len() ==> beta_powers@.len() > (#[trigger] sends@[i]).values@.len(),
        forall|i: int|
            0 <= i < receives@.len() ==> beta_powers@.len() > (#[trigger] receives@[i]).values@.len(),
        forall|i: int|
            0 <= i < beta_powers@.len() ==> #[trigger] beta_powers@[i] == ring::pow(
                base_of(beta_powers@),
                i as nat,
            ),
        forall|c: int|
            0 <= c < old(row)@.len() && c < ceil_div(
                sends@.len() + receives@.len(),
                batch_size as nat,
            ) ==> {
                let d = #[trigger] batch_denominators(
                    sends@,
                    receives@,
                    batch_size as nat,
                    preprocessed_row@,
                    main_row@,
                    alpha,
                    base_of(beta_powers@),
                    c,
                );
                product(d, d.len()) != Ext::zero_spec()
            },
    ensures
        final(row)@ == Seq::new(
            old(row)@.len(),
            |c: int|
                if c < ceil_div(sends@.len() + receives@.len(), batch_size as nat) {
                    batch_value(
                        sends@,
                        receives@,
                        batch_size as nat,
                        preprocessed_row@,
                        main_row@,
                        alpha,
                        base_of(beta_powers@),
                        c,
                    )
                } else {
                    old(row)@[c]
                },
        ),
{
    let total: usize = sends.len() + receives.len();
    let ghost beta = base_of(beta_powers@);
    let ghost before = row@;
    let ghost b = batch_size as nat;
    let mut c: usize = 0;
    if total > 0 {
        let chunks: usize = local_permutation_trace_width(total, batch_size) - 1;
        while c < row.len() && c < chunks
            invariant
                c <= row@.len(),
                c <= chunks,
                row@.len() == before.len(),
                total == sends@.len() + receives@.len(),
                total > 0,
                b == batch_size as nat,
                chunks == ceil_div(total as nat, b),
                beta == base_of(beta_powers@),
                interactions_ok(
                    sends@,
                    receives@,
                    b,
                    preprocessed_row@.len(),
                    main_row@.len(),
                ),
                forall|i: int|
                    0 <= i < sends@.len() ==> beta_powers@.len() > (
                    #[trigger] sends@[i]).values@.len(),
                forall|i: int|
                    0 <= i < receives@.len() ==> beta_powers@.len() > (
                    #[trigger] receives@[i]).values@.len(),
                forall|i: int|
                    0 <= i < beta_powers@.len() ==> #[trigger] beta_powers@[i] == ring::pow(
                        beta,
                        i as nat,
                    ),
                forall|c: int|
                    0 <= c < before.len() && c < chunks ==> {
                        let d = #[trigger] batch_denominators(
                            sends@,
                            receives@,
                            b,
                            preprocessed_row@,
                            main_row@,
                            alpha,
                            beta,
                            c,
                        );
                        product(d, d.len()) != Ext::zero_spec()
                    },
                forall|k: int|
                    0 <= k < c ==> #[trigger] row@[k] == batch_value(
                        sends@,
                        receives@,
                        b,
                        preprocessed_row@,
                        main_row@,
                        alpha,
                        beta,
                        k,
                    ),
                forall|k: int| c <= k < row@.len() ==> #[trigger] row@[k] == before[k],
            decreases row@.len() - c,
        {
            let (d, m) = batch_parts(
                sends,
                receives,
                batch_size,
                c,
                preprocessed_row,
                main_row,
                alpha,
                beta_powers,
                Ghost(beta),
            );
            assert forall|i: int| 0 <= i < d@.len() implies ring::reduced(#[trigger] d@[i])
                == d@[i] by {
                lemma_rlc_reduced(
                    nth(sends@, receives@, c * batch_size + i).0,
                    preprocessed_row@,
                    main_row@,
                    alpha,
                    beta,
                );
            }
            let value: Ext = batch_sum(&d, &m);
            row.set(c, value);
            c = c + 1;
        }
    } else {
        assert(0int / (batch_size as int) == 0 && 0int % (batch_size as int) == 0);
    }
    assert(row@ =~= Seq::new(
        before.len(),
        |c: int|
            if c < ceil_div(sends@.len() + receives@.len(), b) {
                batch_value(
                    sends@,
                    receives@,
                    b,
                    preprocessed_row@,
                    main_row@,
                    alpha,
                    beta,
                    c,
                )
            } else {
                before[c]
            },
    ));
}

} // verus!
