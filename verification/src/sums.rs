//! What the sums of the permutation argument depend on.

use vstd::prelude::*;
use vstd::arithmetic::div_mod::*;
use vstd::arithmetic::mul::*;
use crate::babybear::Felt;
use crate::builder;
use crate::builder::SepticDigest;
use crate::constraints;
use crate::ext;
use crate::ext::Ext;
use crate::lookup::{Interaction, InteractionScope};
use crate::matrix::Matrix;
use crate::permutation;
use crate::prime;
use crate::program::Window;
use crate::ring;
use crate::ring::Ring;

verus! {

/// What an interaction adds to the sum on a row: how often it occurs, over its combination.
pub open spec fn contribution(
    msg: Interaction,
    is_send: bool,
    prep: Seq<Felt>,
    main: Seq<Felt>,
    alpha: Ext,
    beta: Ext,
) -> Ext {
    ext::embed(permutation::signed_multiplicity(msg, is_send, prep, main)).times(
        ring::inv(permutation::rlc(msg, prep, main, alpha, beta)),
    )
}

/// What the interactions of a list add to the sum on a row when they are sent.
pub open spec fn sent(
    ints: Seq<&Interaction>,
    prep: Seq<Felt>,
    main: Seq<Felt>,
    alpha: Ext,
    beta: Ext,
) -> Ext {
    ring::sum(ints.len(), |i: int| contribution(*ints[i], true, prep, main, alpha, beta))
}

/// What is sent on the first `n` rows, less what is received.
pub open spec fn balance(
    sends: Seq<&Interaction>,
    receives: Seq<&Interaction>,
    preprocessed: Option<&Matrix<Felt>>,
    main: Matrix<Felt>,
    alpha: Ext,
    beta: Ext,
    n: nat,
) -> Ext {
    ring::sum(
        n,
        |r: int|
            ring::minus(
                sent(sends, permutation::prep_row(preprocessed, r), main.row(r), alpha, beta),
                sent(receives, permutation::prep_row(preprocessed, r), main.row(r), alpha, beta),
            ),
    )
}

/// An element times the product of the others is the product of all.
proof fn lemma_product_with(d: Seq<Ext>, i: int, n: nat)
    requires
        0 <= i < n <= d.len(),
    ensures
        permutation::product_but(d, i, n).times(d[i]) == permutation::product(d, n),
    decreases n,
{
    if n - 1 == i {
        lemma_product_before(d, i, i as nat);
    } else {
        lemma_product_with(d, i, (n - 1) as nat);
        let p = permutation::product_but(d, i, (n - 1) as nat);
        Ext::law_mul_assoc(p, d[n - 1], d[i]);
        Ext::law_mul_comm(d[n - 1], d[i]);
        Ext::law_mul_assoc(p, d[i], d[n - 1]);
    }
}

proof fn lemma_product_before(d: Seq<Ext>, i: int, n: nat)
    requires
        n <= i,
    ensures
        permutation::product_but(d, i, n) == permutation::product(d, n),
    decreases n,
{
    if n > 0 {
        lemma_product_before(d, i, (n - 1) as nat);
    }
}

/// A fraction over a common denominator is the sum of its parts.
pub proof fn lemma_fraction(d: Seq<Ext>, m: Seq<Felt>)
    requires
        ring::invertible(permutation::product(d, d.len())),
    ensures
        permutation::numerator(d, m).times(ring::inv(permutation::product(d, d.len())))
            == ring::sum(d.len(), |i: int| ext::embed(m[i]).times(ring::inv(d[i]))),
{
    let n = d.len();
    let p = permutation::product(d, n);
    let r = choose|r: Ext| p.times(r) == Ext::one_spec();
    ring::lemma_inv(p, r);
    let q = ring::inv(p);
    let f = |i: int| ext::embed(m[i]).times(permutation::product_but(d, i, d.len()));
    let g = |i: int| ext::embed(m[i]).times(ring::inv(d[i]));
    let h = |i: int| q.times(f(i));
    assert forall|i: int| 0 <= i < n implies #[trigger] h(i) == g(i) by {
        let others = permutation::product_but(d, i, n);
        lemma_product_with(d, i, n);
        Ext::law_mul_comm(others, d[i]);
        Ext::law_mul_assoc(d[i], others, q);
        ring::lemma_inv(d[i], others.times(q));
        ring::lemma_mul_reduced(others, q);
        Ext::law_mul_comm(q, f(i));
        Ext::law_mul_assoc(ext::embed(m[i]), others, q);
    }
    ring::lemma_sum_scale(n, q, f);
    ring::lemma_sum_ext(n, h, g);
    ring::lemma_sum_ext(n, h, |i: int| q.times(f(i)));
    assert(permutation::numerator(d, m) == ring::sum(n, f));
    Ext::law_mul_comm(permutation::numerator(d, m), q);
    ring::lemma_sum_ext(n, g, |i: int| ext::embed(m[i]).times(ring::inv(d[i])));
}

/// The interaction with number `k` and what it adds.
spec fn nth_contribution(
    sends: Seq<&Interaction>,
    receives: Seq<&Interaction>,
    prep: Seq<Felt>,
    main: Seq<Felt>,
    alpha: Ext,
    beta: Ext,
    k: int,
) -> Ext {
    let (msg, is_send) = permutation::nth(sends, receives, k);
    contribution(msg, is_send, prep, main, alpha, beta)
}

/// Where the first `c` batches end.
spec fn batch_end(total: nat, batch_size: nat, c: nat) -> nat {
    if c * batch_size < total {
        (c * batch_size) as nat
    } else {
        total
    }
}

/// The first `c` batches add up to their interactions.
proof fn lemma_batches_sum(
    sends: Seq<&Interaction>,
    receives: Seq<&Interaction>,
    batch_size: nat,
    prep: Seq<Felt>,
    main: Seq<Felt>,
    alpha: Ext,
    beta: Ext,
    c: nat,
)
    requires
        batch_size > 0,
        sends.len() + receives.len() > 0,
        c <= permutation::ceil_div(sends.len() + receives.len(), batch_size),
        forall|e: int| 0 <= e < c ==> ({
            let d = #[trigger] permutation::batch_denominators(
                sends,
                receives,
                batch_size,
                prep,
                main,
                alpha,
                beta,
                e,
            );
            ring::invertible(permutation::product(d, d.len()))
        }),
    ensures
        ring::sum(
            c,
            |e: int|
                permutation::batch_value(
                    sends,
                    receives,
                    batch_size,
                    prep,
                    main,
                    alpha,
                    beta,
                    e,
                ),
        ) == ring::sum(
            batch_end(sends.len() + receives.len(), batch_size, c),
            |k: int| nth_contribution(sends, receives, prep, main, alpha, beta, k),
        ),
    decreases c,
{
    let total = sends.len() + receives.len();
    let value = |e: int|
        permutation::batch_value(sends, receives, batch_size, prep, main, alpha, beta, e);
    let t = |k: int| nth_contribution(sends, receives, prep, main, alpha, beta, k);
    if c > 0 {
        let e = c - 1;
        lemma_batches_sum(sends, receives, batch_size, prep, main, alpha, beta, e as nat);
        permutation::lemma_batches(total, batch_size, e);
        let start = (e * batch_size) as nat;
        let len = permutation::batch_len(total, batch_size, e);
        assert(c * batch_size == start + batch_size) by (nonlinear_arith)
            requires
                e == c - 1,
                start == e * batch_size,
        ;
        assert(batch_end(total, batch_size, c) == start + len);
        let d = permutation::batch_denominators(
            sends,
            receives,
            batch_size,
            prep,
            main,
            alpha,
            beta,
            e,
        );
        let m = permutation::batch_multiplicities(sends, receives, batch_size, prep, main, e);
        lemma_fraction(d, m);
        ring::lemma_sum_split(start, len, t);
        let shifted = |i: int| t(start + i);
        let parts = |i: int| ext::embed(m[i]).times(ring::inv(d[i]));
        assert forall|i: int| 0 <= i < len implies #[trigger] parts(i) == shifted(i) by {
            let (msg, is_send) = permutation::nth(sends, receives, e * batch_size + i);
        }
        ring::lemma_sum_ext(len, parts, shifted);
        ring::lemma_sum_ext(d.len(), |i: int| ext::embed(m[i]).times(ring::inv(d[i])), parts);
        ring::lemma_sum_ext(len, shifted, |i: int| t(start + i));
        ring::lemma_sum_ext(
            e as nat,
            value,
            |e: int|
                permutation::batch_value(
                    sends,
                    receives,
                    batch_size,
                    prep,
                    main,
                    alpha,
                    beta,
                    e,
                ),
        );
    } else {
        assert(0 * batch_size == 0) by (nonlinear_arith);
    }
}

/// All batches together hold all interactions.
proof fn lemma_last_batch(total: nat, batch_size: nat)
    requires
        batch_size > 0,
    ensures
        permutation::ceil_div(total, batch_size) * batch_size >= total,
{
    let (b, q) = (batch_size as int, total as int / batch_size as int);
    lemma_fundamental_div_mod(total as int, b);
    lemma_mul_is_commutative(b, q);
    lemma_mod_bound(total as int, b);
    assert((q + 1) * b == q * b + b) by (nonlinear_arith);
}

/// What is received counts against what is sent.
proof fn lemma_sent_and_received(
    sends: Seq<&Interaction>,
    receives: Seq<&Interaction>,
    prep: Seq<Felt>,
    main: Seq<Felt>,
    alpha: Ext,
    beta: Ext,
)
    ensures
        ring::sum(
            sends.len() + receives.len(),
            |k: int| nth_contribution(sends, receives, prep, main, alpha, beta, k),
        ) == ring::minus(
            sent(sends, prep, main, alpha, beta),
            sent(receives, prep, main, alpha, beta),
        ),
{
    let (m, n) = (sends.len(), receives.len());
    let t = |k: int| nth_contribution(sends, receives, prep, main, alpha, beta, k);
    let f = |i: int| contribution(*sends[i], true, prep, main, alpha, beta);
    let g = |i: int| contribution(*receives[i], true, prep, main, alpha, beta);
    let rest = |i: int| t(m + i);
    let against = |i: int| g(i).negated();
    ring::lemma_sum_split(m, n, t);
    ring::lemma_sum_ext(m, t, f);
    assert forall|i: int| 0 <= i < n implies #[trigger] rest(i) == against(i) by {
        let v = receives[i].multiplicity.value(prep, main);
        ext::lemma_embed(v, v);
        ring::lemma_mul_neg(
            ring::inv(permutation::rlc(*receives[i], prep, main, alpha, beta)),
            ext::embed(v),
        );
    }
    ring::lemma_sum_ext(n, rest, against);
    ring::lemma_sum_ext(n, |i: int| t(m + i), rest);
    ring::lemma_sum_neg(n, g);
    ring::lemma_sum_ext(n, |i: int| g(i).negated(), against);
    ring::lemma_sum_ext(m, f, |i: int| contribution(*sends[i], true, prep, main, alpha, beta));
    ring::lemma_sum_ext(n, g, |i: int| contribution(*receives[i], true, prep, main, alpha, beta));
}

/// The running sum of the permutation argument is what is sent less what is received. It does not
/// depend on the batches that the interactions are put in.
pub proof fn law_running_sum(
    sends: Seq<&Interaction>,
    receives: Seq<&Interaction>,
    preprocessed: Option<&Matrix<Felt>>,
    main: Matrix<Felt>,
    alpha: Ext,
    beta: Ext,
    batch_size: nat,
    n: nat,
)
    requires
        batch_size > 0,
        sends.len() + receives.len() > 0,
        n <= main.rows(),
        permutation::denominators_invertible(
            sends,
            receives,
            preprocessed,
            main,
            alpha,
            beta,
            batch_size,
        ),
    ensures
        permutation::running_sum(
            sends,
            receives,
            preprocessed,
            main,
            alpha,
            beta,
            batch_size,
            n,
        ) == balance(sends, receives, preprocessed, main, alpha, beta, n),
{
    let total = sends.len() + receives.len();
    let count = permutation::ceil_div(total, batch_size);
    let f = |r: int|
        permutation::row_total(
            sends,
            receives,
            preprocessed,
            main,
            alpha,
            beta,
            batch_size,
            r,
        );
    let g = |r: int|
        ring::minus(
            sent(sends, permutation::prep_row(preprocessed, r), main.row(r), alpha, beta),
            sent(receives, permutation::prep_row(preprocessed, r), main.row(r), alpha, beta),
        );
    lemma_last_batch(total, batch_size);
    assert forall|r: int| 0 <= r < n implies #[trigger] f(r) == g(r) by {
        let (prep, row) = (permutation::prep_row(preprocessed, r), main.row(r));
        assert forall|e: int| 0 <= e < count implies ({
            let d = #[trigger] permutation::batch_denominators(
                sends,
                receives,
                batch_size,
                prep,
                row,
                alpha,
                beta,
                e,
            );
            ring::invertible(permutation::product(d, d.len()))
        }) by {}
        lemma_batches_sum(sends, receives, batch_size, prep, row, alpha, beta, count);
        lemma_sent_and_received(sends, receives, prep, row, alpha, beta);
        ring::lemma_sum_ext(
            count,
            |c: int|
                permutation::trace_entry(
                    sends,
                    receives,
                    preprocessed,
                    main,
                    alpha,
                    beta,
                    batch_size,
                    r,
                    c,
                ),
            |e: int|
                permutation::batch_value(
                    sends,
                    receives,
                    batch_size,
                    prep,
                    row,
                    alpha,
                    beta,
                    e,
                ),
        );
    }
    ring::lemma_sum_ext(n, f, g);
}

/// Two permutation traces of the same interactions, whatever the sizes of their batches, end in
/// the same sum.
pub proof fn law_sum_ignores_batches(
    a: Matrix<Ext>,
    b: Matrix<Ext>,
    sends: Seq<&Interaction>,
    receives: Seq<&Interaction>,
    preprocessed: Option<&Matrix<Felt>>,
    main: Matrix<Felt>,
    alpha: Ext,
    beta: Ext,
    batch_a: nat,
    batch_b: nat,
)
    requires
        batch_a > 0,
        batch_b > 0,
        sends.len() + receives.len() > 0,
        permutation::is_permutation_trace(
            a,
            sends,
            receives,
            preprocessed,
            main,
            alpha,
            beta,
            batch_a,
        ),
        permutation::is_permutation_trace(
            b,
            sends,
            receives,
            preprocessed,
            main,
            alpha,
            beta,
            batch_b,
        ),
    ensures
        permutation::running_sum(
            sends,
            receives,
            preprocessed,
            main,
            alpha,
            beta,
            batch_a,
            main.rows(),
        ) == permutation::running_sum(
            sends,
            receives,
            preprocessed,
            main,
            alpha,
            beta,
            batch_b,
            main.rows(),
        ),
{
    let n = main.rows();
    law_running_sum(sends, receives, preprocessed, main, alpha, beta, batch_a, n);
    law_running_sum(sends, receives, preprocessed, main, alpha, beta, batch_b, n);
}

/// Exchanging what is sent and what is received negates the sum, whatever the sizes of the
/// batches.
pub proof fn law_exchange_negates(
    a: Matrix<Ext>,
    b: Matrix<Ext>,
    sends: Seq<&Interaction>,
    receives: Seq<&Interaction>,
    preprocessed: Option<&Matrix<Felt>>,
    main: Matrix<Felt>,
    alpha: Ext,
    beta: Ext,
    batch_a: nat,
    batch_b: nat,
)
    requires
        batch_a > 0,
        batch_b > 0,
        sends.len() + receives.len() > 0,
        permutation::is_permutation_trace(
            a,
            sends,
            receives,
            preprocessed,
            main,
            alpha,
            beta,
            batch_a,
        ),
        permutation::is_permutation_trace(
            b,
            receives,
            sends,
            preprocessed,
            main,
            alpha,
            beta,
            batch_b,
        ),
    ensures
        permutation::running_sum(
            receives,
            sends,
            preprocessed,
            main,
            alpha,
            beta,
            batch_b,
            main.rows(),
        ) == permutation::running_sum(
            sends,
            receives,
            preprocessed,
            main,
            alpha,
            beta,
            batch_a,
            main.rows(),
        ).negated(),
{
    let n = main.rows();
    law_running_sum(sends, receives, preprocessed, main, alpha, beta, batch_a, n);
    law_running_sum(receives, sends, preprocessed, main, alpha, beta, batch_b, n);
    let f = |r: int|
        ring::minus(
            sent(sends, permutation::prep_row(preprocessed, r), main.row(r), alpha, beta),
            sent(receives, permutation::prep_row(preprocessed, r), main.row(r), alpha, beta),
        );
    let g = |r: int|
        ring::minus(
            sent(receives, permutation::prep_row(preprocessed, r), main.row(r), alpha, beta),
            sent(sends, permutation::prep_row(preprocessed, r), main.row(r), alpha, beta),
        );
    let h = |r: int| f(r).negated();
    assert forall|r: int| 0 <= r < n implies #[trigger] g(r) == h(r) by {
        let (prep, row) = (permutation::prep_row(preprocessed, r), main.row(r));
        let (x, y) = (
            sent(sends, prep, row, alpha, beta),
            sent(receives, prep, row, alpha, beta),
        );
        ring::lemma_neg_add(x, y.negated());
        ring::lemma_neg_neg(y);
        ring::lemma_add_reduced(y, x.negated());
        Ext::law_add_comm(x.negated(), ring::reduced(y));
        ring::lemma_add_reduced(y, x.negated());
    }
    ring::lemma_sum_ext(n, g, h);
    ring::lemma_sum_neg(n, f);
    ring::lemma_sum_ext(n, h, |r: int| f(r).negated());
}

/// Where the same interactions are sent and received, the sum is zero.
pub proof fn law_equal_lists_cancel(
    trace: Matrix<Ext>,
    ints: Seq<&Interaction>,
    preprocessed: Option<&Matrix<Felt>>,
    main: Matrix<Felt>,
    alpha: Ext,
    beta: Ext,
    batch_size: nat,
)
    requires
        batch_size > 0,
        ints.len() > 0,
        permutation::is_permutation_trace(
            trace,
            ints,
            ints,
            preprocessed,
            main,
            alpha,
            beta,
            batch_size,
        ),
    ensures
        permutation::running_sum(
            ints,
            ints,
            preprocessed,
            main,
            alpha,
            beta,
            batch_size,
            main.rows(),
        ) == Ext::zero_spec(),
{
    let n = main.rows();
    law_running_sum(ints, ints, preprocessed, main, alpha, beta, batch_size, n);
    let f = |r: int|
        ring::minus(
            sent(ints, permutation::prep_row(preprocessed, r), main.row(r), alpha, beta),
            sent(ints, permutation::prep_row(preprocessed, r), main.row(r), alpha, beta),
        );
    assert forall|r: int| 0 <= r < n implies #[trigger] f(r) == Ext::zero_spec() by {
        ring::lemma_sub_self(
            sent(ints, permutation::prep_row(preprocessed, r), main.row(r), alpha, beta),
        );
    }
    ring::lemma_sum_zero(n, f);
}

/// The number of permutation constraints: one for each batch and three for the running sum, none
/// of these without interactions, and fourteen for the global digest where one is committed to.
pub proof fn law_constraint_count(
    sends: Seq<&Interaction>,
    receives: Seq<&Interaction>,
    batch_size: nat,
    scope: InteractionScope,
    challenges: Seq<Ext>,
    local_sum: Ext,
    digest: SepticDigest,
    main_width: nat,
    env: Window,
)
    ensures
        ({
            let total = sends.len() + receives.len();
            let all = constraints::permutation_constraints(
                sends,
                receives,
                batch_size,
                scope,
                challenges,
                local_sum,
                digest,
                main_width,
                env,
            );
            let local = if total == 0 {
                0
            } else {
                permutation::ceil_div(total, batch_size) + 3
            };
            all.len() == local + if scope == InteractionScope::Global {
                14nat
            } else {
                0nat
            }
        }),
{
    let total = sends.len() + receives.len();
    let batches = permutation::ceil_div(total, batch_size);
    let each = constraints::batch_constraints(
        sends,
        receives,
        batch_size,
        challenges,
        batches,
        env,
    );
    let global = constraints::global_constraints(
        main_width,
        digest,
        if scope == InteractionScope::Global {
            14
        } else {
            0
        },
        env,
    );
    lemma_three_more(
        each,
        constraints::first_row_constraint(batches, env),
        constraints::transition_constraint(batches, env),
        constraints::last_row_constraint(batches, local_sum, env),
        global,
    );
}

proof fn lemma_three_more(a: Seq<Ext>, x: Ext, y: Ext, z: Ext, b: Seq<Ext>)
    ensures
        (a + seq![x, y, z] + b).len() == a.len() + 3 + b.len(),
{
}

/// The difference of two elements, times one that is not zero, is not zero.
proof fn lemma_differs(a: Ext, b: Ext, sel: Felt)
    requires
        ring::reduced(sel) != Felt::zero_spec(),
        ring::reduced(a) == a,
        ring::reduced(b) != a,
    ensures
        ring::minus(a, b).times(ext::embed(sel)) != Ext::zero_spec(),
{
    let diff = ring::minus(a, b);
    let s = ext::embed(sel);
    prime::law_nonzero_is_invertible(sel);
    let r = choose|r: Felt| sel.times(r) == Felt::one_spec();
    ext::lemma_embed(sel, r);
    if diff.times(s) == Ext::zero_spec() {
        Ext::law_mul_assoc(diff, s, ext::embed(r));
        ring::lemma_mul_zero(ext::embed(r));
        ring::lemma_mul_one(diff);
        ring::lemma_add_reduced(a, b.negated());
        ring::lemma_sub_zero(a, b);
    }
}

/// The last column of a permutation trace ends with the sum of all rows, in canonical form.
proof fn lemma_ends_with_sum(
    trace: Matrix<Ext>,
    sends: Seq<&Interaction>,
    receives: Seq<&Interaction>,
    preprocessed: Option<&Matrix<Felt>>,
    main: Matrix<Felt>,
    alpha: Ext,
    beta: Ext,
    batch_size: nat,
)
    requires
        main.rows() > 0,
        permutation::is_permutation_trace(
            trace,
            sends,
            receives,
            preprocessed,
            main,
            alpha,
            beta,
            batch_size,
        ),
    ensures
        ({
            let n = permutation::ceil_div(sends.len() + receives.len(), batch_size);
            let sum = permutation::running_sum(
                sends,
                receives,
                preprocessed,
                main,
                alpha,
                beta,
                batch_size,
                main.rows(),
            );
            trace.at(main.rows() - 1, n as int) == sum && ring::reduced(sum) == sum
        }),
{
    let f = |r: int|
        permutation::row_total(sends, receives, preprocessed, main, alpha, beta, batch_size, r);
    ring::lemma_sum_reduced(main.rows(), f);
}

/// On the last row of a permutation trace, the constraint of the claimed sum does not vanish for
/// any other sum than that of the trace.
pub proof fn law_wrong_sum_is_seen(
    trace: Matrix<Ext>,
    sends: Seq<&Interaction>,
    receives: Seq<&Interaction>,
    preprocessed: Option<&Matrix<Felt>>,
    main: Matrix<Felt>,
    challenges: Seq<Ext>,
    batch_size: nat,
    scope: InteractionScope,
    digest: SepticDigest,
    claimed: Ext,
    env: Window,
)
    requires
        batch_size > 0,
        sends.len() + receives.len() > 0,
        challenges.len() >= 2,
        main.rows() > 0,
        permutation::is_permutation_trace(
            trace,
            sends,
            receives,
            preprocessed,
            main,
            challenges[0],
            challenges[1],
            batch_size,
        ),
        constraints::window_at(env, preprocessed, main, trace, main.rows() - 1),
        ring::reduced(env.selectors[1]) != Felt::zero_spec(),
        ring::reduced(claimed) != permutation::running_sum(
            sends,
            receives,
            preprocessed,
            main,
            challenges[0],
            challenges[1],
            batch_size,
            main.rows(),
        ),
    ensures
        ({
            let n = permutation::ceil_div(sends.len() + receives.len(), batch_size);
            let all = constraints::permutation_constraints(
                sends,
                receives,
                batch_size,
                scope,
                challenges,
                claimed,
                digest,
                main.width as nat,
                env,
            );
            &&& all[n as int + 2] == constraints::last_row_constraint(n, claimed, env)
            &&& all[n as int + 2] != Ext::zero_spec()
        }),
{
    let n = permutation::ceil_div(sends.len() + receives.len(), batch_size);
    lemma_ends_with_sum(
        trace,
        sends,
        receives,
        preprocessed,
        main,
        challenges[0],
        challenges[1],
        batch_size,
    );
    constraints::lemma_constraint_at(
        sends,
        receives,
        batch_size,
        scope,
        challenges,
        claimed,
        digest,
        main.width as nat,
        env,
        n as int + 2,
    );
    let phi = builder::ext_at(env.perm_local, n as int);
    assert(phi == trace.at(main.rows() - 1, n as int));
    lemma_differs(phi, claimed, env.selectors[1]);
}

} // verus!
