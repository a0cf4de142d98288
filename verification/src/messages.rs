//! What the permutation argument says of the messages of a chip, in terms of what its interactions
//! hold and of the rows of its traces.

use vstd::prelude::*;
use vstd::arithmetic::div_mod::*;
use vstd::arithmetic::mul::*;
use crate::babybear;
use crate::babybear::Felt;
use crate::builder;
use crate::builder::SepticDigest;
use crate::chip::Chip;
use crate::constraints;
use crate::ext;
use crate::ext::Ext;
use crate::lookup;
use crate::lookup::{Interaction, InteractionScope, PairCol, VirtualPairCol};
use crate::matrix::Matrix;
use crate::permutation;
use crate::prime;
use crate::program::Window;
use crate::prover;
use crate::ring;
use crate::ring::Ring;
use crate::sums;

verus! {

/// `alpha`, plus the kind of a message, plus each of its fields times the next power of `beta`. A
/// field is an affine function of the row.
pub open spec fn message(msg: Interaction, prep: Seq<Felt>, main: Seq<Felt>, alpha: Ext, beta: Ext) -> Ext {
    alpha.plus(ext::embed(babybear::felt(msg.argument_index as int))).plus(
        ring::sum(
            msg.values@.len(),
            |j: int|
                ring::pow(beta, (j + 1) as nat).times(
                    ext::embed(lookup::affine(msg.values@[j], prep, main)),
                ),
        ),
    )
}

/// How often a message occurs on a row, over the message.
pub open spec fn share(msg: Interaction, prep: Seq<Felt>, main: Seq<Felt>, alpha: Ext, beta: Ext) -> Ext {
    ext::embed(lookup::affine(msg.multiplicity, prep, main)).times(
        ring::inv(message(msg, prep, main, alpha, beta)),
    )
}

/// The shares of the messages of a list on a row.
pub open spec fn shares(
    ints: Seq<&Interaction>,
    prep: Seq<Felt>,
    main: Seq<Felt>,
    alpha: Ext,
    beta: Ext,
) -> Ext {
    ring::sum(ints.len(), |i: int| share(*ints[i], prep, main, alpha, beta))
}

/// The row of the preprocessed trace, where there is one.
pub open spec fn row_of(preprocessed: Option<&Matrix<Felt>>, r: int) -> Seq<Felt> {
    if preprocessed is Some {
        Seq::new(preprocessed->0.width as nat, |j: int| preprocessed->0.at(r, j))
    } else {
        Seq::empty()
    }
}

/// What is sent on a row less what is received on it.
pub open spec fn net(
    sends: Seq<&Interaction>,
    receives: Seq<&Interaction>,
    preprocessed: Option<&Matrix<Felt>>,
    main: Matrix<Felt>,
    alpha: Ext,
    beta: Ext,
    r: int,
) -> Ext {
    let (prep, row) = (row_of(preprocessed, r), main.row(r));
    ring::minus(
        shares(sends, prep, row, alpha, beta),
        shares(receives, prep, row, alpha, beta),
    )
}

/// Reducing an element before it is embedded does not change a product with it.
proof fn lemma_embed_reduced(x: Ext, v: Felt)
    ensures
        x.times(ext::embed(ring::reduced(v))) == x.times(ext::embed(v)),
        ext::embed(ring::reduced(v)).times(x) == ext::embed(v).times(x),
{
    ext::lemma_embed(v, Felt::zero_spec());
    assert(ext::embed(ring::reduced(v)) == ring::reduced(ext::embed(v)));
    ring::lemma_mul_reduced(x, ext::embed(v));
    ring::lemma_mul_reduced(ext::embed(v), x);
}

proof fn lemma_fingerprint(
    msg: Interaction,
    prep: Seq<Felt>,
    main: Seq<Felt>,
    alpha: Ext,
    beta: Ext,
    n: nat,
)
    requires
        n <= msg.values@.len(),
    ensures
        permutation::fingerprint(msg, prep, main, alpha, beta, n) == alpha.plus(
            ext::embed(babybear::felt(msg.argument_index as int)),
        ).plus(
            ring::sum(
                n,
                |j: int|
                    ring::pow(beta, (j + 1) as nat).times(
                        ext::embed(lookup::affine(msg.values@[j], prep, main)),
                    ),
            ),
        ),
    decreases n,
{
    let kind = ext::embed(babybear::felt(msg.argument_index as int));
    let f = |j: int|
        ring::pow(beta, (j + 1) as nat).times(
            ext::embed(lookup::affine(msg.values@[j], prep, main)),
        );
    if n == 0 {
        ring::lemma_mul_one(kind);
        ring::lemma_add_reduced(alpha, kind);
        assert(ring::sum(0, f) == Ext::zero_spec());
    } else {
        let m = (n - 1) as nat;
        lemma_fingerprint(msg, prep, main, alpha, beta, m);
        let v = msg.values@[m as int].value(prep, main);
        lookup::law_affine_value(msg.values@[m as int], prep, main);
        lemma_embed_reduced(ring::pow(beta, n), v);
        assert(f(m as int) == ring::pow(beta, n).times(ext::embed(v)));
        Ext::law_add_assoc(alpha.plus(kind), ring::sum(m, f), f(m as int));
    }
}

/// The combination of an interaction on a row is its message.
pub proof fn law_combination_is_message(
    msg: Interaction,
    prep: Seq<Felt>,
    main: Seq<Felt>,
    alpha: Ext,
    beta: Ext,
)
    ensures
        permutation::rlc(msg, prep, main, alpha, beta) == message(msg, prep, main, alpha, beta),
{
    lemma_fingerprint(msg, prep, main, alpha, beta, msg.values@.len());
}

/// A send counts as its share, a receive against it.
proof fn lemma_contribution(
    msg: Interaction,
    is_send: bool,
    prep: Seq<Felt>,
    main: Seq<Felt>,
    alpha: Ext,
    beta: Ext,
)
    ensures
        sums::contribution(msg, is_send, prep, main, alpha, beta) == if is_send {
            share(msg, prep, main, alpha, beta)
        } else {
            share(msg, prep, main, alpha, beta).negated()
        },
{
    law_combination_is_message(msg, prep, main, alpha, beta);
    let v = msg.multiplicity.value(prep, main);
    lookup::law_affine_value(msg.multiplicity, prep, main);
    let q = ring::inv(message(msg, prep, main, alpha, beta));
    lemma_embed_reduced(q, v);
    ext::lemma_embed(v, v);
    ring::lemma_mul_neg(q, ext::embed(v));
}

proof fn lemma_sent(
    ints: Seq<&Interaction>,
    prep: Seq<Felt>,
    main: Seq<Felt>,
    alpha: Ext,
    beta: Ext,
)
    ensures
        sums::sent(ints, prep, main, alpha, beta) == shares(ints, prep, main, alpha, beta),
{
    let f = |i: int| sums::contribution(*ints[i], true, prep, main, alpha, beta);
    let g = |i: int| share(*ints[i], prep, main, alpha, beta);
    assert forall|i: int| 0 <= i < ints.len() implies #[trigger] f(i) == g(i) by {
        lemma_contribution(*ints[i], true, prep, main, alpha, beta);
    }
    ring::lemma_sum_ext(ints.len(), f, g);
}

proof fn lemma_balance(
    sends: Seq<&Interaction>,
    receives: Seq<&Interaction>,
    preprocessed: Option<&Matrix<Felt>>,
    main: Matrix<Felt>,
    alpha: Ext,
    beta: Ext,
    n: nat,
)
    ensures
        sums::balance(sends, receives, preprocessed, main, alpha, beta, n) == ring::sum(
            n,
            |r: int| net(sends, receives, preprocessed, main, alpha, beta, r),
        ),
{
    let f = |r: int|
        ring::minus(
            sums::sent(sends, permutation::prep_row(preprocessed, r), main.row(r), alpha, beta),
            sums::sent(receives, permutation::prep_row(preprocessed, r), main.row(r), alpha, beta),
        );
    let g = |r: int| net(sends, receives, preprocessed, main, alpha, beta, r);
    assert forall|r: int| 0 <= r < n implies #[trigger] f(r) == g(r) by {
        let prep = permutation::prep_row(preprocessed, r);
        assert(prep =~= row_of(preprocessed, r));
        lemma_sent(sends, prep, main.row(r), alpha, beta);
        lemma_sent(receives, prep, main.row(r), alpha, beta);
    }
    ring::lemma_sum_ext(n, f, g);
}

/// The last column of a permutation trace adds up, row by row, what is sent less what is received:
/// for each interaction its multiplicity over its message. So it ends with that sum over all rows.
pub proof fn law_trace_adds_up_messages(
    trace: Matrix<Ext>,
    sends: Seq<&Interaction>,
    receives: Seq<&Interaction>,
    preprocessed: Option<&Matrix<Felt>>,
    main: Matrix<Felt>,
    alpha: Ext,
    beta: Ext,
    batch_size: nat,
    r: int,
)
    requires
        batch_size > 0,
        sends.len() + receives.len() > 0,
        0 <= r < main.rows(),
        permutation::is_permutation_trace(
            trace,
            sends,
            receives,
            preprocessed,
            main,
            alpha,
            beta,
            batch_size,
        ),
    ensures
        trace.width > 0,
        trace.at(r, trace.width - 1) == ring::sum(
            (r + 1) as nat,
            |q: int| net(sends, receives, preprocessed, main, alpha, beta, q),
        ),
        permutation::running_sum(
            sends,
            receives,
            preprocessed,
            main,
            alpha,
            beta,
            batch_size,
            main.rows(),
        ) == ring::sum(
            main.rows(),
            |q: int| net(sends, receives, preprocessed, main, alpha, beta, q),
        ),
{
    let rows = main.rows();
    let chunks = permutation::ceil_div(sends.len() + receives.len(), batch_size);
    assert(trace.at(r, chunks as int) == permutation::running_sum(
        sends,
        receives,
        preprocessed,
        main,
        alpha,
        beta,
        batch_size,
        (r + 1) as nat,
    ));
    sums::law_running_sum(
        sends,
        receives,
        preprocessed,
        main,
        alpha,
        beta,
        batch_size,
        (r + 1) as nat,
    );
    sums::law_running_sum(sends, receives, preprocessed, main, alpha, beta, batch_size, rows);
    lemma_balance(sends, receives, preprocessed, main, alpha, beta, (r + 1) as nat);
    lemma_balance(sends, receives, preprocessed, main, alpha, beta, rows);
}

/// The share of the interaction with number `k` of a chip, sends first; that of a receive counts
/// against the others.
pub open spec fn nth_share(
    sends: Seq<&Interaction>,
    receives: Seq<&Interaction>,
    prep: Seq<Felt>,
    main: Seq<Felt>,
    alpha: Ext,
    beta: Ext,
    k: int,
) -> Ext {
    if k < sends.len() {
        share(*sends[k], prep, main, alpha, beta)
    } else {
        share(*receives[k - sends.len()], prep, main, alpha, beta).negated()
    }
}

/// An entry of a permutation trace is the sum of the shares of the interactions of its batch: of as
/// many as a batch holds, from where the batches before it end, or of those that are left.
pub proof fn law_entry_adds_up_batch(
    trace: Matrix<Ext>,
    sends: Seq<&Interaction>,
    receives: Seq<&Interaction>,
    preprocessed: Option<&Matrix<Felt>>,
    main: Matrix<Felt>,
    alpha: Ext,
    beta: Ext,
    batch_size: nat,
    r: int,
    c: int,
)
    requires
        batch_size > 0,
        sends.len() + receives.len() > 0,
        0 <= r < main.rows(),
        0 <= c < trace.width - 1,
        permutation::is_permutation_trace(
            trace,
            sends,
            receives,
            preprocessed,
            main,
            alpha,
            beta,
            batch_size,
        ),
    ensures
        ({
            let left = sends.len() + receives.len() - c * batch_size;
            let len = if left < batch_size {
                left
            } else {
                batch_size as int
            };
            &&& left > 0
            &&& trace.at(r, c) == ring::sum(
                len as nat,
                |i: int|
                    nth_share(
                        sends,
                        receives,
                        row_of(preprocessed, r),
                        main.row(r),
                        alpha,
                        beta,
                        c * batch_size + i,
                    ),
            )
        }),
{
    let total = sends.len() + receives.len();
    let (prep, row) = (permutation::prep_row(preprocessed, r), main.row(r));
    assert(prep =~= row_of(preprocessed, r));
    permutation::lemma_batches(total, batch_size, c);
    let d = permutation::batch_denominators(
        sends,
        receives,
        batch_size,
        prep,
        row,
        alpha,
        beta,
        c,
    );
    let m = permutation::batch_multiplicities(sends, receives, batch_size, prep, row, c);
    assert(ring::invertible(permutation::product(d, d.len())));
    sums::lemma_fraction(d, m);
    let f = |i: int| ext::embed(m[i]).times(ring::inv(d[i]));
    let g = |i: int| nth_share(sends, receives, prep, row, alpha, beta, c * batch_size + i);
    assert((c + 1) * batch_size == c * batch_size + batch_size) by (nonlinear_arith);
    assert forall|i: int| 0 <= i < d.len() implies #[trigger] f(i) == g(i) by {
        let (msg, is_send) = permutation::nth(sends, receives, c * batch_size + i);
        lemma_contribution(msg, is_send, prep, row, alpha, beta);
    }
    ring::lemma_sum_ext(d.len(), f, g);
    assert(trace.at(r, c) == permutation::trace_entry(
        sends,
        receives,
        preprocessed,
        main,
        alpha,
        beta,
        batch_size,
        r,
        c,
    ));
}

/// The batches hold all interactions, and none of them is empty.
pub proof fn law_batches_cover(total: nat, batch_size: nat)
    requires
        batch_size > 0,
    ensures
        permutation::ceil_div(total, batch_size) * batch_size >= total,
        total > 0 ==> (permutation::ceil_div(total, batch_size) - 1) * batch_size < total,
        total == 0 ==> permutation::ceil_div(total, batch_size) == 0,
{
    let (t, b) = (total as int, batch_size as int);
    let q = t / b;
    lemma_fundamental_div_mod(t, b);
    lemma_mod_bound(t, b);
    lemma_mul_is_commutative(b, q);
    assert((q + 1) * b == q * b + b) by (nonlinear_arith);
    assert((q - 1) * b == q * b - b) by (nonlinear_arith);
    if total == 0 {
        lemma_basic_div(0, b);
        lemma_small_mod(0, batch_size);
    }
}

/// One of a product of two elements is zero, where the product is and the other has an inverse.
proof fn lemma_factor_zero(x: Ext, sel: Felt)
    requires
        x.times(ext::embed(sel)) == Ext::zero_spec(),
        ring::reduced(sel) != Felt::zero_spec(),
    ensures
        ring::reduced(x) == Ext::zero_spec(),
{
    prime::law_nonzero_is_invertible(sel);
    let r = choose|r: Felt| sel.times(r) == Felt::one_spec();
    ext::lemma_embed(sel, r);
    Ext::law_mul_assoc(x, ext::embed(sel), ext::embed(r));
    ring::lemma_mul_zero(ext::embed(r));
    ring::lemma_mul_one(x);
}

/// Whether every permutation constraint vanishes on the window of a row.
pub open spec fn all_vanish(
    sends: Seq<&Interaction>,
    receives: Seq<&Interaction>,
    batch_size: nat,
    scope: InteractionScope,
    challenges: Seq<Ext>,
    claimed: Ext,
    digest: SepticDigest,
    main_width: nat,
    env: Window,
) -> bool {
    let all = constraints::permutation_constraints(
        sends,
        receives,
        batch_size,
        scope,
        challenges,
        claimed,
        digest,
        main_width,
        env,
    );
    forall|k: int| 0 <= k < all.len() ==> #[trigger] all[k] == Ext::zero_spec()
}

/// Whether the selectors of the window of row `r` are set where they have to be.
pub open spec fn selected(env: Window, rows: nat, r: int) -> bool {
    &&& r == 0 ==> ring::reduced(env.selectors[0]) != Felt::zero_spec()
    &&& r == rows - 1 ==> ring::reduced(env.selectors[1]) != Felt::zero_spec()
    &&& r < rows - 1 ==> ring::reduced(env.selectors[2]) != Felt::zero_spec()
}

/// A vanishing constraint of a batch leaves one value for its entry.
proof fn lemma_batch_forced(
    sends: Seq<&Interaction>,
    receives: Seq<&Interaction>,
    batch_size: nat,
    challenges: Seq<Ext>,
    c: int,
    env: Window,
)
    requires
        constraints::batch_constraint(sends, receives, batch_size, challenges, c, env)
            == Ext::zero_spec(),
        ring::invertible(
            permutation::product(
                constraints::denominators(sends, receives, batch_size, challenges, c, env),
                constraints::denominators(sends, receives, batch_size, challenges, c, env).len(),
            ),
        ),
    ensures
        ring::reduced(builder::ext_at(env.perm_local, c)) == permutation::batch_value(
            sends,
            receives,
            batch_size,
            env.prep_local,
            env.main_local,
            challenges[0],
            challenges[1],
            c,
        ),
{
    let d = constraints::denominators(sends, receives, batch_size, challenges, c, env);
    let m = constraints::multiplicities(sends, receives, batch_size, c, env);
    let p = permutation::product(d, d.len());
    let num = permutation::numerator(d, m);
    let x = builder::ext_at(env.perm_local, c);
    let r = choose|r: Ext| p.times(r) == Ext::one_spec();
    ring::lemma_inv(p, r);
    let q = ring::inv(p);
    ring::lemma_sub_zero(p.times(x), num);
    ring::lemma_mul_reduced(p, x);
    ring::lemma_mul_reduced(num, q);
    Ext::law_mul_comm(p, x);
    Ext::law_mul_assoc(x, p, q);
    ring::lemma_mul_one(x);
}

/// What the constraints of one row leave for its entries and its running sum.
proof fn lemma_row_forced(
    trace: Matrix<Ext>,
    sends: Seq<&Interaction>,
    receives: Seq<&Interaction>,
    preprocessed: Option<&Matrix<Felt>>,
    main: Matrix<Felt>,
    challenges: Seq<Ext>,
    batch_size: nat,
    scope: InteractionScope,
    claimed: Ext,
    digest: SepticDigest,
    env: Window,
    r: int,
)
    requires
        batch_size > 0,
        sends.len() + receives.len() > 0,
        0 <= r < main.rows(),
        trace.width == permutation::ceil_div(sends.len() + receives.len(), batch_size) + 1,
        permutation::denominators_invertible(
            sends,
            receives,
            preprocessed,
            main,
            challenges[0],
            challenges[1],
            batch_size,
        ),
        constraints::window_at(env, preprocessed, main, trace, r),
        selected(env, main.rows(), r),
        all_vanish(
            sends,
            receives,
            batch_size,
            scope,
            challenges,
            claimed,
            digest,
            main.width as nat,
            env,
        ),
    ensures
        ({
            let n = permutation::ceil_div(sends.len() + receives.len(), batch_size);
            let phi = builder::ext_at(env.perm_local, n as int);
            &&& forall|c: int|
                0 <= c < n ==> ring::reduced(#[trigger] trace.at(r, c)) == permutation::trace_entry(
                    sends,
                    receives,
                    preprocessed,
                    main,
                    challenges[0],
                    challenges[1],
                    batch_size,
                    r,
                    c,
                )
            &&& r == 0 ==> ring::reduced(trace.at(0, n as int)) == constraints::entries_sum(
                env.perm_local,
                n,
            )
            &&& r + 1 < main.rows() ==> ring::reduced(trace.at(r + 1, n as int)) == trace.at(
                r,
                n as int,
            ).plus(constraints::entries_sum(env.perm_next, n))
            &&& r == main.rows() - 1 ==> ring::reduced(trace.at(r, n as int)) == ring::reduced(
                claimed,
            )
        }),
{
    let n = permutation::ceil_div(sends.len() + receives.len(), batch_size);
    let all = constraints::permutation_constraints(
        sends,
        receives,
        batch_size,
        scope,
        challenges,
        claimed,
        digest,
        main.width as nat,
        env,
    );
    let phi = builder::ext_at(env.perm_local, n as int);
    assert(phi == trace.at(r, n as int));
    assert forall|c: int| 0 <= c < n implies ring::reduced(#[trigger] trace.at(r, c))
        == permutation::trace_entry(
        sends,
        receives,
        preprocessed,
        main,
        challenges[0],
        challenges[1],
        batch_size,
        r,
        c,
    ) by {
        constraints::lemma_constraint_at(
            sends,
            receives,
            batch_size,
            scope,
            challenges,
            claimed,
            digest,
            main.width as nat,
            env,
            c,
        );
        assert(all[c] == Ext::zero_spec());
        let d = permutation::batch_denominators(
            sends,
            receives,
            batch_size,
            permutation::prep_row(preprocessed, r),
            main.row(r),
            challenges[0],
            challenges[1],
            c,
        );
        assert(ring::invertible(permutation::product(d, d.len())));
        lemma_batch_forced(sends, receives, batch_size, challenges, c, env);
        assert(builder::ext_at(env.perm_local, c) == trace.at(r, c));
    }
    constraints::lemma_constraint_at(
        sends,
        receives,
        batch_size,
        scope,
        challenges,
        claimed,
        digest,
        main.width as nat,
        env,
        n as int,
    );
    constraints::lemma_constraint_at(
        sends,
        receives,
        batch_size,
        scope,
        challenges,
        claimed,
        digest,
        main.width as nat,
        env,
        n as int + 1,
    );
    constraints::lemma_constraint_at(
        sends,
        receives,
        batch_size,
        scope,
        challenges,
        claimed,
        digest,
        main.width as nat,
        env,
        n as int + 2,
    );
    assert(all[n as int] == Ext::zero_spec());
    assert(all[n as int + 1] == Ext::zero_spec());
    assert(all[n as int + 2] == Ext::zero_spec());
    if r == 0 {
        lemma_first_forced(n, env);
    }
    if r + 1 < main.rows() {
        assert(builder::ext_at(env.perm_next, n as int) == trace.at(r + 1, n as int));
        lemma_transition_forced(n, env);
    }
    if r == main.rows() - 1 {
        lemma_last_forced(n, claimed, env);
    }
}

proof fn lemma_first_forced(n: nat, env: Window)
    requires
        constraints::first_row_constraint(n, env) == Ext::zero_spec(),
        ring::reduced(env.selectors[0]) != Felt::zero_spec(),
    ensures
        ring::reduced(builder::ext_at(env.perm_local, n as int)) == constraints::entries_sum(
            env.perm_local,
            n,
        ),
{
    let x = builder::ext_at(env.perm_local, n as int);
    let y = constraints::entries_sum(env.perm_local, n);
    lemma_factor_zero(ring::minus(x, y), env.selectors[0]);
    ring::lemma_add_reduced(x, y.negated());
    ring::lemma_sub_zero(x, y);
    ring::lemma_sum_reduced(n, |c: int| builder::ext_at(env.perm_local, c));
}

proof fn lemma_transition_forced(n: nat, env: Window)
    requires
        constraints::transition_constraint(n, env) == Ext::zero_spec(),
        ring::reduced(env.selectors[2]) != Felt::zero_spec(),
    ensures
        ring::reduced(builder::ext_at(env.perm_next, n as int)) == builder::ext_at(
            env.perm_local,
            n as int,
        ).plus(constraints::entries_sum(env.perm_next, n)),
{
    let x = builder::ext_at(env.perm_local, n as int);
    let y = builder::ext_at(env.perm_next, n as int);
    let z = constraints::entries_sum(env.perm_next, n);
    let d = ring::minus(y, x);
    lemma_factor_zero(ring::minus(d, z), env.selectors[2]);
    ring::lemma_add_reduced(d, z.negated());
    ring::lemma_sub_zero(d, z);
    ring::lemma_sum_reduced(n, |c: int| builder::ext_at(env.perm_next, c));
    ring::lemma_add_reduced(y, x.negated());
    ring::lemma_sub_add(y, x);
    Ext::law_add_comm(d, x);
}

proof fn lemma_last_forced(n: nat, claimed: Ext, env: Window)
    requires
        constraints::last_row_constraint(n, claimed, env) == Ext::zero_spec(),
        ring::reduced(env.selectors[1]) != Felt::zero_spec(),
    ensures
        ring::reduced(builder::ext_at(env.perm_local, n as int)) == ring::reduced(claimed),
{
    let x = builder::ext_at(env.perm_local, n as int);
    lemma_factor_zero(ring::minus(x, claimed), env.selectors[1]);
    ring::lemma_add_reduced(x, claimed.negated());
    ring::lemma_sub_zero(x, claimed);
}

/// The constraint of the last row vanishes for the sum that the row holds and for no other.
pub proof fn lemma_last_row(n: nat, claimed: Ext, env: Window, sum: Ext)
    requires
        builder::ext_at(env.perm_local, n as int) == sum,
        ring::reduced(env.selectors[1]) != Felt::zero_spec(),
    ensures
        constraints::last_row_constraint(n, claimed, env) == Ext::zero_spec()
            <==> ring::reduced(claimed) == ring::reduced(sum),
{
    if constraints::last_row_constraint(n, claimed, env) == Ext::zero_spec() {
        lemma_last_forced(n, claimed, env);
    }
    if ring::reduced(claimed) == ring::reduced(sum) {
        ring::lemma_sub_zero(sum, claimed);
        ring::lemma_mul_zero(ext::embed(env.selectors[1]));
    }
}

/// Reducing the terms of a sum does not change it.
proof fn lemma_sum_of_reduced(n: nat, f: spec_fn(int) -> Ext, g: spec_fn(int) -> Ext)
    requires
        forall|i: int| 0 <= i < n ==> ring::reduced(f(i)) == #[trigger] g(i),
    ensures
        ring::sum(n, f) == ring::sum(n, g),
    decreases n,
{
    if n > 0 {
        lemma_sum_of_reduced((n - 1) as nat, f, g);
        assert(ring::reduced(f(n - 1)) == g(n - 1));
        ring::lemma_add_reduced(ring::sum((n - 1) as nat, f), f(n - 1));
    }
}

/// The entries of a row that are forced add up to the total of the row.
proof fn lemma_entries_forced(
    row: Seq<Felt>,
    trace: Matrix<Ext>,
    sends: Seq<&Interaction>,
    receives: Seq<&Interaction>,
    preprocessed: Option<&Matrix<Felt>>,
    main: Matrix<Felt>,
    alpha: Ext,
    beta: Ext,
    batch_size: nat,
    r: int,
)
    requires
        trace.width == permutation::ceil_div(sends.len() + receives.len(), batch_size) + 1,
        constraints::holds_row(row, trace, r),
        forall|c: int|
            0 <= c < trace.width - 1 ==> ring::reduced(#[trigger] trace.at(r, c))
                == permutation::trace_entry(
                sends,
                receives,
                preprocessed,
                main,
                alpha,
                beta,
                batch_size,
                r,
                c,
            ),
    ensures
        constraints::entries_sum(row, (trace.width - 1) as nat) == permutation::row_total(
            sends,
            receives,
            preprocessed,
            main,
            alpha,
            beta,
            batch_size,
            r,
        ),
{
    let n = (trace.width - 1) as nat;
    let f = |c: int| builder::ext_at(row, c);
    let g = |c: int|
        permutation::trace_entry(
            sends,
            receives,
            preprocessed,
            main,
            alpha,
            beta,
            batch_size,
            r,
            c,
        );
    assert forall|c: int| 0 <= c < n implies ring::reduced(f(c)) == #[trigger] g(c) by {
        assert(builder::ext_at(row, c) == trace.at(r, c));
    }
    lemma_sum_of_reduced(n, f, g);
}

/// Whether a trace passes the permutation constraints of a chip on all rows of its traces.
pub open spec fn passes(
    trace: Matrix<Ext>,
    sends: Seq<&Interaction>,
    receives: Seq<&Interaction>,
    preprocessed: Option<&Matrix<Felt>>,
    main: Matrix<Felt>,
    challenges: Seq<Ext>,
    batch_size: nat,
    scope: InteractionScope,
    claimed: Ext,
    digest: SepticDigest,
    envs: Seq<Window>,
) -> bool {
    &&& batch_size > 0
    &&& sends.len() + receives.len() > 0
    &&& trace.width == permutation::ceil_div(sends.len() + receives.len(), batch_size) + 1
    &&& permutation::denominators_invertible(
        sends,
        receives,
        preprocessed,
        main,
        challenges[0],
        challenges[1],
        batch_size,
    )
    &&& envs.len() == main.rows()
    &&& forall|r: int|
        0 <= r < main.rows() ==> {
            &&& constraints::window_at(#[trigger] envs[r], preprocessed, main, trace, r)
            &&& selected(envs[r], main.rows(), r)
            &&& all_vanish(
                sends,
                receives,
                batch_size,
                scope,
                challenges,
                claimed,
                digest,
                main.width as nat,
                envs[r],
            )
        }
}

proof fn lemma_passes_row(
    trace: Matrix<Ext>,
    sends: Seq<&Interaction>,
    receives: Seq<&Interaction>,
    preprocessed: Option<&Matrix<Felt>>,
    main: Matrix<Felt>,
    challenges: Seq<Ext>,
    batch_size: nat,
    scope: InteractionScope,
    claimed: Ext,
    digest: SepticDigest,
    envs: Seq<Window>,
    r: int,
)
    requires
        passes(
            trace,
            sends,
            receives,
            preprocessed,
            main,
            challenges,
            batch_size,
            scope,
            claimed,
            digest,
            envs,
        ),
        0 <= r < main.rows(),
    ensures
        ring::reduced(trace.at(r, trace.width - 1)) == permutation::running_sum(
            sends,
            receives,
            preprocessed,
            main,
            challenges[0],
            challenges[1],
            batch_size,
            (r + 1) as nat,
        ),
        r == main.rows() - 1 ==> ring::reduced(trace.at(r, trace.width - 1)) == ring::reduced(
            claimed,
        ),
        forall|c: int|
            0 <= c < trace.width - 1 ==> ring::reduced(#[trigger] trace.at(r, c))
                == permutation::trace_entry(
                sends,
                receives,
                preprocessed,
                main,
                challenges[0],
                challenges[1],
                batch_size,
                r,
                c,
            ),
    decreases r,
{
    let n = (trace.width - 1) as nat;
    let (alpha, beta) = (challenges[0], challenges[1]);
    let totals = |q: int|
        permutation::row_total(sends, receives, preprocessed, main, alpha, beta, batch_size, q);
    assert(constraints::window_at(envs[r], preprocessed, main, trace, r));
    lemma_row_forced(
        trace,
        sends,
        receives,
        preprocessed,
        main,
        challenges,
        batch_size,
        scope,
        claimed,
        digest,
        envs[r],
        r,
    );
    if r == 0 {
        lemma_entries_forced(
            envs[0].perm_local,
            trace,
            sends,
            receives,
            preprocessed,
            main,
            alpha,
            beta,
            batch_size,
            0,
        );
        reveal_with_fuel(ring::sum, 2);
        ring::lemma_zero_left(totals(0));
        ring::lemma_sum_reduced(
            n,
            |c: int|
                permutation::trace_entry(
                    sends,
                    receives,
                    preprocessed,
                    main,
                    alpha,
                    beta,
                    batch_size,
                    0,
                    c,
                ),
        );
    } else {
        lemma_passes_row(
            trace,
            sends,
            receives,
            preprocessed,
            main,
            challenges,
            batch_size,
            scope,
            claimed,
            digest,
            envs,
            r - 1,
        );
        let before = envs[r - 1];
        assert(constraints::window_at(before, preprocessed, main, trace, r - 1));
        lemma_row_forced(
            trace,
            sends,
            receives,
            preprocessed,
            main,
            challenges,
            batch_size,
            scope,
            claimed,
            digest,
            before,
            r - 1,
        );
        lemma_entries_forced(
            before.perm_next,
            trace,
            sends,
            receives,
            preprocessed,
            main,
            alpha,
            beta,
            batch_size,
            r,
        );
        ring::lemma_add_reduced(trace.at(r - 1, n as int), totals(r));
        assert(permutation::running_sum(
            sends,
            receives,
            preprocessed,
            main,
            alpha,
            beta,
            batch_size,
            (r + 1) as nat,
        ) == permutation::running_sum(
            sends,
            receives,
            preprocessed,
            main,
            alpha,
            beta,
            batch_size,
            r as nat,
        ).plus(totals(r)));
    }
}

/// Only one sum passes. A trace on which all permutation constraints vanish, on every row, has as
/// entries the sums of the shares of its batches and as last column what was sent less what was
/// received so far; and the claimed sum is that over all rows.
pub proof fn law_constraints_force_sum(
    trace: Matrix<Ext>,
    sends: Seq<&Interaction>,
    receives: Seq<&Interaction>,
    preprocessed: Option<&Matrix<Felt>>,
    main: Matrix<Felt>,
    challenges: Seq<Ext>,
    batch_size: nat,
    scope: InteractionScope,
    claimed: Ext,
    digest: SepticDigest,
    envs: Seq<Window>,
    r: int,
)
    requires
        passes(
            trace,
            sends,
            receives,
            preprocessed,
            main,
            challenges,
            batch_size,
            scope,
            claimed,
            digest,
            envs,
        ),
        0 <= r < main.rows(),
    ensures
        ring::reduced(trace.at(r, trace.width - 1)) == ring::sum(
            (r + 1) as nat,
            |q: int| net(sends, receives, preprocessed, main, challenges[0], challenges[1], q),
        ),
        ring::reduced(claimed) == ring::sum(
            main.rows(),
            |q: int| net(sends, receives, preprocessed, main, challenges[0], challenges[1], q),
        ),
{
    let last = main.rows() - 1;
    lemma_passes_row(
        trace,
        sends,
        receives,
        preprocessed,
        main,
        challenges,
        batch_size,
        scope,
        claimed,
        digest,
        envs,
        r,
    );
    lemma_passes_row(
        trace,
        sends,
        receives,
        preprocessed,
        main,
        challenges,
        batch_size,
        scope,
        claimed,
        digest,
        envs,
        last,
    );
    let (alpha, beta) = (challenges[0], challenges[1]);
    sums::law_running_sum(
        sends,
        receives,
        preprocessed,
        main,
        alpha,
        beta,
        batch_size,
        (r + 1) as nat,
    );
    sums::law_running_sum(
        sends,
        receives,
        preprocessed,
        main,
        alpha,
        beta,
        batch_size,
        main.rows(),
    );
    lemma_balance(sends, receives, preprocessed, main, alpha, beta, (r + 1) as nat);
    lemma_balance(sends, receives, preprocessed, main, alpha, beta, main.rows());
}

/// Where a chip commits to a global digest, the constraints vanish on the last row only if its last
/// fourteen columns are the digest: the first coordinate, and after it the second.
pub proof fn law_constraints_force_digest(
    sends: Seq<&Interaction>,
    receives: Seq<&Interaction>,
    batch_size: nat,
    challenges: Seq<Ext>,
    claimed: Ext,
    digest: SepticDigest,
    main_width: nat,
    env: Window,
    i: int,
)
    requires
        main_width >= 14,
        ring::reduced(env.selectors[1]) != Felt::zero_spec(),
        all_vanish(
            sends,
            receives,
            batch_size,
            InteractionScope::Global,
            challenges,
            claimed,
            digest,
            main_width,
            env,
        ),
        0 <= i < 7,
    ensures
        ring::reduced(env.main_local[main_width - 14 + i]) == ring::reduced(digest.x[i]),
        ring::reduced(env.main_local[main_width - 7 + i]) == ring::reduced(digest.y[i]),
{
    let all = constraints::permutation_constraints(
        sends,
        receives,
        batch_size,
        InteractionScope::Global,
        challenges,
        claimed,
        digest,
        main_width,
        env,
    );
    let global = constraints::global_constraints(main_width, digest, 14, env);
    assert(global.len() == 14);
    let start = all.len() - 14;
    assert(all[start + 2 * i] == global[2 * i]);
    assert(all[start + 2 * i + 1] == global[2 * i + 1]);
    let (a, x) = (env.main_local[main_width - 14 + i], digest.x[i]);
    let (b, y) = (env.main_local[main_width - 7 + i], digest.y[i]);
    let sel = env.selectors[1];
    assert((2 * i) / 2 == i && (2 * i) % 2 == 0);
    assert((2 * i + 1) / 2 == i && (2 * i + 1) % 2 == 1);
    lemma_difference_zero(a, x, sel);
    lemma_difference_zero(b, y, sel);
}

proof fn lemma_difference_zero(a: Felt, x: Felt, sel: Felt)
    requires
        ring::reduced(sel) != Felt::zero_spec(),
        ext::embed(sel.times(ring::minus(a, x))) == Ext::zero_spec(),
    ensures
        ring::reduced(a) == ring::reduced(x),
{
    let d = ring::minus(a, x);
    ext::lemma_embed(d, sel);
    Felt::law_mul_comm(sel, d);
    assert(ext::embed(d).times(ext::embed(sel)) == Ext::zero_spec());
    lemma_factor_zero(ext::embed(d), sel);
    ext::lemma_embed(d, Felt::zero_spec());
    assert(ext::embed(ring::reduced(d)) == Ext::zero_spec());
    ring::lemma_add_reduced(a, x.negated());
    ring::lemma_sub_zero(a, x);
}

/// Whether every column that a message's field reads is there.
pub open spec fn reads_columns(col: VirtualPairCol, prep_width: nat, main_width: nat) -> bool {
    forall|i: int|
        0 <= i < col.column_weights@.len() ==> match (#[trigger] col.column_weights@[i]).0 {
            PairCol::Preprocessed(c) => c < prep_width,
            PairCol::Main(c) => c < main_width,
        }
}

/// Whether a message can be formed from rows of the given widths, and is invertible on every row.
pub open spec fn message_ok(
    msg: Interaction,
    preprocessed: Option<&Matrix<Felt>>,
    main: Matrix<Felt>,
    alpha: Ext,
    beta: Ext,
) -> bool {
    let prep_width: nat = match preprocessed {
        Some(p) => p.width as nat,
        None => 0,
    };
    &&& msg.values@.len() < usize::MAX
    &&& msg.argument_index < 2013265921
    &&& reads_columns(msg.multiplicity, prep_width, main.width as nat)
    &&& forall|j: int|
        0 <= j < msg.values@.len() ==> reads_columns(
            #[trigger] msg.values@[j],
            prep_width,
            main.width as nat,
        )
    &&& forall|r: int|
        0 <= r < main.rows() ==> ring::invertible(
            #[trigger] message(msg, row_of(preprocessed, r), main.row(r), alpha, beta),
        )
}

proof fn lemma_reads_columns(col: VirtualPairCol, prep_width: nat, main_width: nat)
    requires
        reads_columns(col, prep_width, main_width),
    ensures
        col.in_range(prep_width, main_width),
{
    assert forall|i: int| 0 <= i < col.column_weights@.len() implies (
    #[trigger] col.column_weights@[i]).0.in_range(prep_width, main_width) by {
        match col.column_weights@[i].0 {
            PairCol::Preprocessed(c) => {},
            PairCol::Main(c) => {},
        }
    }
}

proof fn lemma_message_in_range(
    msg: Interaction,
    preprocessed: Option<&Matrix<Felt>>,
    main: Matrix<Felt>,
    alpha: Ext,
    beta: Ext,
)
    requires
        message_ok(msg, preprocessed, main, alpha, beta),
    ensures
        msg.in_range(permutation::prep_width(preprocessed), main.width as nat),
{
    let (p, m) = (permutation::prep_width(preprocessed), main.width as nat);
    lemma_reads_columns(msg.multiplicity, p, m);
    assert forall|j: int| 0 <= j < msg.values@.len() implies (#[trigger] msg.values@[j]).in_range(
        p,
        m,
    ) by {
        lemma_reads_columns(msg.values@[j], p, m);
    }
}

proof fn lemma_product_invertible(d: Seq<Ext>, n: nat) -> (r: Ext)
    requires
        n <= d.len(),
        forall|i: int| 0 <= i < n ==> ring::invertible(#[trigger] d[i]),
    ensures
        permutation::product(d, n).times(r) == Ext::one_spec(),
    decreases n,
{
    if n == 0 {
        ring::lemma_mul_one(Ext::one_spec());
        Ext::law_constants();
        Ext::one_spec()
    } else {
        let r = lemma_product_invertible(d, (n - 1) as nat);
        let last = d[n - 1];
        assert(ring::invertible(last));
        let s = choose|s: Ext| last.times(s) == Ext::one_spec();
        ring::lemma_inv_mul(permutation::product(d, (n - 1) as nat), last, r, s);
        r.times(s)
    }
}

/// The permutation trace of a chip can be computed wherever nothing stands in its way: the traces have
/// whole rows, and the preprocessed one as many as the main one; there are two challenges; no batch is
/// empty or larger than eight; the result fits into memory; and every message of the chip reads columns
/// that are there and is invertible on every row.
pub proof fn law_permutable_where_messages_are_invertible<A>(
    chip: Chip<A>,
    preprocessed: Option<&Matrix<Felt>>,
    main: Matrix<Felt>,
    challenges: Seq<Ext>,
)
    requires
        main.width > 0,
        main.values@.len() % (main.width as nat) == 0,
        main.rows() > 0,
        preprocessed matches Some(p) ==> main.rows() * p.width <= p.values@.len(),
        challenges.len() >= 2,
        1 <= chip.logup_batch_size <= 8,
        main.rows() * (chip.local_sends@.len() + chip.local_receives@.len() + 1) <= usize::MAX,
        chip.local_sends@.len() + chip.local_receives@.len() < usize::MAX,
        forall|k: int|
            0 <= k < chip.local_sends@.len() ==> message_ok(
                #[trigger] chip.local_sends@[k],
                preprocessed,
                main,
                challenges[0],
                challenges[1],
            ),
        forall|k: int|
            0 <= k < chip.local_receives@.len() ==> message_ok(
                #[trigger] chip.local_receives@[k],
                preprocessed,
                main,
                challenges[0],
                challenges[1],
            ),
    ensures
        prover::permutable(chip, preprocessed, main, challenges),
{
    let (sends, receives) = (chip.sends(), chip.receives());
    let (alpha, beta) = (challenges[0], challenges[1]);
    let b = chip.logup_batch_size as nat;
    let total = sends.len() + receives.len();
    let (p, w) = (permutation::prep_width(preprocessed), main.width as nat);
    assert forall|i: int| 0 <= i < sends.len() implies (#[trigger] sends[i]).in_range(p, w)
        && sends[i].values@.len() < usize::MAX by {
        let msg = chip.local_sends@[i];
        lemma_message_in_range(msg, preprocessed, main, alpha, beta);
    }
    assert forall|i: int| 0 <= i < receives.len() implies (#[trigger] receives[i]).in_range(p, w)
        && receives[i].values@.len() < usize::MAX by {
        let msg = chip.local_receives@[i];
        lemma_message_in_range(msg, preprocessed, main, alpha, beta);
    }
    if total > 0 {
        lemma_fundamental_div_mod(total as int, b as int);
        assert(total / b <= total && (total % b != 0 ==> total / b + 1 <= total)) by (nonlinear_arith)
            requires
                total > 0,
                b >= 1,
                total == b * (total / b) + total % b,
                0 <= total % b,
        ;
        lemma_mul_inequality(
            chip.perm_width() as int,
            total as int + 1,
            main.rows() as int,
        );
        lemma_mul_is_commutative(
            chip.perm_width() as int,
            main.rows() as int,
        );
        lemma_mul_is_commutative(total as int + 1, main.rows() as int);
        assert forall|r: int, c: int|
            0 <= r < main.rows() && 0 <= c < permutation::ceil_div(total, b) implies {
            let d = #[trigger] permutation::batch_denominators(
                sends,
                receives,
                b,
                permutation::prep_row(preprocessed, r),
                main.row(r),
                alpha,
                beta,
                c,
            );
            permutation::product(d, d.len()) != Ext::zero_spec()
        } by {
            let d = permutation::batch_denominators(
                sends,
                receives,
                b,
                permutation::prep_row(preprocessed, r),
                main.row(r),
                alpha,
                beta,
                c,
            );
            assert(c * b < total && 0 <= c * b) by (nonlinear_arith)
                requires
                    0 <= c,
                    b >= 1,
                    total == b * (total / b) + total % b,
                    0 <= total % b,
                    c < total / b || (total % b != 0 && c <= total / b),
            ;
            assert((c + 1) * b == c * b + b) by (nonlinear_arith);
            assert forall|i: int| 0 <= i < d.len() implies ring::invertible(#[trigger] d[i]) by {
                let k = c * b + i;
                let msg = permutation::nth(sends, receives, k).0;
                assert(0 <= k < total);
                let (prep, row) = (permutation::prep_row(preprocessed, r), main.row(r));
                law_combination_is_message(msg, prep, row, alpha, beta);
                assert(prep == row_of(preprocessed, r));
                if k < sends.len() {
                    assert(message_ok(chip.local_sends@[k], preprocessed, main, alpha, beta));
                } else {
                    assert(message_ok(
                        chip.local_receives@[k - sends.len()],
                        preprocessed,
                        main,
                        alpha,
                        beta,
                    ));
                }
                assert(ring::invertible(
                    message(msg, row_of(preprocessed, r), main.row(r), alpha, beta),
                ));
            }
            let s = lemma_product_invertible(d, d.len());
            ring::lemma_inv(permutation::product(d, d.len()), s);
            permutation::lemma_product_reduced(d, d.len());
        }
    }
}

/// The constraints of the permutation argument begin with those of the batches, in order: the product of
/// the messages of a batch times its entry, less each multiplicity times the other messages, that of a
/// receive negated.
pub proof fn law_batch_constraints_in_order(
    sends: Seq<&Interaction>,
    receives: Seq<&Interaction>,
    batch_size: nat,
    scope: InteractionScope,
    challenges: Seq<Ext>,
    claimed: Ext,
    digest: SepticDigest,
    main_width: nat,
    env: Window,
    n: nat,
    c: int,
)
    requires
        batch_size > 0,
        n * batch_size >= sends.len() + receives.len(),
        n > 0 ==> (n - 1) * batch_size < sends.len() + receives.len(),
        0 <= c < n,
    ensures
        ({
            let all = constraints::permutation_constraints(
                sends,
                receives,
                batch_size,
                scope,
                challenges,
                claimed,
                digest,
                main_width,
                env,
            );
            let left = sends.len() + receives.len() - c * batch_size;
            let len = if left < batch_size {
                left
            } else {
                batch_size as int
            };
            let d = Seq::new(
                len as nat,
                |i: int|
                    message(
                        if c * batch_size + i < sends.len() {
                            *sends[c * batch_size + i]
                        } else {
                            *receives[c * batch_size + i - sends.len()]
                        },
                        env.prep_local,
                        env.main_local,
                        challenges[0],
                        challenges[1],
                    ),
            );
            let m = Seq::new(
                len as nat,
                |i: int|
                    if c * batch_size + i < sends.len() {
                        sends[c * batch_size + i].multiplicity.value(
                            env.prep_local,
                            env.main_local,
                        )
                    } else {
                        receives[c * batch_size + i - sends.len()].multiplicity.value(
                            env.prep_local,
                            env.main_local,
                        ).negated()
                    },
            );
            &&& c < all.len()
            &&& left > 0
            &&& all[c] == ring::minus(
                permutation::product(d, d.len()).times(builder::ext_at(env.perm_local, c)),
                ring::sum(
                    d.len(),
                    |i: int| ext::embed(m[i]).times(permutation::product_but(d, i, d.len())),
                ),
            )
        }),
{
    lemma_constraint_parts(
        sends,
        receives,
        batch_size,
        scope,
        challenges,
        claimed,
        digest,
        main_width,
        env,
        n,
    );
    lemma_batch_in_order(sends, receives, batch_size, challenges, env, n, c);
    let each = constraints::batch_constraints(sends, receives, batch_size, challenges, n, env);
    assert(each[c] == constraints::batch_constraint(
        sends,
        receives,
        batch_size,
        challenges,
        c,
        env,
    ));
}

/// After the constraints of the batches come those of the running sum, in this order: it starts with the
/// entries of the first row, grows by those of the next, and ends with the claimed sum.
pub proof fn law_sum_constraints_in_order(
    sends: Seq<&Interaction>,
    receives: Seq<&Interaction>,
    batch_size: nat,
    scope: InteractionScope,
    challenges: Seq<Ext>,
    claimed: Ext,
    digest: SepticDigest,
    main_width: nat,
    env: Window,
    n: nat,
)
    requires
        batch_size > 0,
        n * batch_size >= sends.len() + receives.len(),
        n > 0 ==> (n - 1) * batch_size < sends.len() + receives.len(),
        n > 0,
    ensures
        ({
            let all = constraints::permutation_constraints(
                sends,
                receives,
                batch_size,
                scope,
                challenges,
                claimed,
                digest,
                main_width,
                env,
            );
            let sum = builder::ext_at(env.perm_local, n as int);
            &&& n + 3 <= all.len()
            &&& all[n as int] == ring::minus(
                sum,
                ring::sum(n, |i: int| builder::ext_at(env.perm_local, i)),
            ).times(ext::embed(env.selectors[0]))
            &&& all[n as int + 1] == ring::minus(
                ring::minus(builder::ext_at(env.perm_next, n as int), sum),
                ring::sum(n, |i: int| builder::ext_at(env.perm_next, i)),
            ).times(ext::embed(env.selectors[2]))
            &&& all[n as int + 2] == ring::minus(sum, claimed).times(
                ext::embed(env.selectors[1]),
            )
        }),
{
    lemma_constraint_parts(
        sends,
        receives,
        batch_size,
        scope,
        challenges,
        claimed,
        digest,
        main_width,
        env,
        n,
    );
}

/// The last constraints are those of the digest, where it is global: on the last row its coordinates, by
/// turns, are what the last fourteen columns of the main trace hold, first seven and then seven.
pub proof fn law_digest_constraints_in_order(
    sends: Seq<&Interaction>,
    receives: Seq<&Interaction>,
    batch_size: nat,
    scope: InteractionScope,
    challenges: Seq<Ext>,
    claimed: Ext,
    digest: SepticDigest,
    main_width: nat,
    env: Window,
    n: nat,
    k: int,
)
    requires
        batch_size > 0,
        n * batch_size >= sends.len() + receives.len(),
        n > 0 ==> (n - 1) * batch_size < sends.len() + receives.len(),
        0 <= k < 7,
    ensures
        ({
            let all = constraints::permutation_constraints(
                sends,
                receives,
                batch_size,
                scope,
                challenges,
                claimed,
                digest,
                main_width,
                env,
            );
            let local: int = if n == 0 {
                0
            } else {
                n as int + 3
            };
            &&& scope is Local ==> all.len() == local
            &&& scope is Global ==> {
                &&& all.len() == local + 14
                &&& all[local + 2 * k] == ext::embed(
                    env.selectors[1].times(
                        ring::minus(env.main_local[main_width - 14 + k], digest.x[k]),
                    ),
                )
                &&& all[local + 2 * k + 1] == ext::embed(
                    env.selectors[1].times(
                        ring::minus(env.main_local[main_width - 7 + k], digest.y[k]),
                    ),
                )
            }
        }),
{
    lemma_constraint_parts(
        sends,
        receives,
        batch_size,
        scope,
        challenges,
        claimed,
        digest,
        main_width,
        env,
        n,
    );
    if scope is Global {
        let global = constraints::global_constraints(main_width, digest, 14, env);
        assert((2 * k) / 2 == k && (2 * k) % 2 == 0);
        assert((2 * k + 1) / 2 == k && (2 * k + 1) % 2 == 1);
        assert(global[2 * k] == constraints::global_constraint(main_width, digest, 2 * k, env));
        assert(global[2 * k + 1] == constraints::global_constraint(
            main_width,
            digest,
            2 * k + 1,
            env,
        ));
    }
}

/// Where each constraint stands.
proof fn lemma_constraint_parts(
    sends: Seq<&Interaction>,
    receives: Seq<&Interaction>,
    batch_size: nat,
    scope: InteractionScope,
    challenges: Seq<Ext>,
    claimed: Ext,
    digest: SepticDigest,
    main_width: nat,
    env: Window,
    n: nat,
)
    requires
        batch_size > 0,
        n * batch_size >= sends.len() + receives.len(),
        n > 0 ==> (n - 1) * batch_size < sends.len() + receives.len(),
    ensures
        ({
            let all = constraints::permutation_constraints(
                sends,
                receives,
                batch_size,
                scope,
                challenges,
                claimed,
                digest,
                main_width,
                env,
            );
            let each = constraints::batch_constraints(
                sends,
                receives,
                batch_size,
                challenges,
                n,
                env,
            );
            let global = constraints::global_constraints(main_width, digest, 14, env);
            let local: int = if n == 0 {
                0
            } else {
                n as int + 3
            };
            &&& all.len() == local + if scope is Global {
                14int
            } else {
                0
            }
            &&& n > 0 ==> {
                &&& forall|c: int| 0 <= c < n ==> #[trigger] all[c] == each[c]
                &&& all[n as int] == constraints::first_row_constraint(n, env)
                &&& all[n as int + 1] == constraints::transition_constraint(n, env)
                &&& all[n as int + 2] == constraints::last_row_constraint(n, claimed, env)
            }
            &&& scope is Global ==> forall|k: int|
                0 <= k < 14 ==> #[trigger] all[local + k] == global[k]
        }),
{
    let total = sends.len() + receives.len();
    lemma_batch_count(total, batch_size, n);
    let each = constraints::batch_constraints(sends, receives, batch_size, challenges, n, env);
    let global = constraints::global_constraints(
        main_width,
        digest,
        if scope == InteractionScope::Global {
            14
        } else {
            0
        },
        env,
    );
    if total == 0 {
        assert(n == 0) by {
            if n > 0 {
                assert((n - 1) * batch_size >= 0) by (nonlinear_arith)
                    requires
                        n > 0,
                ;
            }
        }
        assert(Seq::<Ext>::empty() + global =~= global);
    } else {
        assert(n > 0) by {
            assert(0 * batch_size == 0);
        }
        lemma_places(
            each,
            constraints::first_row_constraint(n, env),
            constraints::transition_constraint(n, env),
            constraints::last_row_constraint(n, claimed, env),
            global,
        );
    }
}

proof fn lemma_places(a: Seq<Ext>, x: Ext, y: Ext, z: Ext, b: Seq<Ext>)
    ensures
        ({
            let all = a + seq![x, y, z] + b;
            &&& all.len() == a.len() + 3 + b.len()
            &&& forall|i: int| 0 <= i < a.len() ==> #[trigger] all[i] == a[i]
            &&& all[a.len() as int] == x
            &&& all[a.len() as int + 1] == y
            &&& all[a.len() as int + 2] == z
            &&& forall|i: int| 0 <= i < b.len() ==> #[trigger] all[a.len() + 3 + i] == b[i]
        }),
{
}

proof fn lemma_batch_count(total: nat, batch_size: nat, n: nat)
    requires
        batch_size > 0,
        n * batch_size >= total,
        n > 0 ==> (n - 1) * batch_size < total,
    ensures
        n == permutation::ceil_div(total, batch_size),
{
    let (t, b, m) = (total as int, batch_size as int, n as int);
    lemma_fundamental_div_mod(t, b);
    lemma_mod_bound(t, b);
    let q = t / b;
    lemma_mul_is_commutative(b, q);
    let up = if t % b == 0 {
        q
    } else {
        q + 1
    };
    assert((q + 1) * b == q * b + b) by (nonlinear_arith);
    if m < up {
        lemma_mul_inequality(m, up - 1, b);
        assert((q - 1) * b == q * b - b) by (nonlinear_arith);
    }
    if m > up {
        lemma_div_pos_is_pos(t, b);
        lemma_mul_inequality(up, m - 1, b);
    }
}

proof fn lemma_batch_in_order(
    sends: Seq<&Interaction>,
    receives: Seq<&Interaction>,
    batch_size: nat,
    challenges: Seq<Ext>,
    env: Window,
    n: nat,
    c: int,
)
    requires
        batch_size > 0,
        0 <= c < n,
        (n - 1) * batch_size < sends.len() + receives.len(),
    ensures
        ({
            let left = sends.len() + receives.len() - c * batch_size;
            let len = if left < batch_size {
                left
            } else {
                batch_size as int
            };
            let d = Seq::new(
                len as nat,
                |i: int|
                    message(
                        if c * batch_size + i < sends.len() {
                            *sends[c * batch_size + i]
                        } else {
                            *receives[c * batch_size + i - sends.len()]
                        },
                        env.prep_local,
                        env.main_local,
                        challenges[0],
                        challenges[1],
                    ),
            );
            let m = Seq::new(
                len as nat,
                |i: int|
                    if c * batch_size + i < sends.len() {
                        sends[c * batch_size + i].multiplicity.value(
                            env.prep_local,
                            env.main_local,
                        )
                    } else {
                        receives[c * batch_size + i - sends.len()].multiplicity.value(
                            env.prep_local,
                            env.main_local,
                        ).negated()
                    },
            );
            &&& left > 0
            &&& constraints::denominators(sends, receives, batch_size, challenges, c, env) == d
            &&& constraints::multiplicities(sends, receives, batch_size, c, env) == m
        }),
{
    let total = sends.len() + receives.len();
    assert(c * batch_size < total) by (nonlinear_arith)
        requires
            0 <= c < n,
            (n - 1) * batch_size < total,
            batch_size > 0,
    ;
    assert((c + 1) * batch_size == c * batch_size + batch_size) by (nonlinear_arith);
    let dd = constraints::denominators(sends, receives, batch_size, challenges, c, env);
    let left = total - c * batch_size;
    let len = if left < batch_size {
        left
    } else {
        batch_size as int
    };
    assert(dd.len() == len);
    assert forall|i: int| 0 <= i < len implies #[trigger] dd[i] == message(
        if c * batch_size + i < sends.len() {
            *sends[c * batch_size + i]
        } else {
            *receives[c * batch_size + i - sends.len()]
        },
        env.prep_local,
        env.main_local,
        challenges[0],
        challenges[1],
    ) by {
        let msg = permutation::nth(sends, receives, c * batch_size + i).0;
        law_combination_is_message(
            msg,
            env.prep_local,
            env.main_local,
            challenges[0],
            challenges[1],
        );
    }
}

} // verus!
