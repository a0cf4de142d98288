//! The constraints of the permutation argument, written against any builder.

use vstd::prelude::*;
use vstd::arithmetic::div_mod::*;
use vstd::arithmetic::mul::*;
use crate::babybear;
use crate::babybear::Felt;
use crate::builder;
use crate::builder::{BuilderSpec, ConstraintBuilder, SepticDigest};
use crate::ext;
use crate::ext::Ext;
use crate::field::Field;
use crate::lookup;
use crate::lookup::{Interaction, InteractionScope, PairCol, VirtualPairCol};
use crate::matrix::Matrix;
use crate::permutation;
use crate::program::Window;
use crate::ring;
use crate::ring::Ring;

verus! {

/// The number of instructions that an affine function takes.
pub open spec fn apply_size(col: VirtualPairCol) -> nat {
    1 + 3 * col.column_weights@.len()
}

/// The number of instructions that the first `n` values of an interaction take.
pub open spec fn values_size(msg: Interaction, n: nat) -> nat
    decreases n,
{
    if n == 0 {
        0
    } else {
        values_size(msg, (n - 1) as nat) + apply_size(msg.values@[n - 1]) + 8
    }
}

/// The number of instructions that an interaction takes.
pub open spec fn message_size(msg: Interaction) -> nat {
    values_size(msg, msg.values@.len()) + apply_size(msg.multiplicity) + 54
}

/// The number of instructions that the first `n` interactions take.
pub open spec fn messages_size(
    sends: Seq<&Interaction>,
    receives: Seq<&Interaction>,
    n: nat,
) -> nat
    decreases n,
{
    if n == 0 {
        0
    } else {
        messages_size(sends, receives, (n - 1) as nat) + message_size(
            permutation::nth(sends, receives, n - 1).0,
        )
    }
}

/// The largest number of values of the first `n` interactions.
pub open spec fn longest(ints: Seq<&Interaction>, n: nat) -> nat
    decreases n,
{
    if n == 0 {
        0
    } else {
        let rest = longest(ints, (n - 1) as nat);
        let last = ints[n - 1].values@.len();
        if last > rest {
            last
        } else {
            rest
        }
    }
}

/// The largest number of values of an interaction.
pub open spec fn most_values(sends: Seq<&Interaction>, receives: Seq<&Interaction>) -> nat {
    let s = longest(sends, sends.len());
    let r = longest(receives, receives.len());
    if r > s {
        r
    } else {
        s
    }
}

/// The most instructions that the constraint of batch `c` takes.
pub open spec fn batch_instructions(
    sends: Seq<&Interaction>,
    receives: Seq<&Interaction>,
    batch_size: nat,
    c: int,
) -> nat {
    let start = (c * batch_size) as nat;
    let len = permutation::batch_len(sends.len() + receives.len(), batch_size, c);
    (114 + 180 * len + messages_size(sends, receives, start + len) - messages_size(
        sends,
        receives,
        start,
    )) as nat
}

/// The most instructions that the permutation constraints take.
pub open spec fn permutation_size(
    sends: Seq<&Interaction>,
    receives: Seq<&Interaction>,
    batch_size: nat,
) -> nat {
    let total = sends.len() + receives.len();
    if total == 0 {
        658
    } else {
        messages_size(sends, receives, total) + 43 * most_values(sends, receives) + 180 * total
            + 122 * permutation::ceil_div(total, batch_size) + 885
    }
}

proof fn lemma_messages_grow(
    sends: Seq<&Interaction>,
    receives: Seq<&Interaction>,
    m: nat,
    n: nat,
)
    requires
        m <= n,
    ensures
        messages_size(sends, receives, m) <= messages_size(sends, receives, n),
    decreases n,
{
    if m < n {
        lemma_messages_grow(sends, receives, m, (n - 1) as nat);
    }
}

/// A column of the local row.
fn column<B: ConstraintBuilder>(b: &B, col: PairCol) -> (r: B::Expr)
    requires
        b.inv(),
        col.in_range(b.prep_width_spec(), b.main_width_spec()),
    ensures
        B::is_recording() ==> B::reg(r) == b.recording().column(col),
        builder::means(*b, r, |env: Window| col.value(env.prep_local, env.main_local)),
{
    match col {
        PairCol::Preprocessed(i) => b.prep_local(i),
        PairCol::Main(i) => b.main_local(i),
    }
}

/// An affine function of the local row.
fn apply<B: ConstraintBuilder>(b: &mut B, col: &VirtualPairCol) -> (r: B::Expr)
    requires
        old(b).inv(),
        col.in_range(old(b).prep_width_spec(), old(b).main_width_spec()),
    ensures
        builder::recorded(
            *final(b),
            r,
            old(b).recording().apply(*col, col.column_weights@.len()),
        ),
        builder::within(*final(b), *old(b), apply_size(*col)),
        builder::extends(*final(b), *old(b)),
        builder::means(
            *final(b),
            r,
            |env: Window| ring::reduced(col.value(env.prep_local, env.main_local)),
        ),
{
    let mut result: B::Expr = b.constant(col.constant);
    let mut i: usize = 0;
    while i < col.column_weights.len()
        invariant
            builder::recorded(*b, result, old(b).recording().apply(*col, i as nat)),
            builder::within(*b, *old(b), (1 + 3 * i) as nat),
            i <= col.column_weights@.len(),
            col.in_range(old(b).prep_width_spec(), old(b).main_width_spec()),
            b.inv(),
            builder::extends(*b, *old(b)),
            builder::means(
                *b,
                result,
                |env: Window|
                    ring::reduced(col.partial(env.prep_local, env.main_local, i as nat)),
            ),
        decreases col.column_weights@.len() - i,
    {
        let (pair, weight) = col.column_weights[i];
        let ghost b0 = *b;
        assert(col.column_weights@[i as int].0.in_range(
            b.prep_width_spec(),
            b.main_width_spec(),
        ));
        let x: B::Expr = column(b, pair);
        let p: B::Expr = if weight.equals(Felt::one()) {
            proof {
                Felt::law_constants();
            }
            x
        } else {
            let w: B::Expr = b.constant(weight);
            let ghost b1 = *b;
            let p: B::Expr = b.mul(x, w);
            proof {
                if b.ok() {
                    assert forall|env: Window| b.accepts(env) implies #[trigger] b.val(env, p)
                        == b0.val(env, x).times(ring::reduced(weight)) by {
                        assert(b0.accepts(env) && b1.accepts(env));
                    }
                }
            }
            p
        };
        let ghost b2 = *b;
        result = b.add(result, p);
        i = i + 1;
        proof {
            if b.ok() {
                assert forall|env: Window| b.accepts(env) implies #[trigger] b.val(env, result)
                    == ring::reduced(col.partial(env.prep_local, env.main_local, i as nat)) by {
                    assert(b0.accepts(env) && b2.accepts(env));
                    let before = col.partial(env.prep_local, env.main_local, (i - 1) as nat);
                    let v = pair.value(env.prep_local, env.main_local);
                    assert(b0.val(env, x) == v);
                    ring::lemma_mul_reduced(v, weight);
                    ring::lemma_mul_one(v);
                    ring::lemma_add_reduced(before, v);
                    ring::lemma_add_reduced(before, v.times(weight));
                }
            }
        }
    }
    result
}

/// The powers of the second challenge.
pub open spec fn beta_powers(beta: Ext, n: nat) -> Seq<Ext> {
    Seq::new(n, |i: int| ring::pow(beta, i as nat))
}

fn powers<B: ConstraintBuilder>(b: &mut B, n: usize) -> (r: Vec<B::ExprEF>)
    requires
        old(b).inv(),
        old(b).challenges().len() >= 2,
    ensures
        B::is_recording() ==> ({
            let (s, ps, next) = old(b).recording().powers(n as nat);
            final(b).recording() == s && builder::regs_ef::<B>(r@) == ps
        }),
        builder::within(*final(b), *old(b), (5 + 43 * n) as nat),
        builder::extends(*final(b), *old(b)),
        r@.len() == n,
        builder::all_mean_ef(
            *final(b),
            r@,
            |env: Window| beta_powers(old(b).challenges()[1], n as nat),
        ),
{
    let ghost beta = old(b).challenges()[1];
    let ghost f = |env: Window| beta_powers(beta, n as nat);
    let second: B::ExprEF = b.challenge(1);
    let mut r: Vec<B::ExprEF> = Vec::new();
    let mut current: B::ExprEF = b.constant_ef(Felt::one());
    proof {
        Felt::law_constants();
        assert(ext::embed(Felt::one_spec()) == Ext::one_spec());
    }
    let mut i: usize = 0;
    assert(builder::regs_ef::<B>(r@) =~= Seq::empty());
    while i < n
        invariant
            B::is_recording() ==> B::reg_ef(second) == old(b).recording().challenge(1),
            B::is_recording() ==> (b.recording(), builder::regs_ef::<B>(r@), B::reg_ef(current))
                == old(b).recording().powers(i as nat),
            builder::within(*b, *old(b), (5 + 43 * i) as nat),
            i <= n,
            b.inv(),
            builder::extends(*b, *old(b)),
            r@.len() == i,
            f == (|env: Window| beta_powers(beta, n as nat)),
            builder::all_mean_ef(*b, r@, f),
            builder::means_ef(*b, second, |env: Window| beta),
            builder::means_ef(*b, current, |env: Window| ring::pow(beta, i as nat)),
        decreases n - i,
    {
        let ghost b0 = *b;
        let ghost r0 = r@;
        r.push(current);
        let next: B::ExprEF = b.mul_ef(current, second);
        proof {
            if b.ok() {
                assert forall|k: int| 0 <= k < r@.len() implies b0.valid_ef(#[trigger] r@[k]) by {
                    if k < i {
                        assert(r@[k] == r0[k]);
                    }
                }
                assert forall|env: Window, k: int|
                    b0.accepts(env) && 0 <= k < r@.len() implies #[trigger] b0.val_ef(env, r@[k])
                    == f(env)[k] by {
                    if k < i {
                        assert(r@[k] == r0[k]);
                    }
                }
            }
            if b.ok() {
                builder::lemma_still_all_mean_ef(*b, b0, r@, f);
            }
        }
        current = next;
        i = i + 1;
        assert(builder::regs_ef::<B>(r@) =~= builder::regs_ef::<B>(r0).push(B::reg_ef(r@[i - 1])));
    }
    r
}

/// The combination of an interaction's kind and values.
fn rlc<B: ConstraintBuilder>(
    b: &mut B,
    msg: &Interaction,
    first: B::ExprEF,
    bps: &Vec<B::ExprEF>,
) -> (r: B::ExprEF)
    requires
        old(b).inv(),
        old(b).challenges().len() >= 2,
        msg.in_range(old(b).prep_width_spec(), old(b).main_width_spec()),
        bps@.len() > msg.values@.len(),
        builder::means_ef(*old(b), first, |env: Window| old(b).challenges()[0]),
        builder::all_mean_ef(
            *old(b),
            bps@,
            |env: Window| beta_powers(old(b).challenges()[1], bps@.len()),
        ),
    ensures
        builder::recorded_ef(
            *final(b),
            r,
            old(b).recording().rlc(
                *msg,
                B::reg_ef(first),
                builder::regs_ef::<B>(bps@),
                msg.values@.len(),
            ),
        ),
        builder::within(*final(b), *old(b), values_size(*msg, msg.values@.len()) + 52),
        builder::extends(*final(b), *old(b)),
        builder::means_ef(
            *final(b),
            r,
            |env: Window|
                permutation::rlc(
                    *msg,
                    env.prep_local,
                    env.main_local,
                    old(b).challenges()[0],
                    old(b).challenges()[1],
                ),
        ),
{
    let ghost alpha = old(b).challenges()[0];
    let ghost beta = old(b).challenges()[1];
    let ghost f = |env: Window| beta_powers(beta, bps@.len());
    let index = Felt { value: msg.argument_index as u32 };
    let c: B::ExprEF = b.constant_ef(index);
    let ghost b0 = *b;
    proof {
        assert(ring::reduced(index) == babybear::felt(msg.argument_index as int));
        if b.ok() {
            assert(old(b).valid_ef(bps@[0]));
        }
    }
    let first_term: B::ExprEF = b.mul_ef(bps[0], c);
    let ghost b1 = *b;
    let mut r: B::ExprEF = b.add_ef(first, first_term);
    let mut j: usize = 0;
    proof {
        if b.ok() {
            assert forall|env: Window| b.accepts(env) implies #[trigger] b.val_ef(env, r)
                == permutation::fingerprint(*msg, env.prep_local, env.main_local, alpha, beta, 0) by {
                assert(b0.accepts(env) && b1.accepts(env) && old(b).accepts(env));
                assert(old(b).val_ef(env, bps@[0]) == f(env)[0]);
                assert(old(b).val_ef(env, first) == alpha);
            }
        }
        builder::lemma_still_all_mean_ef(*b, *old(b), bps@, f);
    }
    while j < msg.values.len()
        invariant
            builder::recorded_ef(
                *b,
                r,
                old(b).recording().rlc(
                    *msg,
                    B::reg_ef(first),
                    builder::regs_ef::<B>(bps@),
                    j as nat,
                ),
            ),
            builder::within(*b, *old(b), values_size(*msg, j as nat) + 52),
            j <= msg.values@.len(),
            b.inv(),
            builder::extends(*b, *old(b)),
            msg.in_range(b.prep_width_spec(), b.main_width_spec()),
            bps@.len() > msg.values@.len(),
            f == (|env: Window| beta_powers(beta, bps@.len())),
            builder::all_mean_ef(*b, bps@, f),
            builder::means_ef(
                *b,
                r,
                |env: Window|
                    permutation::fingerprint(
                        *msg,
                        env.prep_local,
                        env.main_local,
                        alpha,
                        beta,
                        j as nat,
                    ),
            ),
        decreases msg.values@.len() - j,
    {
        let ghost b0 = *b;
        assert(msg.values@[j as int].in_range(b.prep_width_spec(), b.main_width_spec()));
        let elem: B::Expr = apply(b, &msg.values[j]);
        let ghost b1 = *b;
        proof {
            if b.ok() {
                assert(b0.valid_ef(bps@[j + 1]));
            }
        }
        let term: B::ExprEF = b.mul_ef_base(bps[j + 1], elem);
        let ghost b2 = *b;
        r = b.add_ef(r, term);
        j = j + 1;
        proof {
            builder::lemma_still_all_mean_ef(*b, b0, bps@, f);
            if b.ok() {
                assert forall|env: Window| b.accepts(env) implies #[trigger] b.val_ef(env, r)
                    == permutation::fingerprint(
                    *msg,
                    env.prep_local,
                    env.main_local,
                    alpha,
                    beta,
                    j as nat,
                ) by {
                    assert(b0.accepts(env) && b1.accepts(env) && b2.accepts(env));
                    assert(b0.val_ef(env, bps@[j as int]) == f(env)[j as int]);
                    let v = msg.values@[j - 1].value(env.prep_local, env.main_local);
                    assert(b1.val(env, elem) == ring::reduced(v));
                    lemma_embed_reduced(v);
                    ring::lemma_mul_reduced(ring::pow(beta, j as nat), ext::embed(v));
                }
            }
        }
    }
    r
}

/// Embedding and reducing commute.
pub proof fn lemma_embed_reduced(a: Felt)
    ensures
        ext::embed(ring::reduced(a)) == ring::reduced(ext::embed(a)),
{
}

/// How often an interaction occurs, negative for a receive.
fn signed<B: ConstraintBuilder>(b: &mut B, msg: &Interaction, is_send: bool) -> (r: B::Expr)
    requires
        old(b).inv(),
        msg.in_range(old(b).prep_width_spec(), old(b).main_width_spec()),
    ensures
        builder::recorded(*final(b), r, old(b).recording().signed(*msg, is_send)),
        builder::within(*final(b), *old(b), apply_size(msg.multiplicity) + 2),
        builder::extends(*final(b), *old(b)),
        builder::means(
            *final(b),
            r,
            |env: Window|
                ring::reduced(
                    permutation::signed_multiplicity(
                        *msg,
                        is_send,
                        env.prep_local,
                        env.main_local,
                    ),
                ),
        ),
{
    let m: B::Expr = apply(b, &msg.multiplicity);
    let ghost b0 = *b;
    let factor: Felt = if is_send {
        Felt::one()
    } else {
        Felt::one().neg()
    };
    let c: B::Expr = b.constant(factor);
    let ghost b1 = *b;
    let r: B::Expr = b.mul(m, c);
    proof {
        if b.ok() {
            assert forall|env: Window| b.accepts(env) implies #[trigger] b.val(env, r)
                == ring::reduced(
                permutation::signed_multiplicity(*msg, is_send, env.prep_local, env.main_local),
            ) by {
                assert(b0.accepts(env) && b1.accepts(env));
                let v = msg.multiplicity.value(env.prep_local, env.main_local);
                assert(b0.val(env, m) == ring::reduced(v));
                ring::lemma_mul_reduced(ring::reduced(v), factor);
                ring::lemma_mul_reduced(v, factor);
                ring::lemma_mul_one(v);
                ring::lemma_mul_neg(v, Felt::one_spec());
                ring::lemma_neg_reduced(v);
                Felt::law_constants();
            }
        }
    }
    r
}

/// The combinations of batch `c` on a row.
pub open spec fn denominators(
    sends: Seq<&Interaction>,
    receives: Seq<&Interaction>,
    batch_size: nat,
    challenges: Seq<Ext>,
    c: int,
    env: Window,
) -> Seq<Ext> {
    permutation::batch_denominators(
        sends,
        receives,
        batch_size,
        env.prep_local,
        env.main_local,
        challenges[0],
        challenges[1],
        c,
    )
}

/// The multiplicities of batch `c` on a row.
pub open spec fn multiplicities(
    sends: Seq<&Interaction>,
    receives: Seq<&Interaction>,
    batch_size: nat,
    c: int,
    env: Window,
) -> Seq<Felt> {
    permutation::batch_multiplicities(
        sends,
        receives,
        batch_size,
        env.prep_local,
        env.main_local,
        c,
    )
}

/// The same elements, reduced.
pub open spec fn all_reduced(xs: Seq<Felt>) -> Seq<Felt> {
    Seq::new(xs.len(), |i: int| ring::reduced(xs[i]))
}

/// The interactions read columns that exist, and the batches are not empty.
pub open spec fn interactions_in_range(
    sends: Seq<&Interaction>,
    receives: Seq<&Interaction>,
    batch_size: nat,
    prep_width: nat,
    main_width: nat,
) -> bool {
    &&& forall|i: int|
        0 <= i < sends.len() ==> (#[trigger] sends[i]).in_range(prep_width, main_width)
    &&& forall|i: int|
        0 <= i < receives.len() ==> (#[trigger] receives[i]).in_range(prep_width, main_width)
    &&& sends.len() + receives.len() > 0 ==> batch_size > 0
    &&& sends.len() + receives.len() < usize::MAX
}

/// Whether every interaction has fewer than `n` values.
pub open spec fn values_below(ints: Seq<&Interaction>, n: nat) -> bool {
    forall|i: int| 0 <= i < ints.len() ==> (#[trigger] ints[i]).values@.len() < n
}

/// The combinations and multiplicities of a batch.
fn batch_parts<B: ConstraintBuilder>(
    b: &mut B,
    sends: &Vec<&Interaction>,
    receives: &Vec<&Interaction>,
    batch_size: usize,
    c: usize,
    first: B::ExprEF,
    bps: &Vec<B::ExprEF>,
) -> (r: (Vec<B::ExprEF>, Vec<B::Expr>))
    requires
        old(b).inv(),
        old(b).challenges().len() >= 2,
        interactions_in_range(
            sends@,
            receives@,
            batch_size as nat,
            old(b).prep_width_spec(),
            old(b).main_width_spec(),
        ),
        sends@.len() + receives@.len() > 0,
        c < permutation::ceil_div(sends@.len() + receives@.len(), batch_size as nat),
        values_below(sends@, bps@.len()),
        values_below(receives@, bps@.len()),
        builder::means_ef(*old(b), first, |env: Window| old(b).challenges()[0]),
        builder::all_mean_ef(
            *old(b),
            bps@,
            |env: Window| beta_powers(old(b).challenges()[1], bps@.len()),
        ),
    ensures
        B::is_recording() ==> (
            final(b).recording(),
            builder::regs_ef::<B>(r.0@),
            builder::regs::<B>(r.1@),
        ) == old(b).recording().batch_parts(
            sends@,
            receives@,
            c * batch_size,
            B::reg_ef(first),
            builder::regs_ef::<B>(bps@),
            permutation::batch_len(
                sends@.len() + receives@.len(),
                batch_size as nat,
                c as int,
            ),
        ),
        builder::within(
            *final(b),
            *old(b),
            (messages_size(
                sends@,
                receives@,
                (c * batch_size) as nat + permutation::batch_len(
                    sends@.len() + receives@.len(),
                    batch_size as nat,
                    c as int,
                ),
            ) - messages_size(sends@, receives@, (c * batch_size) as nat)) as nat,
        ),
        builder::extends(*final(b), *old(b)),
        r.0@.len() > 0,
        r.1@.len() == r.0@.len(),
        r.0@.len() == permutation::batch_len(
            sends@.len() + receives@.len(),
            batch_size as nat,
            c as int,
        ),
        builder::all_mean_ef(
            *final(b),
            r.0@,
            |env: Window|
                denominators(
                    sends@,
                    receives@,
                    batch_size as nat,
                    old(b).challenges(),
                    c as int,
                    env,
                ),
        ),
        builder::all_mean(
            *final(b),
            r.1@,
            |env: Window|
                all_reduced(
                    multiplicities(sends@, receives@, batch_size as nat, c as int, env),
                ),
        ),
{
    let total: usize = sends.len() + receives.len();
    proof {
        permutation::lemma_batches(total as nat, batch_size as nat, c as int);
    }
    let start: usize = c * batch_size;
    let len: usize = if total - start < batch_size {
        total - start
    } else {
        batch_size
    };
    let ghost ch = old(b).challenges();
    let ghost f = |env: Window| beta_powers(ch[1], bps@.len());
    let ghost fd = |env: Window|
        denominators(sends@, receives@, batch_size as nat, ch, c as int, env);
    let ghost fm = |env: Window|
        all_reduced(multiplicities(sends@, receives@, batch_size as nat, c as int, env));
    let mut rlcs: Vec<B::ExprEF> = Vec::new();
    let mut mults: Vec<B::Expr> = Vec::new();
    let mut i: usize = 0;
    assert(builder::regs_ef::<B>(rlcs@) =~= Seq::empty());
    assert(builder::regs::<B>(mults@) =~= Seq::empty());
    while i < len
        invariant
            B::is_recording() ==> (
                b.recording(),
                builder::regs_ef::<B>(rlcs@),
                builder::regs::<B>(mults@),
            ) == old(b).recording().batch_parts(
                sends@,
                receives@,
                start as int,
                B::reg_ef(first),
                builder::regs_ef::<B>(bps@),
                i as nat,
            ),
            b.size() <= old(b).size() + (messages_size(
                sends@,
                receives@,
                (start + i) as nat,
            ) - messages_size(sends@, receives@, start as nat)),
            i <= len,
            total == sends@.len() + receives@.len(),
            start == c * batch_size,
            start + len <= total,
            len == permutation::batch_len(total as nat, batch_size as nat, c as int),
            b.inv(),
            builder::extends(*b, *old(b)),
            ch == b.challenges(),
            ch.len() >= 2,
            interactions_in_range(
                sends@,
                receives@,
                batch_size as nat,
                b.prep_width_spec(),
                b.main_width_spec(),
            ),
            values_below(sends@, bps@.len()),
            values_below(receives@, bps@.len()),
            f == (|env: Window| beta_powers(ch[1], bps@.len())),
            fd == (|env: Window|
                denominators(sends@, receives@, batch_size as nat, ch, c as int, env)),
            fm == (|env: Window|
                all_reduced(multiplicities(sends@, receives@, batch_size as nat, c as int, env))),
            builder::means_ef(*b, first, |env: Window| ch[0]),
            builder::all_mean_ef(*b, bps@, f),
            rlcs@.len() == i,
            mults@.len() == i,
            builder::all_mean_ef(*b, rlcs@, fd),
            builder::all_mean(*b, mults@, fm),
        decreases len - i,
    {
        let k: usize = start + i;
        let is_send: bool = k < sends.len();
        let msg: &Interaction = if is_send {
            sends[k]
        } else {
            receives[k - sends.len()]
        };
        let ghost b0 = *b;
        let ghost rlcs0 = rlcs@;
        let ghost mults0 = mults@;
        proof {
            if is_send {
                assert(sends@[k as int].in_range(b.prep_width_spec(), b.main_width_spec()));
            } else {
                assert(receives@[k - sends@.len()].in_range(
                    b.prep_width_spec(),
                    b.main_width_spec(),
                ));
            }
            assert(permutation::nth(sends@, receives@, k as int) == (*msg, is_send));
        }
        let d: B::ExprEF = rlc(b, msg, first, bps);
        let ghost b1 = *b;
        let m: B::Expr = signed(b, msg, is_send);
        rlcs.push(d);
        mults.push(m);
        i = i + 1;
        proof {
            assert(builder::regs_ef::<B>(rlcs@) =~= builder::regs_ef::<B>(rlcs0).push(B::reg_ef(d)));
            assert(builder::regs::<B>(mults@) =~= builder::regs::<B>(mults0).push(B::reg(m)));
            builder::lemma_still_all_mean_ef(*b, b0, bps@, f);
            builder::lemma_still_all_mean_ef(*b, b0, rlcs0, fd);
            builder::lemma_still_all_mean(*b, b0, mults0, fm);
            if b.ok() {
                assert forall|q: int| 0 <= q < rlcs@.len() implies b.valid_ef(
                    #[trigger] rlcs@[q],
                ) by {
                    if q < i - 1 {
                        assert(rlcs@[q] == rlcs0[q]);
                    }
                }
                assert forall|env: Window, q: int|
                    b.accepts(env) && 0 <= q < rlcs@.len() implies #[trigger] b.val_ef(
                    env,
                    rlcs@[q],
                ) == fd(env)[q] by {
                    if q < i - 1 {
                        assert(rlcs@[q] == rlcs0[q]);
                    } else {
                        assert(b1.accepts(env));
                        assert(b1.val_ef(env, d) == permutation::rlc(
                            *msg,
                            env.prep_local,
                            env.main_local,
                            ch[0],
                            ch[1],
                        ));
                    }
                }
                assert forall|q: int| 0 <= q < mults@.len() implies b.valid(
                    #[trigger] mults@[q],
                ) by {
                    if q < i - 1 {
                        assert(mults@[q] == mults0[q]);
                    }
                }
                assert forall|env: Window, q: int|
                    b.accepts(env) && 0 <= q < mults@.len() implies #[trigger] b.val(
                    env,
                    mults@[q],
                ) == fm(env)[q] by {
                    if q < i - 1 {
                        assert(mults@[q] == mults0[q]);
                    } else {
                        assert(b.val(env, m) == ring::reduced(
                            permutation::signed_multiplicity(
                                *msg,
                                is_send,
                                env.prep_local,
                                env.main_local,
                            ),
                        ));
                    }
                }
            }
        }
    }
    (rlcs, mults)
}

/// The product of the combinations and the numerator over it.
fn ratio<B: ConstraintBuilder>(
    b: &mut B,
    rlcs: &Vec<B::ExprEF>,
    mults: &Vec<B::Expr>,
    Ghost(fd): Ghost<spec_fn(Window) -> Seq<Ext>>,
    Ghost(fm): Ghost<spec_fn(Window) -> Seq<Felt>>,
) -> (r: (B::ExprEF, B::ExprEF))
    requires
        old(b).inv(),
        rlcs@.len() > 0,
        mults@.len() == rlcs@.len(),
        builder::all_mean_ef(*old(b), rlcs@, fd),
        builder::all_mean(*old(b), mults@, fm),
        forall|env: Window| (#[trigger] fd(env)).len() == rlcs@.len(),
        forall|env: Window, i: int|
            0 <= i < rlcs@.len() ==> ring::reduced(#[trigger] fd(env)[i]) == fd(env)[i],
        forall|env: Window, i: int|
            0 <= i < rlcs@.len() ==> ring::reduced(#[trigger] fm(env)[i]) == fm(env)[i],
    ensures
        B::is_recording() ==> (final(b).recording(), B::reg_ef(r.0), B::reg_ef(r.1)) == old(
            b,
        ).recording().ratio(builder::regs_ef::<B>(rlcs@), builder::regs::<B>(mults@)),
        builder::within(*final(b), *old(b), 20 + 180 * rlcs@.len()),
        builder::extends(*final(b), *old(b)),
        builder::means_ef(
            *final(b),
            r.0,
            |env: Window| permutation::product(fd(env), rlcs@.len()),
        ),
        builder::means_ef(*final(b), r.1, |env: Window| permutation::numerator(fd(env), fm(env))),
{
    let n: usize = rlcs.len();
    let ghost b0 = *b;
    if n == 1 {
        proof {
            if b.ok() {
                assert(b.valid(mults@[0]));
                assert(b.valid_ef(rlcs@[0]));
            }
        }
        let num: B::ExprEF = b.from_base(mults[0]);
        proof {
            if b.ok() {
                assert forall|env: Window| b.accepts(env) implies #[trigger] b.val_ef(
                    env,
                    rlcs@[0],
                ) == permutation::product(fd(env), 1) by {
                    assert(b0.accepts(env));
                    assert(b0.val_ef(env, rlcs@[0]) == fd(env)[0]);
                    reveal_with_fuel(permutation::product, 2);
                    ring::lemma_mul_one(fd(env)[0]);
                    assert(ring::reduced(fd(env)[0]) == fd(env)[0]);
                }
                assert forall|env: Window| b.accepts(env) implies #[trigger] b.val_ef(env, num)
                    == permutation::numerator(fd(env), fm(env)) by {
                    assert(b0.accepts(env));
                    assert(b0.val(env, mults@[0]) == fm(env)[0]);
                    permutation::lemma_numerator_one(fd(env), fm(env));
                }
            }
        }
        (rlcs[0], num)
    } else if n == 2 {
        proof {
            if b.ok() {
                assert(b.valid(mults@[0]) && b.valid(mults@[1]));
                assert(b.valid_ef(rlcs@[0]) && b.valid_ef(rlcs@[1]));
            }
        }
        let product: B::ExprEF = b.mul_ef(rlcs[0], rlcs[1]);
        let ghost b1 = *b;
        let m0: B::ExprEF = b.from_base(mults[0]);
        let ghost b2 = *b;
        let t0: B::ExprEF = b.mul_ef(m0, rlcs[1]);
        let ghost b3 = *b;
        let m1: B::ExprEF = b.from_base(mults[1]);
        let ghost b4 = *b;
        let t1: B::ExprEF = b.mul_ef(m1, rlcs[0]);
        let ghost b5 = *b;
        let num: B::ExprEF = b.add_ef(t0, t1);
        proof {
            if b.ok() {
                assert forall|env: Window| b.accepts(env) implies #[trigger] b.val_ef(env, product)
                    == permutation::product(fd(env), 2) by {
                    assert(b0.accepts(env) && b1.accepts(env));
                    assert(b0.val_ef(env, rlcs@[0]) == fd(env)[0]);
                    assert(b0.val_ef(env, rlcs@[1]) == fd(env)[1]);
                    permutation::lemma_numerator_two(fd(env), fm(env));
                }
                assert forall|env: Window| b.accepts(env) implies #[trigger] b.val_ef(env, num)
                    == permutation::numerator(fd(env), fm(env)) by {
                    assert(b0.accepts(env) && b1.accepts(env) && b2.accepts(env));
                    assert(b3.accepts(env) && b4.accepts(env) && b5.accepts(env));
                    assert(b0.val_ef(env, rlcs@[0]) == fd(env)[0]);
                    assert(b0.val_ef(env, rlcs@[1]) == fd(env)[1]);
                    assert(b0.val(env, mults@[0]) == fm(env)[0]);
                    assert(b0.val(env, mults@[1]) == fm(env)[1]);
                    permutation::lemma_numerator_two(fd(env), fm(env));
                }
            }
        }
        (product, num)
    } else {
        let prefix: Vec<B::ExprEF> = prefixes(b, rlcs, Ghost(fd));
        let ghost b1 = *b;
        proof {
            builder::lemma_still_all_mean_ef(*b, b0, rlcs@, fd);
            builder::lemma_still_all_mean(*b, b0, mults@, fm);
        }
        let suffix: Vec<B::ExprEF> = suffixes(b, rlcs, Ghost(fd));
        let ghost b2 = *b;
        let ghost fp = |env: Window| prefix_products(fd(env));
        let ghost fs = |env: Window| suffix_products(fd(env));
        proof {
            builder::lemma_still_all_mean(*b, b1, mults@, fm);
            builder::lemma_still_all_mean_ef(*b, b1, prefix@, fp);
        }
        let num: B::ExprEF = cross_sum(b, &prefix, &suffix, mults, Ghost(fd), Ghost(fm));
        proof {
            if b.ok() {
                assert(b2.valid_ef(prefix@[n - 1]));
                assert forall|env: Window| b.accepts(env) implies #[trigger] b.val_ef(
                    env,
                    prefix@[n - 1],
                ) == permutation::product(fd(env), n as nat) by {
                    assert(b2.accepts(env));
                    assert(b2.val_ef(env, prefix@[n - 1]) == fp(env)[n - 1]);
                }
            }
        }
        (prefix[n - 1], num)
    }
}

/// The products of the first one, two, .. elements.
pub open spec fn prefix_products(d: Seq<Ext>) -> Seq<Ext> {
    Seq::new(d.len(), |i: int| permutation::product(d, (i + 1) as nat))
}

/// The products of the elements from each one on.
pub open spec fn suffix_products(d: Seq<Ext>) -> Seq<Ext> {
    Seq::new(d.len(), |i: int| permutation::product_from(d, i))
}

fn prefixes<B: ConstraintBuilder>(
    b: &mut B,
    rlcs: &Vec<B::ExprEF>,
    Ghost(fd): Ghost<spec_fn(Window) -> Seq<Ext>>,
) -> (r: Vec<B::ExprEF>)
    requires
        old(b).inv(),
        builder::all_mean_ef(*old(b), rlcs@, fd),
        forall|env: Window| (#[trigger] fd(env)).len() == rlcs@.len(),
    ensures
        B::is_recording() ==> ({
            let (s, ps, product) = old(b).recording().prefixes(
                builder::regs_ef::<B>(rlcs@),
                rlcs@.len(),
            );
            &&& final(b).recording() == s
            &&& builder::regs_ef::<B>(r@) == ps
            &&& rlcs@.len() > 0 ==> B::reg_ef(r@[rlcs@.len() - 1]) == product
        }),
        builder::within(*final(b), *old(b), 5 + 43 * rlcs@.len()),
        builder::extends(*final(b), *old(b)),
        r@.len() == rlcs@.len(),
        builder::all_mean_ef(*final(b), r@, |env: Window| prefix_products(fd(env))),
{
    let ghost fp = |env: Window| prefix_products(fd(env));
    let mut r: Vec<B::ExprEF> = Vec::new();
    let mut acc: B::ExprEF = b.constant_ef(Felt::one());
    proof {
        Felt::law_constants();
        assert(ext::embed(Felt::one_spec()) == Ext::one_spec());
        builder::lemma_still_all_mean_ef(*b, *old(b), rlcs@, fd);
    }
    let mut i: usize = 0;
    assert(builder::regs_ef::<B>(r@) =~= Seq::empty());
    while i < rlcs.len()
        invariant
            B::is_recording() ==> (b.recording(), builder::regs_ef::<B>(r@), B::reg_ef(acc))
                == old(b).recording().prefixes(builder::regs_ef::<B>(rlcs@), i as nat),
            i > 0 ==> acc == r@[i - 1],
            builder::within(*b, *old(b), (5 + 43 * i) as nat),
            i <= rlcs@.len(),
            b.inv(),
            builder::extends(*b, *old(b)),
            builder::all_mean_ef(*b, rlcs@, fd),
            forall|env: Window| (#[trigger] fd(env)).len() == rlcs@.len(),
            r@.len() == i,
            fp == (|env: Window| prefix_products(fd(env))),
            builder::all_mean_ef(*b, r@, fp),
            builder::means_ef(*b, acc, |env: Window| permutation::product(fd(env), i as nat)),
        decreases rlcs@.len() - i,
    {
        let ghost b0 = *b;
        let ghost r0 = r@;
        proof {
            if b.ok() {
                assert(b.valid_ef(rlcs@[i as int]));
            }
        }
        acc = b.mul_ef(acc, rlcs[i]);
        r.push(acc);
        i = i + 1;
        assert(builder::regs_ef::<B>(r@) =~= builder::regs_ef::<B>(r0).push(B::reg_ef(acc)));
        proof {
            builder::lemma_still_all_mean_ef(*b, b0, rlcs@, fd);
            builder::lemma_still_all_mean_ef(*b, b0, r0, fp);
            if b.ok() {
                assert forall|env: Window| b.accepts(env) implies #[trigger] b.val_ef(env, acc)
                    == permutation::product(fd(env), i as nat) by {
                    assert(b0.accepts(env));
                    assert(b0.val_ef(env, rlcs@[i - 1]) == fd(env)[i - 1]);
                }
                assert forall|q: int| 0 <= q < r@.len() implies b.valid_ef(#[trigger] r@[q]) by {
                    if q < i - 1 {
                        assert(r@[q] == r0[q]);
                    }
                }
                assert forall|env: Window, q: int|
                    b.accepts(env) && 0 <= q < r@.len() implies #[trigger] b.val_ef(env, r@[q])
                    == fp(env)[q] by {
                    assert(fd(env).len() == rlcs@.len());
                    if q < i - 1 {
                        assert(r@[q] == r0[q]);
                    }
                }
            }
        }
    }
    r
}

fn suffixes<B: ConstraintBuilder>(
    b: &mut B,
    rlcs: &Vec<B::ExprEF>,
    Ghost(fd): Ghost<spec_fn(Window) -> Seq<Ext>>,
) -> (r: Vec<B::ExprEF>)
    requires
        old(b).inv(),
        builder::all_mean_ef(*old(b), rlcs@, fd),
        forall|env: Window| (#[trigger] fd(env)).len() == rlcs@.len(),
    ensures
        B::is_recording() ==> ({
            let (s, ps, product) = old(b).recording().suffixes(
                builder::regs_ef::<B>(rlcs@),
                rlcs@.len(),
            );
            final(b).recording() == s && builder::regs_ef::<B>(r@) == ps
        }),
        builder::within(*final(b), *old(b), 10 + 43 * rlcs@.len()),
        builder::extends(*final(b), *old(b)),
        r@.len() == rlcs@.len(),
        builder::all_mean_ef(*final(b), r@, |env: Window| suffix_products(fd(env))),
{
    let ghost fs = |env: Window| suffix_products(fd(env));
    let n: usize = rlcs.len();
    let unit: B::ExprEF = b.constant_ef(Felt::one());
    let mut r: Vec<B::ExprEF> = Vec::new();
    let mut k: usize = 0;
    while k < n
        invariant
            k <= n,
            r@.len() == k,
            forall|q: int| 0 <= q < k ==> #[trigger] r@[q] == unit,
        decreases n - k,
    {
        r.push(unit);
        k = k + 1;
    }
    let mut acc: B::ExprEF = b.constant_ef(Felt::one());
    proof {
        Felt::law_constants();
        assert(ext::embed(Felt::one_spec()) == Ext::one_spec());
        builder::lemma_still_all_mean_ef(*b, *old(b), rlcs@, fd);
    }
    let mut i: usize = n;
    assert(builder::regs_ef::<B>(r@) =~= Seq::new(
        builder::regs_ef::<B>(rlcs@).len(),
        |q: int| B::reg_ef(unit),
    ));
    while i > 0
        invariant
            B::is_recording() ==> (b.recording(), builder::regs_ef::<B>(r@), B::reg_ef(acc))
                == old(b).recording().suffixes(builder::regs_ef::<B>(rlcs@), (n - i) as nat),
            builder::within(*b, *old(b), (10 + 43 * (n - i)) as nat),
            i <= n,
            n == rlcs@.len(),
            b.inv(),
            builder::extends(*b, *old(b)),
            builder::all_mean_ef(*b, rlcs@, fd),
            forall|env: Window| (#[trigger] fd(env)).len() == rlcs@.len(),
            r@.len() == n,
            fs == (|env: Window| suffix_products(fd(env))),
            b.ok() ==> forall|q: int| i <= q < n ==> b.valid_ef(#[trigger] r@[q]),
            b.ok() ==> forall|env: Window, q: int|
                b.accepts(env) && i <= q < n ==> #[trigger] b.val_ef(env, r@[q]) == fs(env)[q],
            builder::means_ef(*b, acc, |env: Window| permutation::product_from(fd(env), i as int)),
        decreases i,
    {
        let ghost b0 = *b;
        let ghost r0 = r@;
        i = i - 1;
        proof {
            if b.ok() {
                assert(b.valid_ef(rlcs@[i as int]));
            }
        }
        acc = b.mul_ef(acc, rlcs[i]);
        r.set(i, acc);
        assert(builder::regs_ef::<B>(r@) =~= builder::regs_ef::<B>(r0).update(
            i as int,
            B::reg_ef(acc),
        ));
        proof {
            builder::lemma_still_all_mean_ef(*b, b0, rlcs@, fd);
            if b.ok() {
                assert forall|env: Window| b.accepts(env) implies #[trigger] b.val_ef(env, acc)
                    == permutation::product_from(fd(env), i as int) by {
                    assert(b0.accepts(env));
                    assert(b0.val_ef(env, rlcs@[i as int]) == fd(env)[i as int]);
                }
                assert forall|q: int| i <= q < n implies b.valid_ef(#[trigger] r@[q]) by {
                    if q > i {
                        assert(r@[q] == r0[q]);
                    }
                }
                assert forall|env: Window, q: int|
                    b.accepts(env) && i <= q < n implies #[trigger] b.val_ef(env, r@[q])
                    == fs(env)[q] by {
                    assert(fd(env).len() == rlcs@.len());
                    if q > i {
                        assert(r@[q] == r0[q]);
                        assert(b0.accepts(env));
                        assert(b0.valid_ef(r0[q]));
                        assert(b0.val_ef(env, r0[q]) == fs(env)[q]);
                    }
                }
            }
        }
    }
    r
}

/// `sum_i m_i prod_(j != i) d_j`, from the products before and after each element.
fn cross_sum<B: ConstraintBuilder>(
    b: &mut B,
    prefix: &Vec<B::ExprEF>,
    suffix: &Vec<B::ExprEF>,
    mults: &Vec<B::Expr>,
    Ghost(fd): Ghost<spec_fn(Window) -> Seq<Ext>>,
    Ghost(fm): Ghost<spec_fn(Window) -> Seq<Felt>>,
) -> (r: B::ExprEF)
    requires
        old(b).inv(),
        mults@.len() > 1,
        prefix@.len() == mults@.len(),
        suffix@.len() == mults@.len(),
        builder::all_mean_ef(*old(b), prefix@, |env: Window| prefix_products(fd(env))),
        builder::all_mean_ef(*old(b), suffix@, |env: Window| suffix_products(fd(env))),
        builder::all_mean(*old(b), mults@, fm),
        forall|env: Window| (#[trigger] fd(env)).len() == mults@.len(),
    ensures
        builder::recorded_ef(
            *final(b),
            r,
            old(b).recording().cross_sum(
                builder::regs_ef::<B>(prefix@),
                builder::regs_ef::<B>(suffix@),
                builder::regs::<B>(mults@),
                mults@.len(),
            ),
        ),
        builder::within(*final(b), *old(b), 5 + 94 * mults@.len()),
        builder::extends(*final(b), *old(b)),
        builder::means_ef(*final(b), r, |env: Window| permutation::numerator(fd(env), fm(env))),
{
    let n: usize = mults.len();
    let ghost fp = |env: Window| prefix_products(fd(env));
    let ghost fs = |env: Window| suffix_products(fd(env));
    let ghost term = |env: Window|
        |i: int| ext::embed(fm(env)[i]).times(permutation::product_but(fd(env), i, n as nat));
    let mut r: B::ExprEF = b.constant_ef(Felt::zero());
    proof {
        Felt::law_constants();
        assert(ext::embed(Felt::zero_spec()) == Ext::zero_spec());
        builder::lemma_still_all_mean_ef(*b, *old(b), prefix@, fp);
        builder::lemma_still_all_mean_ef(*b, *old(b), suffix@, fs);
        builder::lemma_still_all_mean(*b, *old(b), mults@, fm);
    }
    let mut i: usize = 0;
    while i < n
        invariant
            builder::recorded_ef(
                *b,
                r,
                old(b).recording().cross_sum(
                    builder::regs_ef::<B>(prefix@),
                    builder::regs_ef::<B>(suffix@),
                    builder::regs::<B>(mults@),
                    i as nat,
                ),
            ),
            builder::within(*b, *old(b), (5 + 94 * i) as nat),
            i <= n,
            n > 1,
            n == mults@.len(),
            prefix@.len() == n,
            suffix@.len() == n,
            b.inv(),
            builder::extends(*b, *old(b)),
            fp == (|env: Window| prefix_products(fd(env))),
            fs == (|env: Window| suffix_products(fd(env))),
            term == (|env: Window|
                |i: int| ext::embed(fm(env)[i]).times(permutation::product_but(fd(env), i, n as nat))),
            builder::all_mean_ef(*b, prefix@, fp),
            builder::all_mean_ef(*b, suffix@, fs),
            builder::all_mean(*b, mults@, fm),
            forall|env: Window| (#[trigger] fd(env)).len() == mults@.len(),
            builder::means_ef(*b, r, |env: Window| ring::sum(i as nat, term(env))),
        decreases n - i,
    {
        let ghost b0 = *b;
        proof {
            if b.ok() {
                assert(b.valid(mults@[i as int]));
                if i == 0 {
                    assert(b.valid_ef(suffix@[1]));
                } else {
                    assert(b.valid_ef(prefix@[i - 1]));
                    if i + 1 < n {
                        assert(b.valid_ef(suffix@[i + 1]));
                    }
                }
            }
        }
        let others: B::ExprEF = if i == 0 {
            suffix[1]
        } else if i + 1 == n {
            prefix[i - 1]
        } else {
            b.mul_ef(prefix[i - 1], suffix[i + 1])
        };
        let ghost b1 = *b;
        proof {
            if b.ok() {
                assert forall|env: Window| b.accepts(env) implies #[trigger] b.val_ef(env, others)
                    == permutation::product_but(fd(env), i as int, n as nat) by {
                    assert(b0.accepts(env));
                    assert(fd(env).len() == n);
                    let d = fd(env);
                    permutation::lemma_product_but(d, i as int, n as nat);
                    permutation::lemma_product_from(d, i + 1);
                    permutation::lemma_product_reduced(d, i as nat);
                    if i == 0 {
                        assert(b0.val_ef(env, suffix@[1]) == fs(env)[1]);
                        lemma_product_from_reduced(d, 1);
                        ring::lemma_mul_one(permutation::product_from(d, 1));
                    } else {
                        assert(b0.val_ef(env, prefix@[i - 1]) == fp(env)[i - 1]);
                        if i + 1 == n {
                            ring::lemma_mul_one(permutation::product(d, i as nat));
                        } else {
                            assert(b0.val_ef(env, suffix@[i + 1]) == fs(env)[i + 1]);
                        }
                    }
                }
            }
        }
        let m: B::ExprEF = b.from_base(mults[i]);
        let ghost b2 = *b;
        let t: B::ExprEF = b.mul_ef(m, others);
        let ghost b3 = *b;
        r = b.add_ef(r, t);
        i = i + 1;
        proof {
            builder::lemma_still_all_mean_ef(*b, b0, prefix@, fp);
            builder::lemma_still_all_mean_ef(*b, b0, suffix@, fs);
            builder::lemma_still_all_mean(*b, b0, mults@, fm);
            if b.ok() {
                assert forall|env: Window| b.accepts(env) implies #[trigger] b.val_ef(env, r)
                    == ring::sum(i as nat, term(env)) by {
                    assert(b0.accepts(env) && b1.accepts(env));
                    assert(b2.accepts(env) && b3.accepts(env));
                    assert(b0.val(env, mults@[i - 1]) == fm(env)[i - 1]);
                    assert(b1.val_ef(env, others) == permutation::product_but(
                        fd(env),
                        i - 1,
                        n as nat,
                    ));
                    assert(b3.val_ef(env, t) == term(env)(i - 1));
                }
            }
        }
    }
    proof {
        if b.ok() {
            assert forall|env: Window| b.accepts(env) implies #[trigger] b.val_ef(env, r)
                == permutation::numerator(fd(env), fm(env)) by {
                assert(fd(env).len() == n);
                let f = |i: int|
                    ext::embed(fm(env)[i]).times(
                        permutation::product_but(fd(env), i, fd(env).len()),
                    );
                ring::lemma_sum_ext(n as nat, term(env), f);
            }
        }
    }
    r
}

proof fn lemma_product_from_reduced(d: Seq<Ext>, i: int)
    requires
        0 <= i <= d.len(),
    ensures
        ring::reduced(permutation::product_from(d, i)) == permutation::product_from(d, i),
{
    Ext::law_constants();
    if i < d.len() {
        ring::lemma_mul_reduced(permutation::product_from(d, i + 1), d[i]);
    }
}

/// The first `n` entries of a row of the permutation trace, added up.
pub open spec fn entries_sum(row: Seq<Felt>, n: nat) -> Ext {
    ring::sum(n, |c: int| builder::ext_at(row, c))
}

/// Zero when the entry of batch `c` is the sum of `m_i / d_i` over the batch.
pub open spec fn batch_constraint(
    sends: Seq<&Interaction>,
    receives: Seq<&Interaction>,
    batch_size: nat,
    challenges: Seq<Ext>,
    c: int,
    env: Window,
) -> Ext {
    let d = denominators(sends, receives, batch_size, challenges, c, env);
    let m = multiplicities(sends, receives, batch_size, c, env);
    ring::minus(
        permutation::product(d, d.len()).times(builder::ext_at(env.perm_local, c)),
        permutation::numerator(d, m),
    )
}

/// The constraints of the first `n` batches.
pub open spec fn batch_constraints(
    sends: Seq<&Interaction>,
    receives: Seq<&Interaction>,
    batch_size: nat,
    challenges: Seq<Ext>,
    n: nat,
    env: Window,
) -> Seq<Ext> {
    Seq::new(n, |c: int| batch_constraint(sends, receives, batch_size, challenges, c, env))
}

/// On the first row, the running sum is the sum of the entries.
pub open spec fn first_row_constraint(batches: nat, env: Window) -> Ext {
    ring::minus(
        builder::ext_at(env.perm_local, batches as int),
        entries_sum(env.perm_local, batches),
    ).times(ext::embed(env.selectors[0]))
}

/// From row to row, the running sum grows by the entries of the next row.
pub open spec fn transition_constraint(batches: nat, env: Window) -> Ext {
    ring::minus(
        ring::minus(
            builder::ext_at(env.perm_next, batches as int),
            builder::ext_at(env.perm_local, batches as int),
        ),
        entries_sum(env.perm_next, batches),
    ).times(ext::embed(env.selectors[2]))
}

/// On the last row, the running sum is the claimed sum.
pub open spec fn last_row_constraint(batches: nat, local_sum: Ext, env: Window) -> Ext {
    ring::minus(builder::ext_at(env.perm_local, batches as int), local_sum).times(
        ext::embed(env.selectors[1]),
    )
}

/// On the last row, the last fourteen columns of the main trace hold the global digest; the
/// constraints of its two coordinates alternate.
pub open spec fn global_constraint(main_width: nat, digest: SepticDigest, k: int, env: Window) -> Ext {
    let i = k / 2;
    ext::embed(
        env.selectors[1].times(
            if k % 2 == 0 {
                ring::minus(env.main_local[main_width - 14 + i], digest.x[i])
            } else {
                ring::minus(env.main_local[main_width - 7 + i], digest.y[i])
            },
        ),
    )
}

pub open spec fn global_constraints(main_width: nat, digest: SepticDigest, n: nat, env: Window) -> Seq<
    Ext,
> {
    Seq::new(n, |k: int| global_constraint(main_width, digest, k, env))
}

/// All constraints of the permutation argument on a row, in the order in which they are asserted.
pub open spec fn permutation_constraints(
    sends: Seq<&Interaction>,
    receives: Seq<&Interaction>,
    batch_size: nat,
    scope: InteractionScope,
    challenges: Seq<Ext>,
    local_sum: Ext,
    digest: SepticDigest,
    main_width: nat,
    env: Window,
) -> Seq<Ext> {
    let total = sends.len() + receives.len();
    let batches = permutation::ceil_div(total, batch_size);
    let local = if total == 0 {
        Seq::empty()
    } else {
        batch_constraints(sends, receives, batch_size, challenges, batches, env) + seq![
            first_row_constraint(batches, env),
            transition_constraint(batches, env),
            last_row_constraint(batches, local_sum, env),
        ]
    };
    local + global_constraints(
        main_width,
        digest,
        if scope == InteractionScope::Global {
            14
        } else {
            0
        },
        env,
    )
}

/// The sum of the first entries of the local or the next row.
fn row_sum<B: ConstraintBuilder>(b: &mut B, next: bool, n: usize) -> (r: B::ExprEF)
    requires
        old(b).inv(),
        n <= old(b).perm_width_spec(),
    ensures
        builder::recorded_ef(*final(b), r, old(b).recording().row_sum(next, n as nat)),
        builder::within(*final(b), *old(b), (5 + 4 * n) as nat),
        builder::extends(*final(b), *old(b)),
        builder::means_ef(
            *final(b),
            r,
            |env: Window|
                entries_sum(
                    if next {
                        env.perm_next
                    } else {
                        env.perm_local
                    },
                    n as nat,
                ),
        ),
{
    let mut r: B::ExprEF = b.constant_ef(Felt::zero());
    proof {
        Felt::law_constants();
        assert(ext::embed(Felt::zero_spec()) == Ext::zero_spec());
    }
    let mut c: usize = 0;
    while c < n
        invariant
            builder::recorded_ef(*b, r, old(b).recording().row_sum(next, c as nat)),
            builder::within(*b, *old(b), (5 + 4 * c) as nat),
            c <= n,
            n <= b.perm_width_spec(),
            b.inv(),
            builder::extends(*b, *old(b)),
            builder::means_ef(
                *b,
                r,
                |env: Window|
                    entries_sum(
                        if next {
                            env.perm_next
                        } else {
                            env.perm_local
                        },
                        c as nat,
                    ),
            ),
        decreases n - c,
    {
        let ghost b0 = *b;
        let x: B::ExprEF = if next {
            b.perm_next(c)
        } else {
            b.perm_local(c)
        };
        r = b.add_ef(r, x);
        c = c + 1;
        proof {
            if b.ok() {
                assert forall|env: Window| b.accepts(env) implies #[trigger] b.val_ef(env, r)
                    == entries_sum(
                    if next {
                        env.perm_next
                    } else {
                        env.perm_local
                    },
                    c as nat,
                ) by {
                    assert(b0.accepts(env));
                    let row = if next {
                        env.perm_next
                    } else {
                        env.perm_local
                    };
                    assert(b0.val_ef(env, x) == builder::ext_at(row, c - 1));
                }
            }
        }
    }
    r
}

/// The numerator does not depend on how the multiplicities are represented.
proof fn lemma_numerator_reduced(d: Seq<Ext>, m: Seq<Felt>)
    requires
        m.len() == d.len(),
    ensures
        permutation::numerator(d, all_reduced(m)) == permutation::numerator(d, m),
{
    let n = d.len();
    let f = |i: int| ext::embed(all_reduced(m)[i]).times(permutation::product_but(d, i, d.len()));
    let g = |i: int| ext::embed(m[i]).times(permutation::product_but(d, i, d.len()));
    assert forall|i: int| 0 <= i < n implies #[trigger] f(i) == g(i) by {
        lemma_embed_reduced(m[i]);
        ring::lemma_mul_reduced(ext::embed(m[i]), permutation::product_but(d, i, d.len()));
    }
    ring::lemma_sum_ext(n, f, g);
}

/// Asserts the constraint of a batch.
fn assert_batch<B: ConstraintBuilder>(
    b: &mut B,
    sends: &Vec<&Interaction>,
    receives: &Vec<&Interaction>,
    batch_size: usize,
    c: usize,
    first: B::ExprEF,
    bps: &Vec<B::ExprEF>,
)
    requires
        old(b).inv(),
        old(b).challenges().len() >= 2,
        interactions_in_range(
            sends@,
            receives@,
            batch_size as nat,
            old(b).prep_width_spec(),
            old(b).main_width_spec(),
        ),
        sends@.len() + receives@.len() > 0,
        c < permutation::ceil_div(sends@.len() + receives@.len(), batch_size as nat),
        c < old(b).perm_width_spec(),
        values_below(sends@, bps@.len()),
        values_below(receives@, bps@.len()),
        builder::means_ef(*old(b), first, |env: Window| old(b).challenges()[0]),
        builder::all_mean_ef(
            *old(b),
            bps@,
            |env: Window| beta_powers(old(b).challenges()[1], bps@.len()),
        ),
    ensures
        B::is_recording() ==> final(b).recording() == old(b).recording().assert_batch(
            sends@,
            receives@,
            batch_size as nat,
            c as int,
            B::reg_ef(first),
            builder::regs_ef::<B>(bps@),
        ),
        builder::within(
            *final(b),
            *old(b),
            batch_instructions(sends@, receives@, batch_size as nat, c as int),
        ),
        builder::same_setting(*final(b), *old(b)),
        final(b).ok() ==> forall|env: Window|
            old(b).accepts(env) ==> #[trigger] final(b).acc(env) == builder::fold_in(
                old(b).acc(env),
                old(b).alpha(),
                batch_constraint(
                    sends@,
                    receives@,
                    batch_size as nat,
                    old(b).challenges(),
                    c as int,
                    env,
                ),
            ),
{
    let (rlcs, mults) = batch_parts(b, sends, receives, batch_size, c, first, bps);
    let ghost b0 = *b;
    proof {
        let total = sends@.len() + receives@.len();
        permutation::lemma_batches(total, batch_size as nat, c as int);
        let start = (c * batch_size) as nat;
        lemma_messages_grow(sends@, receives@, start, start + rlcs@.len());
    }
    let ghost ch = old(b).challenges();
    let ghost fd = |env: Window|
        denominators(sends@, receives@, batch_size as nat, ch, c as int, env);
    let ghost fm = |env: Window|
        all_reduced(multiplicities(sends@, receives@, batch_size as nat, c as int, env));
    proof {
        assert forall|env: Window, i: int| 0 <= i < rlcs@.len() implies ring::reduced(
            #[trigger] fd(env)[i],
        ) == fd(env)[i] by {
            permutation::lemma_rlc_reduced(
                permutation::nth(sends@, receives@, c * batch_size + i).0,
                env.prep_local,
                env.main_local,
                ch[0],
                ch[1],
            );
        }
        assert forall|env: Window, i: int| 0 <= i < rlcs@.len() implies ring::reduced(
            #[trigger] fm(env)[i],
        ) == fm(env)[i] by {
            ring::lemma_add_reduced(
                multiplicities(sends@, receives@, batch_size as nat, c as int, env)[i],
                Felt::zero_spec(),
            );
        }
    }
    let (product, numerator) = ratio(b, &rlcs, &mults, Ghost(fd), Ghost(fm));
    let ghost b1 = *b;
    let entry: B::ExprEF = b.perm_local(c);
    let scaled: B::ExprEF = b.mul_ef(product, entry);
    let ghost b2 = *b;
    let diff: B::ExprEF = b.sub_ef(scaled, numerator);
    let ghost b3 = *b;
    b.assert_zero_ext(diff);
    proof {
        if b.ok() {
            assert forall|env: Window| old(b).accepts(env) implies #[trigger] b.acc(env)
                == builder::fold_in(
                old(b).acc(env),
                old(b).alpha(),
                batch_constraint(sends@, receives@, batch_size as nat, ch, c as int, env),
            ) by {
                assert(b0.accepts(env) && b1.accepts(env) && b2.accepts(env) && b3.accepts(env));
                lemma_numerator_reduced(
                    fd(env),
                    multiplicities(sends@, receives@, batch_size as nat, c as int, env),
                );
                assert(b1.val_ef(env, product) == permutation::product(fd(env), rlcs@.len()));
                assert(b1.val_ef(env, numerator) == permutation::numerator(fd(env), fm(env)));
                assert(b1.val_ef(env, entry) == builder::ext_at(env.perm_local, c as int));
                assert(b2.val_ef(env, numerator) == b1.val_ef(env, numerator));
                assert(b3.acc(env) == b2.acc(env));
                assert(b2.acc(env) == b1.acc(env));
                assert(b1.acc(env) == b0.acc(env));
                assert(b0.acc(env) == old(b).acc(env));
            }
        }
    }
}

/// Asserts that two values are equal on the rows that a selector picks.
fn assert_eq_when<B: ConstraintBuilder>(
    b: &mut B,
    x: B::ExprEF,
    y: B::ExprEF,
    cond: B::Expr,
    Ghost(fx): Ghost<spec_fn(Window) -> Ext>,
    Ghost(fy): Ghost<spec_fn(Window) -> Ext>,
    Ghost(fc): Ghost<spec_fn(Window) -> Felt>,
)
    requires
        old(b).inv(),
        builder::means_ef(*old(b), x, fx),
        builder::means_ef(*old(b), y, fy),
        builder::means(*old(b), cond, fc),
    ensures
        B::is_recording() ==> final(b).recording() == old(b).recording().assert_eq_when(
            B::reg_ef(x),
            B::reg_ef(y),
            B::reg(cond),
        ),
        builder::within(*final(b), *old(b), 55),
        builder::same_setting(*final(b), *old(b)),
        final(b).ok() ==> forall|env: Window|
            old(b).accepts(env) ==> #[trigger] final(b).acc(env) == builder::fold_in(
                old(b).acc(env),
                old(b).alpha(),
                ring::minus(fx(env), fy(env)).times(ext::embed(fc(env))),
            ),
{
    let ghost b0 = *b;
    let diff: B::ExprEF = b.sub_ef(x, y);
    let ghost b1 = *b;
    let c: B::ExprEF = b.mul_ef_base(diff, cond);
    let ghost b2 = *b;
    b.assert_zero_ext(c);
    proof {
        if b.ok() {
            assert forall|env: Window| b0.accepts(env) implies #[trigger] b.acc(env)
                == builder::fold_in(
                b0.acc(env),
                b0.alpha(),
                ring::minus(fx(env), fy(env)).times(ext::embed(fc(env))),
            ) by {
                assert(b1.accepts(env) && b2.accepts(env));
                assert(b0.val_ef(env, x) == fx(env));
                assert(b0.val_ef(env, y) == fy(env));
                assert(b0.val(env, cond) == fc(env));
                assert(b1.val(env, cond) == fc(env));
                assert(b2.acc(env) == b1.acc(env) && b1.acc(env) == b0.acc(env));
            }
        }
    }
}

/// Asserts that the running sum starts, goes on and ends as it should.
fn assert_sums<B: ConstraintBuilder>(b: &mut B, batches: usize)
    requires
        old(b).inv(),
        batches < old(b).perm_width_spec(),
    ensures
        B::is_recording() ==> final(b).recording() == old(b).recording().assert_sums(
            batches as nat,
        ),
        builder::within(*final(b), *old(b), (179 + 8 * batches) as nat),
        builder::asserted(
            *final(b),
            *old(b),
            |env: Window|
                seq![
                    first_row_constraint(batches as nat, env),
                    transition_constraint(batches as nat, env),
                    last_row_constraint(batches as nat, old(b).local_sum(), env),
                ],
        ),
{
    let ghost b0 = *b;
    let ghost n = batches as nat;
    let ghost sl = |env: Window| entries_sum(env.perm_local, n);
    let ghost sn = |env: Window| entries_sum(env.perm_next, n);
    let ghost pl = |env: Window| builder::ext_at(env.perm_local, n as int);
    let ghost pn = |env: Window| builder::ext_at(env.perm_next, n as int);
    let ghost st = |env: Window| ring::minus(pn(env), pl(env));
    let ghost cs = |env: Window| b0.local_sum();
    let ghost is0 = |env: Window| env.selectors[0];
    let ghost is1 = |env: Window| env.selectors[1];
    let ghost is2 = |env: Window| env.selectors[2];

    let sum_local: B::ExprEF = row_sum(b, false, batches);
    let ghost b1 = *b;
    let sum_next: B::ExprEF = row_sum(b, true, batches);
    let phi_local: B::ExprEF = b.perm_local(batches);
    let phi_next: B::ExprEF = b.perm_next(batches);
    let first: B::Expr = b.is_first_row();
    let ghost b2 = *b;
    proof {
        builder::lemma_extends_trans(b2, b1, b0);
        builder::lemma_still_means_ef(b2, b1, sum_local, sl);
    }
    assert_eq_when(b, phi_local, sum_local, first, Ghost(pl), Ghost(sl), Ghost(is0));
    let ghost b3 = *b;
    let ghost f0 = |env: Window| Seq::<Ext>::empty();
    let ghost x1 = |env: Window| first_row_constraint(n, env);
    let ghost f1 = |env: Window| seq![x1(env)];
    proof {
        assert(builder::asserted(b2, b0, f0));
        assert forall|env: Window| b0.accepts(env) implies #[trigger] f1(env) == f0(env).push(
            x1(env),
        ) by {
            assert(f1(env) =~= f0(env).push(x1(env)));
        }
        builder::lemma_asserted_push(b3, b2, b0, f0, x1, f1);
        builder::lemma_still_means_ef(b3, b2, sum_next, sn);
        builder::lemma_still_means_ef(b3, b2, phi_local, pl);
        builder::lemma_still_means_ef(b3, b2, phi_next, pn);
    }

    let step: B::ExprEF = b.sub_ef(phi_next, phi_local);
    let transition: B::Expr = b.is_transition();
    let ghost b4 = *b;
    proof {
        builder::lemma_asserted_extends(b4, b3, b0, f1);
        builder::lemma_still_means_ef(b4, b3, sum_next, sn);
        builder::lemma_still_means_ef(b4, b3, phi_local, pl);
        if b4.ok() {
            assert forall|env: Window| b4.accepts(env) implies #[trigger] b4.val_ef(env, step)
                == st(env) by {
                assert(b3.accepts(env));
                assert(b3.val_ef(env, phi_next) == pn(env));
                assert(b3.val_ef(env, phi_local) == pl(env));
            }
        }
    }
    assert_eq_when(b, step, sum_next, transition, Ghost(st), Ghost(sn), Ghost(is2));
    let ghost b5 = *b;
    let ghost x2 = |env: Window| transition_constraint(n, env);
    let ghost f2 = |env: Window| seq![x1(env), x2(env)];
    proof {
        assert forall|env: Window| b0.accepts(env) implies #[trigger] f2(env) == f1(env).push(
            x2(env),
        ) by {
            assert(f2(env) =~= f1(env).push(x2(env)));
        }
        builder::lemma_asserted_push(b5, b4, b0, f1, x2, f2);
        builder::lemma_still_means_ef(b5, b4, phi_local, pl);
    }

    let sum: B::ExprEF = b.local_cumulative_sum();
    let last: B::Expr = b.is_last_row();
    assert_eq_when(b, phi_local, sum, last, Ghost(pl), Ghost(cs), Ghost(is1));
    let ghost x3 = |env: Window| last_row_constraint(n, b0.local_sum(), env);
    let ghost f3 = |env: Window| seq![x1(env), x2(env), x3(env)];
    proof {
        assert forall|env: Window| b0.accepts(env) implies #[trigger] f3(env) == f2(env).push(
            x3(env),
        ) by {
            assert(f3(env) =~= f2(env).push(x3(env)));
        }
        builder::lemma_asserted_push(*b, b5, b0, f2, x3, f3);
    }
}

/// Asserts that a column of the main trace holds a constant on the last row.
fn assert_last<B: ConstraintBuilder>(b: &mut B, col: usize, value: Felt)
    requires
        old(b).inv(),
        col < old(b).main_width_spec(),
    ensures
        B::is_recording() ==> final(b).recording() == old(b).recording().assert_last(
            col as int,
            value,
        ),
        builder::within(*final(b), *old(b), 47),
        builder::same_setting(*final(b), *old(b)),
        final(b).ok() ==> forall|env: Window|
            old(b).accepts(env) ==> #[trigger] final(b).acc(env) == builder::fold_in(
                old(b).acc(env),
                old(b).alpha(),
                ext::embed(
                    env.selectors[1].times(ring::minus(env.main_local[col as int], value)),
                ),
            ),
{
    let ghost b0 = *b;
    let x: B::Expr = b.main_local(col);
    let last: B::Expr = b.is_last_row();
    let y: B::Expr = b.constant(value);
    let ghost b1 = *b;
    let d: B::Expr = b.sub(x, y);
    let ghost b2 = *b;
    let c: B::Expr = b.mul(last, d);
    let ghost b3 = *b;
    b.assert_zero(c);
    proof {
        if b.ok() {
            assert forall|env: Window| b0.accepts(env) implies #[trigger] b.acc(env)
                == builder::fold_in(
                b0.acc(env),
                b0.alpha(),
                ext::embed(
                    env.selectors[1].times(ring::minus(env.main_local[col as int], value)),
                ),
            ) by {
                assert(b1.accepts(env) && b2.accepts(env) && b3.accepts(env));
                assert(b0.val(env, x) == env.main_local[col as int]);
                assert(b0.val(env, last) == env.selectors[1]);
                assert(b1.val(env, x) == env.main_local[col as int]);
                assert(b2.val(env, last) == env.selectors[1]);
                ring::lemma_neg_reduced(value);
                assert(b3.acc(env) == b2.acc(env) && b2.acc(env) == b1.acc(env) && b1.acc(env)
                    == b0.acc(env));
            }
        }
    }
}

/// Asserts that the last columns hold the global digest on the last row.
fn assert_global<B: ConstraintBuilder>(b: &mut B)
    requires
        old(b).inv(),
        old(b).main_width_spec() >= 14,
    ensures
        B::is_recording() ==> final(b).recording() == old(b).recording().assert_global(
            old(b).main_width_spec(),
            old(b).global_sum(),
            7,
        ),
        builder::within(*final(b), *old(b), 658),
        builder::asserted(
            *final(b),
            *old(b),
            |env: Window|
                global_constraints(
                    old(b).main_width_spec(),
                    old(b).global_sum(),
                    14,
                    env,
                ),
        ),
{
    let width: usize = b.main_width();
    let digest: SepticDigest = b.global_cumulative_sum();
    let ghost b0 = *b;
    proof {
        let f = |env: Window| global_constraints(width as nat, digest, 0, env);
        assert(builder::asserted(b0, b0, f));
    }
    let mut i: usize = 0;
    while i < 7
        invariant
            B::is_recording() ==> b.recording() == b0.recording().assert_global(
                width as nat,
                digest,
                i as nat,
            ),
            builder::within(*b, b0, (94 * i) as nat),
            i <= 7,
            width >= 14,
            width == b.main_width_spec(),
            b.inv(),
            builder::asserted(
                *b,
                b0,
                |env: Window| global_constraints(width as nat, digest, (2 * i) as nat, env),
            ),
        decreases 7 - i,
    {
        let ghost b1 = *b;
        let ghost f = |env: Window| global_constraints(width as nat, digest, (2 * i) as nat, env);
        let ghost g = |env: Window|
            global_constraints(width as nat, digest, (2 * i + 1) as nat, env);
        let ghost h = |env: Window|
            global_constraints(width as nat, digest, (2 * i + 2) as nat, env);
        let ghost x = |env: Window| global_constraint(width as nat, digest, 2 * i, env);
        let ghost y = |env: Window| global_constraint(width as nat, digest, 2 * i + 1, env);
        assert_last(b, width - 14 + i, digest.x[i]);
        let ghost b2 = *b;
        assert_last(b, width - 7 + i, digest.y[i]);
        proof {
            assert forall|env: Window| b0.accepts(env) implies #[trigger] g(env) == f(env).push(
                x(env),
            ) by {
                assert(g(env) =~= f(env).push(x(env)));
            }
            assert forall|env: Window| b0.accepts(env) implies #[trigger] h(env) == g(env).push(
                y(env),
            ) by {
                assert(h(env) =~= g(env).push(y(env)));
            }
            assert((2 * i) / 2 == i && (2 * i + 1) / 2 == i);
            assert((2 * i) % 2 == 0 && (2 * i + 1) % 2 == 1);
            builder::lemma_asserted_push(b2, b1, b0, f, x, g);
            builder::lemma_asserted_push(*b, b2, b0, g, y, h);
        }
        i = i + 1;
    }
}

proof fn lemma_longest(ints: Seq<&Interaction>, n: nat, bound: nat)
    requires
        n <= ints.len(),
        forall|i: int| 0 <= i < ints.len() ==> (#[trigger] ints[i]).values@.len() <= bound,
    ensures
        longest(ints, n) <= bound,
    decreases n,
{
    if n > 0 {
        lemma_longest(ints, (n - 1) as nat, bound);
        assert(ints[n - 1].values@.len() <= bound);
    }
}

/// The largest number of values of an interaction.
fn max_values(sends: &Vec<&Interaction>, receives: &Vec<&Interaction>) -> (r: usize)
    ensures
        r == most_values(sends@, receives@),
        forall|i: int| 0 <= i < sends@.len() ==> (#[trigger] sends@[i]).values@.len() <= r,
        forall|i: int| 0 <= i < receives@.len() ==> (#[trigger] receives@[i]).values@.len() <= r,
{
    let s: usize = longest_of(sends);
    let r: usize = longest_of(receives);
    if r > s {
        r
    } else {
        s
    }
}

fn longest_of(ints: &Vec<&Interaction>) -> (r: usize)
    ensures
        r == longest(ints@, ints@.len()),
        forall|i: int| 0 <= i < ints@.len() ==> (#[trigger] ints@[i]).values@.len() <= r,
{
    let mut r: usize = 0;
    let mut i: usize = 0;
    while i < ints.len()
        invariant
            i <= ints@.len(),
            r == longest(ints@, i as nat),
            forall|k: int| 0 <= k < i ==> (#[trigger] ints@[k]).values@.len() <= r,
        decreases ints@.len() - i,
    {
        if ints[i].values.len() > r {
            r = ints[i].values.len();
        }
        i = i + 1;
    }
    r
}

/// What the permutation constraints ask of a builder.
pub open spec fn evaluable<B: BuilderSpec>(
    b: B,
    sends: Seq<&Interaction>,
    receives: Seq<&Interaction>,
    batch_size: nat,
    scope: InteractionScope,
) -> bool {
    &&& interactions_in_range(
        sends,
        receives,
        batch_size,
        b.prep_width_spec(),
        b.main_width_spec(),
    )
    &&& permutation::values_fit(sends, receives)
    &&& b.perm_width_spec() == permutation::trace_width(sends.len() + receives.len(), batch_size)
    &&& b.challenges().len() >= 2
    &&& scope == InteractionScope::Global ==> b.main_width_spec() >= 14
}

/// Asserts the constraints of the permutation argument, given the interactions that stay within
/// the shard.
pub fn eval_permutation_constraints_prescoped<B: ConstraintBuilder>(
    local_sends: &Vec<&Interaction>,
    local_receives: &Vec<&Interaction>,
    batch_size: usize,
    commit_scope: InteractionScope,
    b: &mut B,
)
    requires
        old(b).inv(),
        evaluable(*old(b), local_sends@, local_receives@, batch_size as nat, commit_scope),
    ensures
        B::is_recording() ==> final(b).recording() == old(b).recording().assert_permutation(
            local_sends@,
            local_receives@,
            batch_size as nat,
            commit_scope,
            old(b).main_width_spec(),
            old(b).global_sum(),
        ),
        builder::within(
            *final(b),
            *old(b),
            permutation_size(local_sends@, local_receives@, batch_size as nat),
        ),
        builder::asserted(
            *final(b),
            *old(b),
            |env: Window|
                permutation_constraints(
                    local_sends@,
                    local_receives@,
                    batch_size as nat,
                    commit_scope,
                    old(b).challenges(),
                    old(b).local_sum(),
                    old(b).global_sum(),
                    old(b).main_width_spec(),
                    env,
                ),
        ),
{
    let ghost b0 = *b;
    let ghost ch = b.challenges();
    let ghost total = local_sends@.len() + local_receives@.len();
    let ghost count = permutation::ceil_div(total, batch_size as nat);
    let ghost f_none = |env: Window| Seq::<Ext>::empty();
    let ghost f_local = |env: Window|
        permutation_constraints(
            local_sends@,
            local_receives@,
            batch_size as nat,
            InteractionScope::Local,
            ch,
            b0.local_sum(),
            b0.global_sum(),
            b0.main_width_spec(),
            env,
        );
    if local_sends.len() > 0 || local_receives.len() > 0 {
        let batches: usize = b.permutation_width() - 1;
        let first: B::ExprEF = b.challenge(0);
        proof {
            let bound = (usize::MAX - 1) as nat;
            lemma_longest(local_sends@, local_sends@.len(), bound);
            lemma_longest(local_receives@, local_receives@.len(), bound);
        }
        let num_powers: usize = max_values(local_sends, local_receives) + 1;
        let bps: Vec<B::ExprEF> = powers(b, num_powers);
        let ghost b1 = *b;
        let ghost f = |env: Window| beta_powers(ch[1], bps@.len());
        let ghost fa = |env: Window| ch[0];
        proof {
            let g = |env: Window|
                batch_constraints(local_sends@, local_receives@, batch_size as nat, ch, 0, env);
            assert forall|env: Window| #[trigger] g(env) == f_none(env) by {
                assert(g(env) =~= Seq::<Ext>::empty());
            }
            assert(builder::asserted(b1, b0, g));
        }
        let ghost mut done: nat = 0;
        let mut c: usize = 0;
        while c < batches
            invariant
                B::is_recording() ==> b.recording() == b1.recording().assert_batches(
                    local_sends@,
                    local_receives@,
                    batch_size as nat,
                    B::reg_ef(first),
                    builder::regs_ef::<B>(bps@),
                    c as nat,
                ),
                c <= batches,
                done <= total,
                c < batches ==> done == c * batch_size,
                b.size() <= b1.size() + 114 * c + 180 * done + messages_size(
                    local_sends@,
                    local_receives@,
                    done,
                ),
                batches == count,
                count == permutation::ceil_div(total, batch_size as nat),
                total == local_sends@.len() + local_receives@.len(),
                total > 0,
                b.inv(),
                builder::same_setting(*b, b0),
                evaluable(*b, local_sends@, local_receives@, batch_size as nat, commit_scope),
                values_below(local_sends@, bps@.len()),
                values_below(local_receives@, bps@.len()),
                ch == b.challenges(),
                f == (|env: Window| beta_powers(ch[1], bps@.len())),
                fa == (|env: Window| ch[0]),
                builder::means_ef(*b, first, fa),
                builder::all_mean_ef(*b, bps@, f),
                builder::asserted(
                    *b,
                    b0,
                    |env: Window|
                        batch_constraints(
                            local_sends@,
                            local_receives@,
                            batch_size as nat,
                            ch,
                            c as nat,
                            env,
                        ),
                ),
            decreases batches - c,
        {
            let ghost b2 = *b;
            assert_batch(b, local_sends, local_receives, batch_size, c, first, &bps);
            let ghost f0 = |env: Window|
                batch_constraints(
                    local_sends@,
                    local_receives@,
                    batch_size as nat,
                    ch,
                    c as nat,
                    env,
                );
            let ghost x = |env: Window|
                batch_constraint(
                    local_sends@,
                    local_receives@,
                    batch_size as nat,
                    ch,
                    c as int,
                    env,
                );
            let ghost f1 = |env: Window|
                batch_constraints(
                    local_sends@,
                    local_receives@,
                    batch_size as nat,
                    ch,
                    (c + 1) as nat,
                    env,
                );
            proof {
                assert forall|env: Window| b0.accepts(env) implies #[trigger] f1(env) == f0(
                    env,
                ).push(x(env)) by {
                    assert(f1(env) =~= f0(env).push(x(env)));
                }
                builder::lemma_asserted_push(*b, b2, b0, f0, x, f1);
                builder::lemma_still_means_ef(*b, b2, first, fa);
                builder::lemma_still_all_mean_ef(*b, b2, bps@, f);
            }
            proof {
                let len = permutation::batch_len(total, batch_size as nat, c as int);
                permutation::lemma_batches(total, batch_size as nat, c as int);
                lemma_messages_grow(local_sends@, local_receives@, done, done + len);
                if c + 1 < batches {
                    permutation::lemma_batches(total, batch_size as nat, c + 1);
                    assert((c + 1) * batch_size == c * batch_size + batch_size)
                        by (nonlinear_arith);
                }
                done = done + len;
            }
            c = c + 1;
        }
        proof {
            lemma_messages_grow(local_sends@, local_receives@, done, total);
        }
        let ghost b3 = *b;
        assert_sums(b, batches);
        proof {
            let f0 = |env: Window|
                batch_constraints(
                    local_sends@,
                    local_receives@,
                    batch_size as nat,
                    ch,
                    count,
                    env,
                );
            let g = |env: Window|
                seq![
                    first_row_constraint(count, env),
                    transition_constraint(count, env),
                    last_row_constraint(count, b0.local_sum(), env),
                ];
            assert forall|env: Window| b0.accepts(env) implies #[trigger] f_local(env) == f0(env)
                + g(env) by {
                assert(f_local(env) =~= f0(env) + g(env));
            }
            builder::lemma_asserted_concat(*b, b3, b0, f0, g, f_local);
        }
    } else {
        proof {
            assert forall|env: Window| #[trigger] f_local(env) == f_none(env) by {
                assert(f_local(env) =~= Seq::<Ext>::empty());
            }
            assert(builder::asserted(b0, b0, f_local));
        }
    }
    match commit_scope {
        InteractionScope::Global => {
            let ghost b4 = *b;
            assert_global(b);
            proof {
                let g = |env: Window|
                    global_constraints(b0.main_width_spec(), b0.global_sum(), 14, env);
                let h = |env: Window|
                    permutation_constraints(
                        local_sends@,
                        local_receives@,
                        batch_size as nat,
                        commit_scope,
                        ch,
                        b0.local_sum(),
                        b0.global_sum(),
                        b0.main_width_spec(),
                        env,
                    );
                assert forall|env: Window| b0.accepts(env) implies #[trigger] h(env) == f_local(
                    env,
                ) + g(env) by {
                    assert(h(env) =~= f_local(env) + g(env));
                }
                builder::lemma_asserted_concat(*b, b4, b0, f_local, g, h);
            }
        },
        InteractionScope::Local => {},
    }
}

/// Asserts the constraints of the permutation argument; only interactions that stay within the
/// shard take part.
pub fn eval_permutation_constraints<B: ConstraintBuilder>(
    sends: &Vec<&Interaction>,
    receives: &Vec<&Interaction>,
    batch_size: usize,
    commit_scope: InteractionScope,
    b: &mut B,
)
    requires
        old(b).inv(),
        evaluable(
            *old(b),
            lookup::of_scope(sends@, InteractionScope::Local),
            lookup::of_scope(receives@, InteractionScope::Local),
            batch_size as nat,
            commit_scope,
        ),
    ensures
        B::is_recording() ==> final(b).recording() == old(b).recording().assert_permutation(
            lookup::of_scope(sends@, InteractionScope::Local),
            lookup::of_scope(receives@, InteractionScope::Local),
            batch_size as nat,
            commit_scope,
            old(b).main_width_spec(),
            old(b).global_sum(),
        ),
        builder::within(
            *final(b),
            *old(b),
            permutation_size(
                lookup::of_scope(sends@, InteractionScope::Local),
                lookup::of_scope(receives@, InteractionScope::Local),
                batch_size as nat,
            ),
        ),
        builder::asserted(
            *final(b),
            *old(b),
            |env: Window|
                permutation_constraints(
                    lookup::of_scope(sends@, InteractionScope::Local),
                    lookup::of_scope(receives@, InteractionScope::Local),
                    batch_size as nat,
                    commit_scope,
                    old(b).challenges(),
                    old(b).local_sum(),
                    old(b).global_sum(),
                    old(b).main_width_spec(),
                    env,
                ),
        ),
{
    let (scoped_sends, scoped_receives) = lookup::scoped_interactions(sends, receives);
    let empty: Vec<&Interaction> = Vec::new();
    let local_sends: &Vec<&Interaction> = match scoped_sends.get(InteractionScope::Local) {
        Some(v) => v,
        None => &empty,
    };
    let local_receives: &Vec<&Interaction> = match scoped_receives.get(InteractionScope::Local) {
        Some(v) => v,
        None => &empty,
    };
    proof {
        assert(local_sends@ =~= lookup::of_scope(sends@, InteractionScope::Local));
        assert(local_receives@ =~= lookup::of_scope(receives@, InteractionScope::Local));
    }
    eval_permutation_constraints_prescoped(
        local_sends,
        local_receives,
        batch_size,
        commit_scope,
        b,
    )
}

/// Whether a flat row holds row `r` of the permutation trace.
pub open spec fn holds_row(row: Seq<Felt>, trace: Matrix<Ext>, r: int) -> bool {
    forall|c: int| 0 <= c < trace.width ==> builder::ext_at(row, c) == #[trigger] trace.at(r, c)
}

/// Whether the rows of a window are row `r` of the traces and the one after it, and the selectors
/// vanish where they do not pick that row.
pub open spec fn window_at(
    env: Window,
    preprocessed: Option<&Matrix<Felt>>,
    main: Matrix<Felt>,
    trace: Matrix<Ext>,
    r: int,
) -> bool {
    &&& env.prep_local == permutation::prep_row(preprocessed, r)
    &&& env.main_local == main.row(r)
    &&& holds_row(env.perm_local, trace, r)
    &&& r + 1 < main.rows() ==> holds_row(env.perm_next, trace, r + 1)
    &&& r != 0 ==> env.selectors[0] == Felt::zero_spec()
    &&& r != main.rows() - 1 ==> env.selectors[1] == Felt::zero_spec()
    &&& r == main.rows() - 1 ==> env.selectors[2] == Felt::zero_spec()
}

/// The constraint in place `k`, where there are interactions.
pub proof fn lemma_constraint_at(
    sends: Seq<&Interaction>,
    receives: Seq<&Interaction>,
    batch_size: nat,
    scope: InteractionScope,
    challenges: Seq<Ext>,
    local_sum: Ext,
    digest: SepticDigest,
    main_width: nat,
    env: Window,
    k: int,
)
    requires
        sends.len() + receives.len() > 0,
    ensures
        ({
            let n = permutation::ceil_div(sends.len() + receives.len(), batch_size);
            let all = permutation_constraints(
                sends,
                receives,
                batch_size,
                scope,
                challenges,
                local_sum,
                digest,
                main_width,
                env,
            );
            &&& all.len() == n + 3 + if scope == InteractionScope::Global {
                14int
            } else {
                0
            }
            &&& 0 <= k < all.len() ==> all[k] == if k < n {
                batch_constraint(sends, receives, batch_size, challenges, k, env)
            } else if k == n {
                first_row_constraint(n, env)
            } else if k == n + 1 {
                transition_constraint(n, env)
            } else if k == n + 2 {
                last_row_constraint(n, local_sum, env)
            } else {
                global_constraint(main_width, digest, k - n - 3, env)
            }
        }),
{
    let n = permutation::ceil_div(sends.len() + receives.len(), batch_size);
    let batches = batch_constraints(sends, receives, batch_size, challenges, n, env);
    assert(batches.len() == n);
}

/// The sums of a permutation trace, by its entries and the totals of its rows.
proof fn lemma_is_summed(
    trace: Matrix<Ext>,
    sends: Seq<&Interaction>,
    receives: Seq<&Interaction>,
    preprocessed: Option<&Matrix<Felt>>,
    main: Matrix<Felt>,
    alpha: Ext,
    beta: Ext,
    batch_size: nat,
)
    requires
        permutation::is_permutation_trace(
            trace,
            sends,
            receives,
            preprocessed,
            main,
            alpha,
            beta,
            batch_size,
        ),
    ensures
        is_summed(
            trace,
            |q: int, c: int|
                permutation::trace_entry(
                    sends,
                    receives,
                    preprocessed,
                    main,
                    alpha,
                    beta,
                    batch_size,
                    q,
                    c,
                ),
            |q: int|
                permutation::row_total(
                    sends,
                    receives,
                    preprocessed,
                    main,
                    alpha,
                    beta,
                    batch_size,
                    q,
                ),
            permutation::ceil_div(sends.len() + receives.len(), batch_size),
            main.rows(),
        ),
{
    let n = permutation::ceil_div(sends.len() + receives.len(), batch_size);
    let entry = |q: int, c: int|
        permutation::trace_entry(sends, receives, preprocessed, main, alpha, beta, batch_size, q, c);
    let totals = |q: int|
        permutation::row_total(sends, receives, preprocessed, main, alpha, beta, batch_size, q);
    assert forall|q: int| #[trigger] totals(q) == ring::sum(n, |c: int| entry(q, c)) by {
        ring::lemma_sum_ext(
            n,
            |c: int| entry(q, c),
            |c: int|
                permutation::trace_entry(
                    sends,
                    receives,
                    preprocessed,
                    main,
                    alpha,
                    beta,
                    batch_size,
                    q,
                    c,
                ),
        );
    }
    assert forall|q: int| 0 <= q < main.rows() implies #[trigger] trace.at(q, n as int)
        == ring::sum((q + 1) as nat, totals) by {}
}

/// A permutation trace satisfies the permutation constraints on every row, with its last running
/// sum as the claimed sum, provided that the last row ends in the global digest where one is
/// committed to.
pub proof fn law_trace_satisfies_constraints(
    trace: Matrix<Ext>,
    sends: Seq<&Interaction>,
    receives: Seq<&Interaction>,
    preprocessed: Option<&Matrix<Felt>>,
    main: Matrix<Felt>,
    challenges: Seq<Ext>,
    batch_size: nat,
    scope: InteractionScope,
    digest: SepticDigest,
    env: Window,
    r: int,
    k: int,
)
    requires
        batch_size > 0,
        sends.len() + receives.len() > 0,
        challenges.len() >= 2,
        permutation::is_permutation_trace(
            trace,
            sends,
            receives,
            preprocessed,
            main,
            challenges[0],
            challenges[1],
            batch_size,
        ),
        0 <= r < main.rows(),
        window_at(env, preprocessed, main, trace, r),
        scope == InteractionScope::Global ==> main.width >= 14 && (r == main.rows() - 1
            ==> ends_in_digest(main, r, digest)),
    ensures
        ({
            let local_sum = permutation::running_sum(
                sends,
                receives,
                preprocessed,
                main,
                challenges[0],
                challenges[1],
                batch_size,
                main.rows(),
            );
            let all = permutation_constraints(
                sends,
                receives,
                batch_size,
                scope,
                challenges,
                local_sum,
                digest,
                main.width as nat,
                env,
            );
            0 <= k < all.len() ==> all[k] == Ext::zero_spec()
        }),
{
    let (alpha, beta) = (challenges[0], challenges[1]);
    let n = permutation::ceil_div(sends.len() + receives.len(), batch_size);
    let entry = |q: int, c: int|
        permutation::trace_entry(sends, receives, preprocessed, main, alpha, beta, batch_size, q, c);
    let totals = |q: int|
        permutation::row_total(sends, receives, preprocessed, main, alpha, beta, batch_size, q);
    let local_sum = permutation::running_sum(
        sends,
        receives,
        preprocessed,
        main,
        alpha,
        beta,
        batch_size,
        main.rows(),
    );
    lemma_is_summed(trace, sends, receives, preprocessed, main, alpha, beta, batch_size);
    lemma_constraint_at(
        sends,
        receives,
        batch_size,
        scope,
        challenges,
        local_sum,
        digest,
        main.width as nat,
        env,
        k,
    );
    if 0 <= k < n {
        lemma_batch_holds(
            trace,
            sends,
            receives,
            preprocessed,
            main,
            challenges,
            batch_size,
            env,
            r,
            k,
        );
    } else if k == n {
        lemma_first_holds(trace, entry, totals, n, main.rows(), env, r);
    } else if k == n + 1 {
        lemma_transition_holds(trace, entry, totals, n, main.rows(), env, r);
    } else if k == n + 2 {
        lemma_last_holds(trace, entry, totals, n, main.rows(), env, r);
    } else if scope == InteractionScope::Global && n + 3 <= k < n + 17 {
        lemma_global_holds(main, digest, env, r, k - n - 3);
    }
}

/// Whether the first columns of a trace hold `entry`, and the last one the sum of the rows so far.
spec fn is_summed(
    trace: Matrix<Ext>,
    entry: spec_fn(int, int) -> Ext,
    totals: spec_fn(int) -> Ext,
    n: nat,
    rows: nat,
) -> bool {
    &&& trace.width == n + 1
    &&& forall|q: int| #[trigger] totals(q) == ring::sum(n, |c: int| entry(q, c))
    &&& forall|r: int, c: int|
        0 <= r < rows && 0 <= c < n ==> #[trigger] trace.at(r, c) == entry(r, c)
    &&& forall|r: int|
        0 <= r < rows ==> #[trigger] trace.at(r, n as int) == ring::sum((r + 1) as nat, totals)
}

proof fn lemma_batch_holds(
    trace: Matrix<Ext>,
    sends: Seq<&Interaction>,
    receives: Seq<&Interaction>,
    preprocessed: Option<&Matrix<Felt>>,
    main: Matrix<Felt>,
    challenges: Seq<Ext>,
    batch_size: nat,
    env: Window,
    r: int,
    c: int,
)
    requires
        permutation::is_permutation_trace(
            trace,
            sends,
            receives,
            preprocessed,
            main,
            challenges[0],
            challenges[1],
            batch_size,
        ),
        0 <= r < main.rows(),
        0 <= c < permutation::ceil_div(sends.len() + receives.len(), batch_size),
        window_at(env, preprocessed, main, trace, r),
    ensures
        batch_constraint(sends, receives, batch_size, challenges, c, env) == Ext::zero_spec(),
{
    let d = denominators(sends, receives, batch_size, challenges, c, env);
    let m = multiplicities(sends, receives, batch_size, c, env);
    let p = permutation::product(d, d.len());
    let num = permutation::numerator(d, m);
    assert(d == permutation::batch_denominators(
        sends,
        receives,
        batch_size,
        permutation::prep_row(preprocessed, r),
        main.row(r),
        challenges[0],
        challenges[1],
        c,
    ));
    assert(ring::invertible(p));
    let x = num.times(ring::inv(p));
    assert(trace.at(r, c) == x);
    assert(builder::ext_at(env.perm_local, c) == x);
    let inverse = choose|y: Ext| p.times(y) == Ext::one_spec();
    ring::lemma_inv(p, inverse);
    ring::lemma_mul_left_comm(p, num, ring::inv(p));
    ring::lemma_mul_one(num);
    ring::lemma_sub_zero(p.times(x), num);
    ring::lemma_mul_reduced(p, x);
}

proof fn lemma_first_holds(
    trace: Matrix<Ext>,
    entry: spec_fn(int, int) -> Ext,
    totals: spec_fn(int) -> Ext,
    n: nat,
    rows: nat,
    env: Window,
    r: int,
)
    requires
        is_summed(trace, entry, totals, n, rows),
        0 <= r < rows,
        holds_row(env.perm_local, trace, r),
        r != 0 ==> env.selectors[0] == Felt::zero_spec(),
    ensures
        first_row_constraint(n, env) == Ext::zero_spec(),
{
    let x = builder::ext_at(env.perm_local, n as int);
    let y = entries_sum(env.perm_local, n);
    if r == 0 {
        assert(x == trace.at(0, n as int));
        lemma_entries(env.perm_local, trace, entry, 0, n);
        reveal_with_fuel(ring::sum, 2);
        assert(x == Ext::zero_spec().plus(totals(0)));
        ring::lemma_zero_left(totals(0));
        ring::lemma_sum_reduced(n, |c: int| entry(0, c));
        ring::lemma_sub_self(x);
        ring::lemma_mul_zero(ext::embed(env.selectors[0]));
    } else {
        assert(ext::embed(Felt::zero_spec()) == Ext::zero_spec());
        ring::lemma_mul_zero(ring::minus(x, y));
    }
}

proof fn lemma_transition_holds(
    trace: Matrix<Ext>,
    entry: spec_fn(int, int) -> Ext,
    totals: spec_fn(int) -> Ext,
    n: nat,
    rows: nat,
    env: Window,
    r: int,
)
    requires
        is_summed(trace, entry, totals, n, rows),
        0 <= r < rows,
        holds_row(env.perm_local, trace, r),
        r + 1 < rows ==> holds_row(env.perm_next, trace, r + 1),
        r == rows - 1 ==> env.selectors[2] == Felt::zero_spec(),
    ensures
        transition_constraint(n, env) == Ext::zero_spec(),
{
    let x = builder::ext_at(env.perm_local, n as int);
    let y = builder::ext_at(env.perm_next, n as int);
    let z = entries_sum(env.perm_next, n);
    if r + 1 < rows {
        assert(x == trace.at(r, n as int));
        assert(y == trace.at(r + 1, n as int));
        lemma_entries(env.perm_next, trace, entry, r + 1, n);
        let step = totals(r + 1);
        assert(y == x.plus(step));
        Ext::law_add_comm(x, step);
        ring::lemma_sub_add(step, x);
        ring::lemma_sum_reduced(n, |c: int| entry(r + 1, c));
        ring::lemma_sub_self(step);
        ring::lemma_mul_zero(ext::embed(env.selectors[2]));
    } else {
        assert(ext::embed(Felt::zero_spec()) == Ext::zero_spec());
        ring::lemma_mul_zero(ring::minus(ring::minus(y, x), z));
    }
}

proof fn lemma_last_holds(
    trace: Matrix<Ext>,
    entry: spec_fn(int, int) -> Ext,
    totals: spec_fn(int) -> Ext,
    n: nat,
    rows: nat,
    env: Window,
    r: int,
)
    requires
        is_summed(trace, entry, totals, n, rows),
        0 <= r < rows,
        holds_row(env.perm_local, trace, r),
        r != rows - 1 ==> env.selectors[1] == Felt::zero_spec(),
    ensures
        last_row_constraint(n, ring::sum(rows, totals), env) == Ext::zero_spec(),
{
    let x = builder::ext_at(env.perm_local, n as int);
    if r == rows - 1 {
        assert(x == trace.at(r, n as int));
        ring::lemma_sub_self(x);
        ring::lemma_mul_zero(ext::embed(env.selectors[1]));
    } else {
        assert(ext::embed(Felt::zero_spec()) == Ext::zero_spec());
        ring::lemma_mul_zero(ring::minus(x, ring::sum(rows, totals)));
    }
}

/// Whether a row ends in the global digest.
pub open spec fn ends_in_digest(main: Matrix<Felt>, r: int, digest: SepticDigest) -> bool {
    &&& forall|i: int|
        0 <= i < 7 ==> ring::reduced(main.row(r)[main.width - 14 + i]) == ring::reduced(
            #[trigger] digest.x[i],
        )
    &&& forall|i: int|
        0 <= i < 7 ==> ring::reduced(main.row(r)[main.width - 7 + i]) == ring::reduced(
            #[trigger] digest.y[i],
        )
}

proof fn lemma_global_holds(main: Matrix<Felt>, digest: SepticDigest, env: Window, r: int, k: int)
    requires
        main.width >= 14,
        0 <= k < 14,
        env.main_local == main.row(r),
        r == main.rows() - 1 ==> ends_in_digest(main, r, digest),
        r != main.rows() - 1 ==> env.selectors[1] == Felt::zero_spec(),
    ensures
        global_constraint(main.width as nat, digest, k, env) == Ext::zero_spec(),
{
    let i = k / 2;
    let (a, v) = if k % 2 == 0 {
        (env.main_local[main.width - 14 + i], digest.x[i])
    } else {
        (env.main_local[main.width - 7 + i], digest.y[i])
    };
    assert(ext::embed(Felt::zero_spec()) == Ext::zero_spec());
    if r == main.rows() - 1 {
        assert(0 <= i < 7);
        ring::lemma_sub_zero(a, v);
        ring::lemma_mul_zero(env.selectors[1]);
    } else {
        ring::lemma_mul_zero(ring::minus(a, v));
    }
}

proof fn lemma_entries(
    row: Seq<Felt>,
    trace: Matrix<Ext>,
    entry: spec_fn(int, int) -> Ext,
    r: int,
    n: nat,
)
    requires
        holds_row(row, trace, r),
        n <= trace.width,
        forall|c: int| 0 <= c < n ==> #[trigger] trace.at(r, c) == entry(r, c),
    ensures
        entries_sum(row, n) == ring::sum(n, |c: int| entry(r, c)),
{
    let f = |c: int| builder::ext_at(row, c);
    let g = |c: int| entry(r, c);
    assert forall|c: int| 0 <= c < n implies #[trigger] f(c) == g(c) by {
        assert(builder::ext_at(row, c) == trace.at(r, c));
    }
    ring::lemma_sum_ext(n, f, g);
}

} // verus!
