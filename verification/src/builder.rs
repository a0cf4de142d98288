//! Builders that constraints are written against.
//!
//! A builder hands out values of the two rows that a constraint speaks of, combines them, and
//! folds every asserted value into an accumulator. One builder evaluates at once; another records
//! the operations for later. What is proved of a constraint holds with either.

use vstd::prelude::*;
use crate::babybear::Felt;
use crate::ext;
use crate::ext::Ext;
use crate::field::Field;
use crate::ir::{IrExtVal, IrVal};
use crate::program::Window;
use crate::recording::Recording;
use crate::ring;
use crate::ring::Ring;

verus! {

/// The extension element at index `c` of a row with four entries per element.
pub open spec fn ext_at(row: Seq<Felt>, c: int) -> Ext {
    Ext { c0: row[4 * c], c1: row[4 * c + 1], c2: row[4 * c + 2], c3: row[4 * c + 3] }
}

/// A point of a curve over the degree-seven extension, as the digest of global interactions.
#[derive(Clone, Copy, PartialEq, Eq, Debug)]
pub struct SepticDigest {
    pub x: [Felt; 7],
    pub y: [Felt; 7],
}

/// What the values of a builder mean.
pub trait BuilderSpec: Sized {
    type Expr: Copy;

    type ExprEF: Copy;

    /// Whether operations are recorded.
    spec fn is_recording() -> bool;

    /// What is recorded, if anything.
    spec fn recording(&self) -> Recording;

    /// The register of a value.
    spec fn reg(e: Self::Expr) -> IrVal;

    spec fn reg_ef(e: Self::ExprEF) -> IrExtVal;

    /// What always holds of a builder.
    spec fn inv(&self) -> bool;

    /// Whether the values still mean what they should; a recording that no register can address
    /// any more does not.
    spec fn ok(&self) -> bool;

    /// The number of instructions recorded so far.
    spec fn size(&self) -> nat;

    /// The rows that the values are read from.
    spec fn accepts(&self, env: Window) -> bool;

    spec fn valid(&self, e: Self::Expr) -> bool;

    spec fn valid_ef(&self, e: Self::ExprEF) -> bool;

    /// The meaning of a value.
    spec fn val(&self, env: Window, e: Self::Expr) -> Felt;

    spec fn val_ef(&self, env: Window, e: Self::ExprEF) -> Ext;

    /// The accumulator.
    spec fn acc(&self, env: Window) -> Ext;

    /// The challenge that constraints are folded with.
    spec fn alpha(&self) -> Ext;

    spec fn prep_width_spec(&self) -> nat;

    spec fn main_width_spec(&self) -> nat;

    /// The number of extension elements in a row of the permutation trace.
    spec fn perm_width_spec(&self) -> nat;

    spec fn challenges(&self) -> Seq<Ext>;

    spec fn local_sum(&self) -> Ext;

    spec fn global_sum(&self) -> SepticDigest;
}

/// Whether a recording has come to `step`, with the register of `r` as the result.
pub open spec fn recorded<B: BuilderSpec>(new: B, r: B::Expr, step: (Recording, IrVal)) -> bool {
    B::is_recording() ==> (new.recording(), B::reg(r)) == step
}

/// Whether a recording has come to `step`, with the registers of `r` as the result.
pub open spec fn recorded_ef<B: BuilderSpec>(
    new: B,
    r: B::ExprEF,
    step: (Recording, IrExtVal),
) -> bool {
    B::is_recording() ==> (new.recording(), B::reg_ef(r)) == step
}

/// The registers of values.
pub open spec fn regs<B: BuilderSpec>(es: Seq<B::Expr>) -> Seq<IrVal> {
    Seq::new(es.len(), |i: int| B::reg(es[i]))
}

pub open spec fn regs_ef<B: BuilderSpec>(es: Seq<B::ExprEF>) -> Seq<IrExtVal> {
    Seq::new(es.len(), |i: int| B::reg_ef(es[i]))
}

/// Whether `new` has recorded at most `n` instructions since `old`.
pub open spec fn within<B: BuilderSpec>(new: B, old: B, n: nat) -> bool {
    new.size() <= old.size() + n
}

/// `new` is `old` after operations that assert nothing: every value keeps its meaning.
pub open spec fn extends<B: BuilderSpec>(new: B, old: B) -> bool {
    &&& same_setting(new, old)
    &&& new.ok() ==> forall|env: Window| #[trigger] new.acc(env) == old.acc(env)
}

/// `new` is `old` after some operations: every value keeps its meaning.
pub open spec fn same_setting<B: BuilderSpec>(new: B, old: B) -> bool {
    &&& new.inv()
    &&& new.ok() ==> old.ok()
    &&& new.alpha() == old.alpha()
    &&& new.prep_width_spec() == old.prep_width_spec()
    &&& new.main_width_spec() == old.main_width_spec()
    &&& new.perm_width_spec() == old.perm_width_spec()
    &&& new.challenges() == old.challenges()
    &&& new.local_sum() == old.local_sum()
    &&& new.global_sum() == old.global_sum()
    &&& forall|env: Window| #[trigger] new.accepts(env) == old.accepts(env)
    &&& new.ok() ==> forall|e: B::Expr| #[trigger] old.valid(e) ==> new.valid(e)
    &&& new.ok() ==> forall|e: B::ExprEF| #[trigger] old.valid_ef(e) ==> new.valid_ef(e)
    &&& new.ok() ==> forall|env: Window, e: B::Expr|
        old.valid(e) ==> #[trigger] new.val(env, e) == old.val(env, e)
    &&& new.ok() ==> forall|env: Window, e: B::ExprEF|
        old.valid_ef(e) ==> #[trigger] new.val_ef(env, e) == old.val_ef(env, e)
}

/// Whether `e` stands for `f` of the rows.
pub open spec fn means<B: BuilderSpec>(b: B, e: B::Expr, f: spec_fn(Window) -> Felt) -> bool {
    b.ok() ==> b.valid(e) && forall|env: Window|
        b.accepts(env) ==> #[trigger] b.val(env, e) == f(env)
}

/// Whether `e` stands for `f` of the rows.
pub open spec fn means_ef<B: BuilderSpec>(b: B, e: B::ExprEF, f: spec_fn(Window) -> Ext) -> bool {
    b.ok() ==> b.valid_ef(e) && forall|env: Window|
        b.accepts(env) ==> #[trigger] b.val_ef(env, e) == f(env)
}

/// Whether the values stand for the elements of `f` of the rows.
pub open spec fn all_mean<B: BuilderSpec>(b: B, es: Seq<B::Expr>, f: spec_fn(Window) -> Seq<Felt>) -> bool {
    b.ok() ==> {
        &&& forall|i: int| 0 <= i < es.len() ==> b.valid(#[trigger] es[i])
        &&& forall|env: Window, i: int|
            b.accepts(env) && 0 <= i < es.len() ==> #[trigger] b.val(env, es[i]) == f(env)[i]
    }
}

/// Whether the values stand for the elements of `f` of the rows.
pub open spec fn all_mean_ef<B: BuilderSpec>(
    b: B,
    es: Seq<B::ExprEF>,
    f: spec_fn(Window) -> Seq<Ext>,
) -> bool {
    b.ok() ==> {
        &&& forall|i: int| 0 <= i < es.len() ==> b.valid_ef(#[trigger] es[i])
        &&& forall|env: Window, i: int|
            b.accepts(env) && 0 <= i < es.len() ==> #[trigger] b.val_ef(env, es[i]) == f(env)[i]
    }
}

pub proof fn lemma_still_all_mean<B: BuilderSpec>(
    new: B,
    old: B,
    es: Seq<B::Expr>,
    f: spec_fn(Window) -> Seq<Felt>,
)
    requires
        same_setting(new, old),
        all_mean(old, es, f),
    ensures
        all_mean(new, es, f),
{
    if new.ok() {
        assert forall|i: int| 0 <= i < es.len() implies new.valid(#[trigger] es[i]) by {
            assert(old.valid(es[i]));
        }
        assert forall|env: Window, i: int|
            new.accepts(env) && 0 <= i < es.len() implies #[trigger] new.val(env, es[i]) == f(
            env,
        )[i] by {
            assert(old.valid(es[i]));
            assert(old.accepts(env));
            assert(old.val(env, es[i]) == f(env)[i]);
        }
    }
}

pub proof fn lemma_still_all_mean_ef<B: BuilderSpec>(
    new: B,
    old: B,
    es: Seq<B::ExprEF>,
    f: spec_fn(Window) -> Seq<Ext>,
)
    requires
        same_setting(new, old),
        all_mean_ef(old, es, f),
    ensures
        all_mean_ef(new, es, f),
{
    if new.ok() {
        assert forall|i: int| 0 <= i < es.len() implies new.valid_ef(#[trigger] es[i]) by {
            assert(old.valid_ef(es[i]));
        }
        assert forall|env: Window, i: int|
            new.accepts(env) && 0 <= i < es.len() implies #[trigger] new.val_ef(env, es[i]) == f(
            env,
        )[i] by {
            assert(old.valid_ef(es[i]));
            assert(old.accepts(env));
            assert(old.val_ef(env, es[i]) == f(env)[i]);
        }
    }
}

/// A value keeps its meaning when the builder goes on.
pub proof fn lemma_still_means_ef<B: BuilderSpec>(
    new: B,
    old: B,
    e: B::ExprEF,
    f: spec_fn(Window) -> Ext,
)
    requires
        same_setting(new, old),
        means_ef(old, e, f),
    ensures
        means_ef(new, e, f),
{
    if new.ok() {
        assert(old.valid_ef(e));
        assert forall|env: Window| new.accepts(env) implies #[trigger] new.val_ef(env, e) == f(
            env,
        ) by {
            assert(old.accepts(env));
            assert(old.val_ef(env, e) == f(env));
        }
    }
}

pub proof fn lemma_extends_trans<B: BuilderSpec>(c: B, b: B, a: B)
    requires
        extends(c, b),
        extends(b, a),
    ensures
        extends(c, a),
{
    lemma_setting_trans(c, b, a);
    if c.ok() {
        assert forall|env: Window| #[trigger] c.acc(env) == a.acc(env) by {
            assert(b.acc(env) == a.acc(env));
        }
    }
}

pub proof fn lemma_setting_trans<B: BuilderSpec>(c: B, b: B, a: B)
    requires
        same_setting(c, b),
        same_setting(b, a),
    ensures
        same_setting(c, a),
{
    assert forall|env: Window| #[trigger] c.accepts(env) == a.accepts(env) by {
        assert(b.accepts(env) == a.accepts(env));
    }
    if c.ok() {
        assert forall|e: B::Expr| #[trigger] a.valid(e) implies c.valid(e) by {
            assert(b.valid(e));
        }
        assert forall|e: B::ExprEF| #[trigger] a.valid_ef(e) implies c.valid_ef(e) by {
            assert(b.valid_ef(e));
        }
        assert forall|env: Window, e: B::Expr| a.valid(e) implies #[trigger] c.val(env, e)
            == a.val(env, e) by {
            assert(b.valid(e));
            assert(b.val(env, e) == a.val(env, e));
        }
        assert forall|env: Window, e: B::ExprEF| a.valid_ef(e) implies #[trigger] c.val_ef(env, e)
            == a.val_ef(env, e) by {
            assert(b.valid_ef(e));
            assert(b.val_ef(env, e) == a.val_ef(env, e));
        }
    }
}

/// The accumulator with one more value folded in.
pub open spec fn fold_in(acc: Ext, alpha: Ext, x: Ext) -> Ext {
    acc.times(alpha).plus(x)
}

/// The accumulator with the first `n` of the values folded in.
pub open spec fn fold_all(acc: Ext, alpha: Ext, xs: Seq<Ext>, n: nat) -> Ext
    decreases n,
{
    if n == 0 {
        acc
    } else {
        fold_in(fold_all(acc, alpha, xs, (n - 1) as nat), alpha, xs[n - 1])
    }
}

/// `new` is `old` after the values of `f` were asserted, and nothing else.
pub open spec fn asserted<B: BuilderSpec>(new: B, old: B, f: spec_fn(Window) -> Seq<Ext>) -> bool {
    &&& same_setting(new, old)
    &&& new.ok() ==> forall|env: Window|
        old.accepts(env) ==> #[trigger] new.acc(env) == fold_all(
            old.acc(env),
            old.alpha(),
            f(env),
            f(env).len(),
        )
}

proof fn lemma_fold_prefix(acc: Ext, alpha: Ext, xs: Seq<Ext>, ys: Seq<Ext>, n: nat)
    requires
        n <= xs.len(),
        n <= ys.len(),
        forall|i: int| 0 <= i < n ==> xs[i] == ys[i],
    ensures
        fold_all(acc, alpha, xs, n) == fold_all(acc, alpha, ys, n),
    decreases n,
{
    if n > 0 {
        lemma_fold_prefix(acc, alpha, xs, ys, (n - 1) as nat);
    }
}

proof fn lemma_fold_concat(acc: Ext, alpha: Ext, xs: Seq<Ext>, ys: Seq<Ext>, n: nat)
    requires
        n <= ys.len(),
    ensures
        fold_all(acc, alpha, xs + ys, xs.len() + n) == fold_all(
            fold_all(acc, alpha, xs, xs.len()),
            alpha,
            ys,
            n,
        ),
    decreases n,
{
    if n == 0 {
        lemma_fold_prefix(acc, alpha, xs + ys, xs, xs.len());
    } else {
        lemma_fold_concat(acc, alpha, xs, ys, (n - 1) as nat);
        assert((xs + ys)[xs.len() + n - 1] == ys[n - 1]);
    }
}

/// Asserting two lists one after the other asserts their concatenation.
pub proof fn lemma_asserted_concat<B: BuilderSpec>(
    c: B,
    b: B,
    a: B,
    f: spec_fn(Window) -> Seq<Ext>,
    g: spec_fn(Window) -> Seq<Ext>,
    h: spec_fn(Window) -> Seq<Ext>,
)
    requires
        asserted(b, a, f),
        asserted(c, b, g),
        forall|env: Window| a.accepts(env) ==> #[trigger] h(env) == f(env) + g(env),
    ensures
        asserted(c, a, h),
{
    lemma_setting_trans(c, b, a);
    if c.ok() {
        assert forall|env: Window| a.accepts(env) implies #[trigger] c.acc(env) == fold_all(
            a.acc(env),
            a.alpha(),
            h(env),
            h(env).len(),
        ) by {
            assert(b.accepts(env));
            assert(b.acc(env) == fold_all(a.acc(env), a.alpha(), f(env), f(env).len()));
            assert(h(env) == f(env) + g(env));
            lemma_fold_concat(a.acc(env), a.alpha(), f(env), g(env), g(env).len());
        }
    }
}

/// Operations that assert nothing do not add to a list.
pub proof fn lemma_asserted_extends<B: BuilderSpec>(
    c: B,
    b: B,
    a: B,
    f: spec_fn(Window) -> Seq<Ext>,
)
    requires
        asserted(b, a, f),
        extends(c, b),
    ensures
        asserted(c, a, f),
{
    lemma_setting_trans(c, b, a);
    if c.ok() {
        assert forall|env: Window| a.accepts(env) implies #[trigger] c.acc(env) == fold_all(
            a.acc(env),
            a.alpha(),
            f(env),
            f(env).len(),
        ) by {
            assert(c.acc(env) == b.acc(env));
        }
    }
}

/// One more assertion appends its value.
pub proof fn lemma_asserted_push<B: BuilderSpec>(
    c: B,
    b: B,
    a: B,
    f: spec_fn(Window) -> Seq<Ext>,
    x: spec_fn(Window) -> Ext,
    h: spec_fn(Window) -> Seq<Ext>,
)
    requires
        asserted(b, a, f),
        same_setting(c, b),
        c.ok() ==> forall|env: Window|
            b.accepts(env) ==> #[trigger] c.acc(env) == fold_in(b.acc(env), b.alpha(), x(env)),
        forall|env: Window| a.accepts(env) ==> #[trigger] h(env) == f(env).push(x(env)),
    ensures
        asserted(c, a, h),
{
    lemma_setting_trans(c, b, a);
    if c.ok() {
        assert forall|env: Window| a.accepts(env) implies #[trigger] c.acc(env) == fold_all(
            a.acc(env),
            a.alpha(),
            h(env),
            h(env).len(),
        ) by {
            assert(b.accepts(env));
            assert(b.acc(env) == fold_all(a.acc(env), a.alpha(), f(env), f(env).len()));
            assert(h(env) == f(env).push(x(env)));
            lemma_fold_prefix(a.acc(env), a.alpha(), h(env), f(env), f(env).len());
        }
    }
}

/// The operations of a builder.
pub trait ConstraintBuilder: BuilderSpec {
    fn main_local(&self, i: usize) -> (r: Self::Expr)
        requires
            self.inv(),
            i < self.main_width_spec(),
        ensures
            Self::is_recording() ==> Self::reg(r) == self.recording().main_local(i as int),
            means(*self, r, |env: Window| env.main_local[i as int]),
    ;

    fn main_next(&self, i: usize) -> (r: Self::Expr)
        requires
            self.inv(),
            i < self.main_width_spec(),
        ensures
            Self::is_recording() ==> Self::reg(r) == self.recording().main_next(i as int),
            means(*self, r, |env: Window| env.main_next[i as int]),
    ;

    fn prep_local(&self, i: usize) -> (r: Self::Expr)
        requires
            self.inv(),
            i < self.prep_width_spec(),
        ensures
            Self::is_recording() ==> Self::reg(r) == self.recording().prep_local(i as int),
            means(*self, r, |env: Window| env.prep_local[i as int]),
    ;

    fn prep_next(&self, i: usize) -> (r: Self::Expr)
        requires
            self.inv(),
            i < self.prep_width_spec(),
        ensures
            Self::is_recording() ==> Self::reg(r) == self.recording().prep_next(i as int),
            means(*self, r, |env: Window| env.prep_next[i as int]),
    ;

    fn perm_local(&self, i: usize) -> (r: Self::ExprEF)
        requires
            self.inv(),
            i < self.perm_width_spec(),
        ensures
            Self::is_recording() ==> Self::reg_ef(r) == self.recording().perm_local(i as int),
            means_ef(*self, r, |env: Window| ext_at(env.perm_local, i as int)),
    ;

    fn perm_next(&self, i: usize) -> (r: Self::ExprEF)
        requires
            self.inv(),
            i < self.perm_width_spec(),
        ensures
            Self::is_recording() ==> Self::reg_ef(r) == self.recording().perm_next(i as int),
            means_ef(*self, r, |env: Window| ext_at(env.perm_next, i as int)),
    ;

    fn is_first_row(&self) -> (r: Self::Expr)
        requires
            self.inv(),
        ensures
            Self::is_recording() ==> Self::reg(r) == self.recording().first_row(),
            means(*self, r, |env: Window| env.selectors[0]),
    ;

    fn is_last_row(&self) -> (r: Self::Expr)
        requires
            self.inv(),
        ensures
            Self::is_recording() ==> Self::reg(r) == self.recording().last_row(),
            means(*self, r, |env: Window| env.selectors[1]),
    ;

    fn is_transition(&self) -> (r: Self::Expr)
        requires
            self.inv(),
        ensures
            Self::is_recording() ==> Self::reg(r) == self.recording().transition(),
            means(*self, r, |env: Window| env.selectors[2]),
    ;

    fn main_width(&self) -> (r: usize)
        requires
            self.inv(),
        ensures
            r == self.main_width_spec(),
    ;

    fn permutation_width(&self) -> (r: usize)
        requires
            self.inv(),
        ensures
            r == self.perm_width_spec(),
    ;

    fn challenge(&self, i: usize) -> (r: Self::ExprEF)
        requires
            self.inv(),
            i < self.challenges().len(),
        ensures
            Self::is_recording() ==> Self::reg_ef(r) == self.recording().challenge(i as int),
            means_ef(*self, r, |env: Window| self.challenges()[i as int]),
    ;

    fn local_cumulative_sum(&self) -> (r: Self::ExprEF)
        requires
            self.inv(),
        ensures
            Self::is_recording() ==> Self::reg_ef(r) == self.recording().local_sum(),
            means_ef(*self, r, |env: Window| self.local_sum()),
    ;

    fn global_cumulative_sum(&self) -> (r: SepticDigest)
        requires
            self.inv(),
        ensures
            r == self.global_sum(),
    ;

    fn constant(&mut self, c: Felt) -> (r: Self::Expr)
        requires
            old(self).inv(),
        ensures
            recorded(
                *final(self),
                r,
                old(self).recording().constant(c),
            ),
            within(*final(self), *old(self), 1),
            extends(*final(self), *old(self)),
            means(*final(self), r, |env: Window| ring::reduced(c)),
    ;

    fn add(&mut self, a: Self::Expr, b: Self::Expr) -> (r: Self::Expr)
        requires
            old(self).inv(),
            old(self).ok() ==> old(self).valid(a) && old(self).valid(b),
        ensures
            recorded(
                *final(self),
                r,
                old(self).recording().add(Self::reg(a), Self::reg(b)),
            ),
            within(*final(self), *old(self), 1),
            extends(*final(self), *old(self)),
            means(
                *final(self),
                r,
                |env: Window| old(self).val(env, a).plus(old(self).val(env, b)),
            ),
    ;

    fn sub(&mut self, a: Self::Expr, b: Self::Expr) -> (r: Self::Expr)
        requires
            old(self).inv(),
            old(self).ok() ==> old(self).valid(a) && old(self).valid(b),
        ensures
            recorded(
                *final(self),
                r,
                old(self).recording().sub(Self::reg(a), Self::reg(b)),
            ),
            within(*final(self), *old(self), 1),
            extends(*final(self), *old(self)),
            means(
                *final(self),
                r,
                |env: Window| ring::minus(old(self).val(env, a), old(self).val(env, b)),
            ),
    ;

    fn mul(&mut self, a: Self::Expr, b: Self::Expr) -> (r: Self::Expr)
        requires
            old(self).inv(),
            old(self).ok() ==> old(self).valid(a) && old(self).valid(b),
        ensures
            recorded(
                *final(self),
                r,
                old(self).recording().mul(Self::reg(a), Self::reg(b)),
            ),
            within(*final(self), *old(self), 1),
            extends(*final(self), *old(self)),
            means(
                *final(self),
                r,
                |env: Window| old(self).val(env, a).times(old(self).val(env, b)),
            ),
    ;

    fn neg(&mut self, a: Self::Expr) -> (r: Self::Expr)
        requires
            old(self).inv(),
            old(self).ok() ==> old(self).valid(a),
        ensures
            recorded(
                *final(self),
                r,
                old(self).recording().neg(Self::reg(a)),
            ),
            within(*final(self), *old(self), 1),
            extends(*final(self), *old(self)),
            means(*final(self), r, |env: Window| old(self).val(env, a).negated()),
    ;

    /// A constant of BabyBear as an extension value.
    fn constant_ef(&mut self, c: Felt) -> (r: Self::ExprEF)
        requires
            old(self).inv(),
        ensures
            recorded_ef(
                *final(self),
                r,
                old(self).recording().constant_ef(c),
            ),
            within(*final(self), *old(self), 5),
            extends(*final(self), *old(self)),
            means_ef(*final(self), r, |env: Window| ext::embed(ring::reduced(c))),
    ;

    /// A BabyBear value as an extension value.
    fn from_base(&mut self, a: Self::Expr) -> (r: Self::ExprEF)
        requires
            old(self).inv(),
            old(self).ok() ==> old(self).valid(a),
        ensures
            recorded_ef(
                *final(self),
                r,
                old(self).recording().from_base(Self::reg(a)),
            ),
            within(*final(self), *old(self), 4),
            extends(*final(self), *old(self)),
            means_ef(*final(self), r, |env: Window| ext::embed(old(self).val(env, a))),
    ;

    fn add_ef(&mut self, a: Self::ExprEF, b: Self::ExprEF) -> (r: Self::ExprEF)
        requires
            old(self).inv(),
            old(self).ok() ==> old(self).valid_ef(a) && old(self).valid_ef(b),
        ensures
            recorded_ef(
                *final(self),
                r,
                old(self).recording().add_ef(Self::reg_ef(a), Self::reg_ef(b)),
            ),
            within(*final(self), *old(self), 4),
            extends(*final(self), *old(self)),
            means_ef(
                *final(self),
                r,
                |env: Window| old(self).val_ef(env, a).plus(old(self).val_ef(env, b)),
            ),
    ;

    fn sub_ef(&mut self, a: Self::ExprEF, b: Self::ExprEF) -> (r: Self::ExprEF)
        requires
            old(self).inv(),
            old(self).ok() ==> old(self).valid_ef(a) && old(self).valid_ef(b),
        ensures
            recorded_ef(
                *final(self),
                r,
                old(self).recording().sub_ef(Self::reg_ef(a), Self::reg_ef(b)),
            ),
            within(*final(self), *old(self), 4),
            extends(*final(self), *old(self)),
            means_ef(
                *final(self),
                r,
                |env: Window| ring::minus(old(self).val_ef(env, a), old(self).val_ef(env, b)),
            ),
    ;

    fn mul_ef(&mut self, a: Self::ExprEF, b: Self::ExprEF) -> (r: Self::ExprEF)
        requires
            old(self).inv(),
            old(self).ok() ==> old(self).valid_ef(a) && old(self).valid_ef(b),
        ensures
            recorded_ef(
                *final(self),
                r,
                old(self).recording().mul_ef(Self::reg_ef(a), Self::reg_ef(b)),
            ),
            within(*final(self), *old(self), 43),
            extends(*final(self), *old(self)),
            means_ef(
                *final(self),
                r,
                |env: Window| old(self).val_ef(env, a).times(old(self).val_ef(env, b)),
            ),
    ;

    /// The product with a BabyBear value.
    fn mul_ef_base(&mut self, a: Self::ExprEF, b: Self::Expr) -> (r: Self::ExprEF)
        requires
            old(self).inv(),
            old(self).ok() ==> old(self).valid_ef(a) && old(self).valid(b),
        ensures
            recorded_ef(
                *final(self),
                r,
                old(self).recording().mul_ef_base(Self::reg_ef(a), Self::reg(b)),
            ),
            within(*final(self), *old(self), 4),
            extends(*final(self), *old(self)),
            means_ef(
                *final(self),
                r,
                |env: Window| old(self).val_ef(env, a).times(ext::embed(old(self).val(env, b))),
            ),
    ;

    /// Folds a value that has to be zero into the accumulator.
    fn assert_zero(&mut self, a: Self::Expr)
        requires
            old(self).inv(),
            old(self).ok() ==> old(self).valid(a),
        ensures
            Self::is_recording() ==> final(self).recording() == old(self).recording().assert_zero(Self::reg(a)),
            within(*final(self), *old(self), 44),
            same_setting(*final(self), *old(self)),
            final(self).ok() ==> forall|env: Window|
                old(self).accepts(env) ==> #[trigger] final(self).acc(env) == fold_in(
                    old(self).acc(env),
                    old(self).alpha(),
                    ext::embed(old(self).val(env, a)),
                ),
    ;

    /// Folds an extension value that has to be zero into the accumulator.
    fn assert_zero_ext(&mut self, a: Self::ExprEF)
        requires
            old(self).inv(),
            old(self).ok() ==> old(self).valid_ef(a),
        ensures
            Self::is_recording() ==> final(self).recording() == old(self).recording().assert_zero_ext(Self::reg_ef(a)),
            within(*final(self), *old(self), 47),
            same_setting(*final(self), *old(self)),
            final(self).ok() ==> forall|env: Window|
                old(self).accepts(env) ==> #[trigger] final(self).acc(env) == fold_in(
                    old(self).acc(env),
                    old(self).alpha(),
                    old(self).val_ef(env, a),
                ),
    ;
}

/// Folding values in, one after the other, gives the polynomial with these values as coefficients, the
/// last one constant, at `alpha`; what was there before comes in front of them.
pub proof fn law_fold_is_polynomial(acc: Ext, alpha: Ext, xs: Seq<Ext>, n: nat)
    requires
        n <= xs.len(),
        ring::reduced(acc) == acc,
    ensures
        fold_all(acc, alpha, xs, n) == acc.times(ring::pow(alpha, n)).plus(
            ring::sum(n, |i: int| xs[i].times(ring::pow(alpha, (n - 1 - i) as nat))),
        ),
    decreases n,
{
    let f = |i: int| xs[i].times(ring::pow(alpha, (n - 1 - i) as nat));
    if n == 0 {
        ring::lemma_mul_one(acc);
        ring::lemma_add_reduced(acc, Ext::zero_spec());
    } else {
        let m = (n - 1) as nat;
        law_fold_is_polynomial(acc, alpha, xs, m);
        let g = |i: int| xs[i].times(ring::pow(alpha, (m - 1 - i) as nat));
        let h = |i: int| alpha.times(g(i));
        assert forall|i: int| 0 <= i < m implies #[trigger] f(i) == h(i) by {
            let e = (m - 1 - i) as nat;
            assert((n - 1 - i) as nat == e + 1);
            Ext::law_mul_comm(ring::pow(alpha, e), alpha);
            ring::lemma_mul_left_comm(xs[i], alpha, ring::pow(alpha, e));
        }
        ring::lemma_sum_scale(m, alpha, g);
        ring::lemma_sum_ext(m, h, |i: int| alpha.times(g(i)));
        ring::lemma_sum_ext(m, f, h);
        let (a, s) = (acc.times(ring::pow(alpha, m)), ring::sum(m, g));
        ring::lemma_distrib_right(a, s, alpha);
        Ext::law_mul_comm(s, alpha);
        Ext::law_mul_assoc(acc, ring::pow(alpha, m), alpha);
        let x = xs[n - 1];
        ring::lemma_mul_one(x);
        Ext::law_add_assoc(a.times(alpha), alpha.times(s), x);
        ring::lemma_add_reduced(ring::sum(m, f), x);
        assert(f(n - 1) == ring::reduced(x));
    }
}

} // verus!
