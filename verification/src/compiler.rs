//! The builder that records constraints as a program.

use vstd::prelude::*;
use crate::babybear::Felt;
use crate::builder;
use crate::builder::{BuilderSpec, ConstraintBuilder, SepticDigest};
use crate::ext;
use crate::ext::Ext;
use crate::ir;
use crate::ir::{IrContext, IrExtVal, IrVal};
use crate::matrix::Matrix;
use crate::program;
use crate::program::{OP_ADD, OP_MUL, OP_NEG, OP_SUB, Window};
use crate::recording::{Recording, Registers};
use crate::ring;
use crate::ring::Ring;

verus! {

/// The constants that a program is compiled for, in reduced form.
pub struct Setting {
    pub alpha: Ext,
    pub challenges: Seq<Ext>,
    pub local_sum: Ext,
}

/// Whether the registers from `start` on will hold a row.
pub open spec fn loads(
    ctx: IrContext,
    regs: Seq<IrVal>,
    start: int,
    width: int,
    row: spec_fn(Window) -> Seq<Felt>,
) -> bool {
    &&& forall|i: int| 0 <= i < width ==> ctx.holds((#[trigger] regs[start + i]).0)
    &&& forall|env: Window, i: int|
        0 <= i < width ==> #[trigger] ctx.value(env, regs[start + i].0) == row(env)[i]
}

/// Whether the registers from `start` on will hold a row of extension elements.
pub open spec fn loads_ext(
    ctx: IrContext,
    regs: Seq<IrExtVal>,
    start: int,
    width: int,
    row: spec_fn(Window) -> Seq<Felt>,
) -> bool {
    &&& forall|i: int| 0 <= i < width ==> (#[trigger] regs[start + i]).held_by(ctx)
    &&& forall|env: Window, i: int|
        0 <= i < width ==> #[trigger] regs[start + i].value(ctx, env) == builder::ext_at(
            row(env),
            i,
        )
}

/// Whether a register will hold a selector.
pub open spec fn selects(ctx: IrContext, r: IrVal, k: int) -> bool {
    &&& ctx.holds(r.0)
    &&& forall|env: Window| #[trigger] ctx.value(env, r.0) == env.selectors[k]
}

/// Whether registers will hold a constant.
pub open spec fn is_constant(ctx: IrContext, r: IrExtVal, x: Ext) -> bool {
    &&& r.held_by(ctx)
    &&& forall|env: Window| #[trigger] r.value(ctx, env) == x
}

/// The registers that a recording starts with.
pub struct CompilerData {
    /// The local and the next row of the preprocessed trace.
    pub preprocessed: Matrix<IrVal>,
    pub main: Matrix<IrVal>,
    pub perm: Matrix<IrExtVal>,
    pub is_first_row: IrVal,
    pub is_last_row: IrVal,
    pub is_transition: IrVal,
    pub perm_challenges: Vec<IrExtVal>,
    pub local_cumulative_sum: IrExtVal,
    pub global_cumulative_sum: SepticDigest,
    pub alpha_ir: IrExtVal,
    pub public_values: Vec<Felt>,
    pub setting: Ghost<Setting>,
}

impl CompilerData {
    /// The matrices have two rows, and there is a constant for each register that holds one.
    pub open spec fn well_formed(&self) -> bool {
        &&& self.preprocessed.values@.len() == 2 * self.preprocessed.width
        &&& self.main.values@.len() == 2 * self.main.width
        &&& self.perm.values@.len() == 2 * self.perm.width
        &&& self.perm_challenges@.len() == self.setting@.challenges.len()
    }

    /// Whether the registers will hold what they should.
    pub open spec fn recorded(&self, ctx: IrContext) -> bool {
        let (p, m, q) = (
            self.preprocessed.width as int,
            self.main.width as int,
            self.perm.width as int,
        );
        &&& loads(ctx, self.preprocessed.values@, 0, p, |env: Window| env.prep_local)
        &&& loads(ctx, self.preprocessed.values@, p, p, |env: Window| env.prep_next)
        &&& loads(ctx, self.main.values@, 0, m, |env: Window| env.main_local)
        &&& loads(ctx, self.main.values@, m, m, |env: Window| env.main_next)
        &&& loads_ext(ctx, self.perm.values@, 0, q, |env: Window| env.perm_local)
        &&& loads_ext(ctx, self.perm.values@, q, q, |env: Window| env.perm_next)
        &&& selects(ctx, self.is_first_row, 0)
        &&& selects(ctx, self.is_last_row, 1)
        &&& selects(ctx, self.is_transition, 2)
        &&& forall|i: int|
            0 <= i < self.perm_challenges@.len() ==> is_constant(
                ctx,
                #[trigger] self.perm_challenges@[i],
                self.setting@.challenges[i],
            )
        &&& is_constant(ctx, self.local_cumulative_sum, self.setting@.local_sum)
        &&& is_constant(ctx, self.alpha_ir, self.setting@.alpha)
    }
}

impl CompilerData {
    /// Whether a recording starts with the loads of the rows and selectors and has no others.
    pub open spec fn loaded_first(&self, ctx: IrContext) -> bool {
        let (p, m, e) = (
            self.preprocessed.width as int,
            self.main.width as int,
            4 * self.perm.width as int,
        );
        &&& program::loads_first(ctx.words@, p, m, e)
        &&& ctx.num_loads() == program::load_count(p, m, e)
    }

    pub open spec fn registers(&self) -> Registers {
        Registers {
            prep: self.preprocessed.values@,
            prep_width: self.preprocessed.width,
            main: self.main.values@,
            main_width: self.main.width,
            perm: self.perm.values@,
            perm_width: self.perm.width,
            first_row: self.is_first_row,
            last_row: self.is_last_row,
            transition: self.is_transition,
            challenges: self.perm_challenges@,
            local_sum: self.local_cumulative_sum,
            alpha: self.alpha_ir,
        }
    }
}

/// A recording of constraints.
pub struct ConstraintCompiler {
    pub data: CompilerData,
    pub ctx: IrContext,
    /// The registers of the accumulator.
    pub accumulator: IrExtVal,
}

pub(crate) proof fn lemma_loads(
    new: IrContext,
    old: IrContext,
    regs: Seq<IrVal>,
    start: int,
    width: int,
    row: spec_fn(Window) -> Seq<Felt>,
)
    requires
        new.continues(old),
        new.addressable(),
        loads(old, regs, start, width, row),
    ensures
        loads(new, regs, start, width, row),
{
    assert forall|env: Window, i: int| 0 <= i < width implies #[trigger] new.value(
        env,
        regs[start + i].0,
    ) == row(env)[i] by {
        assert(old.holds(regs[start + i].0));
        assert(old.value(env, regs[start + i].0) == row(env)[i]);
    }
}

/// Extension values keep their meaning when the recording goes on.
pub proof fn lemma_ext_value(new: IrContext, old: IrContext, r: IrExtVal, env: Window)
    requires
        new.continues(old),
        new.addressable(),
        r.held_by(old),
    ensures
        r.held_by(new),
        r.value(new, env) == r.value(old, env),
{
    assert(new.value(env, r.c0.0) == old.value(env, r.c0.0));
    assert(new.value(env, r.c1.0) == old.value(env, r.c1.0));
    assert(new.value(env, r.c2.0) == old.value(env, r.c2.0));
    assert(new.value(env, r.c3.0) == old.value(env, r.c3.0));
}

pub(crate) proof fn lemma_loads_ext(
    new: IrContext,
    old: IrContext,
    regs: Seq<IrExtVal>,
    start: int,
    width: int,
    row: spec_fn(Window) -> Seq<Felt>,
)
    requires
        new.continues(old),
        new.addressable(),
        loads_ext(old, regs, start, width, row),
    ensures
        loads_ext(new, regs, start, width, row),
{
    assert forall|i: int| 0 <= i < width implies (#[trigger] regs[start + i]).held_by(new) by {
        assert(regs[start + i].held_by(old));
    }
    assert forall|env: Window, i: int| 0 <= i < width implies #[trigger] regs[start + i].value(
        new,
        env,
    ) == builder::ext_at(row(env), i) by {
        assert(regs[start + i].held_by(old));
        lemma_ext_value(new, old, regs[start + i], env);
        assert(regs[start + i].value(old, env) == builder::ext_at(row(env), i));
    }
}

pub(crate) proof fn lemma_is_constant(new: IrContext, old: IrContext, r: IrExtVal, x: Ext)
    requires
        new.continues(old),
        new.addressable(),
        is_constant(old, r, x),
    ensures
        is_constant(new, r, x),
{
    assert forall|env: Window| #[trigger] r.value(new, env) == x by {
        lemma_ext_value(new, old, r, env);
        assert(r.value(old, env) == x);
    }
}

pub(crate) proof fn lemma_selects(new: IrContext, old: IrContext, r: IrVal, k: int)
    requires
        new.continues(old),
        new.addressable(),
        selects(old, r, k),
    ensures
        selects(new, r, k),
{
    assert forall|env: Window| #[trigger] new.value(env, r.0) == env.selectors[k] by {
        assert(old.value(env, r.0) == env.selectors[k]);
    }
}

/// The registers keep their meaning when the recording goes on.
pub proof fn lemma_recorded(data: CompilerData, new: IrContext, old: IrContext)
    requires
        new.continues(old),
        new.addressable(),
        data.recorded(old),
    ensures
        data.recorded(new),
{
    let (p, m, q) = (data.preprocessed.width as int, data.main.width as int, data.perm.width as int);
    lemma_loads(new, old, data.preprocessed.values@, 0, p, |env: Window| env.prep_local);
    lemma_loads(new, old, data.preprocessed.values@, p, p, |env: Window| env.prep_next);
    lemma_loads(new, old, data.main.values@, 0, m, |env: Window| env.main_local);
    lemma_loads(new, old, data.main.values@, m, m, |env: Window| env.main_next);
    lemma_loads_ext(new, old, data.perm.values@, 0, q, |env: Window| env.perm_local);
    lemma_loads_ext(new, old, data.perm.values@, q, q, |env: Window| env.perm_next);
    lemma_selects(new, old, data.is_first_row, 0);
    lemma_selects(new, old, data.is_last_row, 1);
    lemma_selects(new, old, data.is_transition, 2);
    assert forall|i: int| 0 <= i < data.perm_challenges@.len() implies is_constant(
        new,
        #[trigger] data.perm_challenges@[i],
        data.setting@.challenges[i],
    ) by {
        lemma_is_constant(new, old, data.perm_challenges@[i], data.setting@.challenges[i]);
    }
    lemma_is_constant(new, old, data.local_cumulative_sum, data.setting@.local_sum);
    lemma_is_constant(new, old, data.alpha_ir, data.setting@.alpha);
}

impl BuilderSpec for ConstraintCompiler {
    type Expr = IrVal;

    type ExprEF = IrExtVal;

    open spec fn is_recording() -> bool {
        true
    }

    open spec fn recording(&self) -> Recording {
        Recording {
            tape: self.ctx.tape(),
            accumulator: self.accumulator,
            registers: self.data.registers(),
        }
    }

    open spec fn reg(e: IrVal) -> IrVal {
        e
    }

    open spec fn reg_ef(e: IrExtVal) -> IrExtVal {
        e
    }

    open spec fn inv(&self) -> bool {
        &&& self.data.well_formed()
        &&& self.ctx.well_formed()
        &&& self.data.loaded_first(self.ctx)
        &&& self.ctx.addressable() ==> self.data.recorded(self.ctx) && self.accumulator.held_by(
            self.ctx,
        )
    }

    open spec fn ok(&self) -> bool {
        self.ctx.addressable()
    }

    open spec fn size(&self) -> nat {
        self.ctx.count()
    }

    open spec fn accepts(&self, env: Window) -> bool {
        true
    }

    open spec fn valid(&self, e: IrVal) -> bool {
        self.ctx.holds(e.0)
    }

    open spec fn valid_ef(&self, e: IrExtVal) -> bool {
        e.held_by(self.ctx)
    }

    open spec fn val(&self, env: Window, e: IrVal) -> Felt {
        self.ctx.value(env, e.0)
    }

    open spec fn val_ef(&self, env: Window, e: IrExtVal) -> Ext {
        e.value(self.ctx, env)
    }

    open spec fn acc(&self, env: Window) -> Ext {
        self.accumulator.value(self.ctx, env)
    }

    open spec fn alpha(&self) -> Ext {
        self.data.setting@.alpha
    }

    open spec fn prep_width_spec(&self) -> nat {
        self.data.preprocessed.width as nat
    }

    open spec fn main_width_spec(&self) -> nat {
        self.data.main.width as nat
    }

    open spec fn perm_width_spec(&self) -> nat {
        self.data.perm.width as nat
    }

    open spec fn challenges(&self) -> Seq<Ext> {
        self.data.setting@.challenges
    }

    open spec fn local_sum(&self) -> Ext {
        self.data.setting@.local_sum
    }

    open spec fn global_sum(&self) -> SepticDigest {
        self.data.global_cumulative_sum
    }
}

/// More instructions leave the meaning of what was recorded alone.
proof fn lemma_goes_on(new: ConstraintCompiler, old: ConstraintCompiler)
    requires
        old.inv(),
        new.data == old.data,
        new.ctx.continues(old.ctx),
        new.ctx.num_loads() == old.ctx.num_loads(),
        new.ctx.addressable() ==> old.ctx.addressable(),
        new.ctx.addressable() ==> new.accumulator.held_by(new.ctx),
    ensures
        builder::same_setting(new, old),
        new.accumulator == old.accumulator ==> builder::extends(new, old),
{
    program::lemma_loads_first(
        old.ctx.words@,
        new.ctx.words@,
        old.data.preprocessed.width as int,
        old.data.main.width as int,
        4 * old.data.perm.width as int,
    );
    if new.ok() {
        lemma_recorded(old.data, new.ctx, old.ctx);
        assert forall|env: Window, e: IrExtVal| old.valid_ef(e) implies #[trigger] new.val_ef(env, e)
            == old.val_ef(env, e) by {
            lemma_ext_value(new.ctx, old.ctx, e, env);
        }
        if new.accumulator == old.accumulator {
            assert forall|env: Window| #[trigger] new.acc(env) == old.acc(env) by {
                lemma_ext_value(new.ctx, old.ctx, old.accumulator, env);
            }
        }
    }
}

impl ConstraintBuilder for ConstraintCompiler {
    fn main_local(&self, i: usize) -> (r: IrVal) {
        assert(self.ok() ==> self.ctx.holds(self.data.main.values@[0 + i as int].0));
        self.data.main.values[i]
    }

    fn main_next(&self, i: usize) -> (r: IrVal) {
        let w: usize = self.data.main.width;
        let n: usize = self.data.main.values.len();
        assert(w + i < n);
        assert(self.ok() ==> self.ctx.holds(self.data.main.values@[w + i as int].0));
        self.data.main.values[w + i]
    }

    fn prep_local(&self, i: usize) -> (r: IrVal) {
        assert(self.ok() ==> self.ctx.holds(self.data.preprocessed.values@[0 + i as int].0));
        self.data.preprocessed.values[i]
    }

    fn prep_next(&self, i: usize) -> (r: IrVal) {
        let w: usize = self.data.preprocessed.width;
        let n: usize = self.data.preprocessed.values.len();
        assert(w + i < n);
        assert(self.ok() ==> self.ctx.holds(self.data.preprocessed.values@[w + i as int].0));
        self.data.preprocessed.values[w + i]
    }

    fn perm_local(&self, i: usize) -> (r: IrExtVal) {
        assert(self.ok() ==> self.data.perm.values@[0 + i as int].held_by(self.ctx));
        self.data.perm.values[i]
    }

    fn perm_next(&self, i: usize) -> (r: IrExtVal) {
        let w: usize = self.data.perm.width;
        let n: usize = self.data.perm.values.len();
        assert(w + i < n);
        assert(self.ok() ==> self.data.perm.values@[w + i as int].held_by(self.ctx));
        self.data.perm.values[w + i]
    }

    fn is_first_row(&self) -> (r: IrVal) {
        self.data.is_first_row
    }

    fn is_last_row(&self) -> (r: IrVal) {
        self.data.is_last_row
    }

    fn is_transition(&self) -> (r: IrVal) {
        self.data.is_transition
    }

    fn main_width(&self) -> (r: usize) {
        self.data.main.width
    }

    fn permutation_width(&self) -> (r: usize) {
        self.data.perm.width
    }

    fn challenge(&self, i: usize) -> (r: IrExtVal) {
        assert(self.ok() ==> is_constant(
            self.ctx,
            self.data.perm_challenges@[i as int],
            self.data.setting@.challenges[i as int],
        ));
        self.data.perm_challenges[i]
    }

    fn local_cumulative_sum(&self) -> (r: IrExtVal) {
        self.data.local_cumulative_sum
    }

    fn global_cumulative_sum(&self) -> (r: SepticDigest) {
        self.data.global_cumulative_sum
    }

    fn constant(&mut self, c: Felt) -> (r: IrVal) {
        let ghost b0 = *self;
        let r = IrVal::from_f(&mut self.ctx, c);
        proof {
            reveal(Recording::constant);
            ir::lemma_constant(r, self.ctx, b0.ctx, c.value as int);
            if self.ctx.addressable() {
                assert forall|env: Window| true implies #[trigger] self.val(env, r)
                    == ring::reduced(c) by {
                    assert(self.ctx.value(env, r.0) == crate::babybear::felt(c.value as int));
                }
                lemma_ext_value(self.ctx, b0.ctx, self.accumulator, arbitrary());
            }
            lemma_goes_on(*self, b0);
        }
        r
    }

    fn add(&mut self, a: IrVal, b: IrVal) -> (r: IrVal) {
        let ghost b0 = *self;
        let r = a.add(b, &mut self.ctx);
        proof {
            reveal(Recording::add);
            ir::lemma_binary(r, self.ctx, b0.ctx, OP_ADD, a.0, b.0);
            if self.ctx.addressable() {
                assert forall|env: Window| true implies #[trigger] self.val(env, r) == b0.val(
                    env,
                    a,
                ).plus(b0.val(env, b)) by {
                    assert(self.ctx.value(env, r.0) == ir::binary_value(
                        OP_ADD,
                        b0.ctx.value(env, a.0),
                        b0.ctx.value(env, b.0),
                    ));
                }
            }
            lemma_goes_on(*self, b0);
        }
        r
    }

    fn sub(&mut self, a: IrVal, b: IrVal) -> (r: IrVal) {
        let ghost b0 = *self;
        let r = a.sub(b, &mut self.ctx);
        proof {
            reveal(Recording::sub);
            ir::lemma_binary(r, self.ctx, b0.ctx, OP_SUB, a.0, b.0);
            if self.ctx.addressable() {
                assert forall|env: Window| true implies #[trigger] self.val(env, r)
                    == ring::minus(b0.val(env, a), b0.val(env, b)) by {
                    assert(self.ctx.value(env, r.0) == ir::binary_value(
                        OP_SUB,
                        b0.ctx.value(env, a.0),
                        b0.ctx.value(env, b.0),
                    ));
                }
            }
            lemma_goes_on(*self, b0);
        }
        r
    }

    fn mul(&mut self, a: IrVal, b: IrVal) -> (r: IrVal) {
        let ghost b0 = *self;
        let r = a.mul(b, &mut self.ctx);
        proof {
            reveal(Recording::mul);
            ir::lemma_binary(r, self.ctx, b0.ctx, OP_MUL, a.0, b.0);
            if self.ctx.addressable() {
                assert forall|env: Window| true implies #[trigger] self.val(env, r) == b0.val(
                    env,
                    a,
                ).times(b0.val(env, b)) by {
                    assert(self.ctx.value(env, r.0) == ir::binary_value(
                        OP_MUL,
                        b0.ctx.value(env, a.0),
                        b0.ctx.value(env, b.0),
                    ));
                }
            }
            lemma_goes_on(*self, b0);
        }
        r
    }

    fn neg(&mut self, a: IrVal) -> (r: IrVal) {
        let ghost b0 = *self;
        let r = a.neg(&mut self.ctx);
        proof {
            reveal(Recording::neg);
            ir::lemma_records(self.ctx, b0.ctx, OP_NEG, a.0, 0);
            lemma_goes_on(*self, b0);
        }
        r
    }

    fn constant_ef(&mut self, c: Felt) -> (r: IrExtVal) {
        let ghost b0 = *self;
        let r = IrExtVal::from_felt(&mut self.ctx, c);
        proof {
            reveal(Recording::constant_ef);
            lemma_goes_on(*self, b0);
        }
        r
    }

    fn from_base(&mut self, a: IrVal) -> (r: IrExtVal) {
        let ghost b0 = *self;
        let r = IrExtVal::from_base(&mut self.ctx, a);
        proof {
            reveal(Recording::from_base);
            lemma_goes_on(*self, b0);
        }
        r
    }

    fn add_ef(&mut self, a: IrExtVal, b: IrExtVal) -> (r: IrExtVal) {
        let ghost b0 = *self;
        let r = a.add(b, &mut self.ctx);
        proof {
            reveal(Recording::add_ef);
            lemma_goes_on(*self, b0);
        }
        r
    }

    fn sub_ef(&mut self, a: IrExtVal, b: IrExtVal) -> (r: IrExtVal) {
        let ghost b0 = *self;
        let r = a.sub(b, &mut self.ctx);
        proof {
            reveal(Recording::sub_ef);
            lemma_goes_on(*self, b0);
        }
        r
    }

    fn mul_ef(&mut self, a: IrExtVal, b: IrExtVal) -> (r: IrExtVal) {
        let ghost b0 = *self;
        let r = a.mul(b, &mut self.ctx);
        proof {
            reveal(Recording::mul_ef);
            lemma_goes_on(*self, b0);
        }
        r
    }

    fn mul_ef_base(&mut self, a: IrExtVal, b: IrVal) -> (r: IrExtVal) {
        let ghost b0 = *self;
        let r = a.mul_base(b, &mut self.ctx);
        proof {
            reveal(Recording::mul_ef_base);
            lemma_goes_on(*self, b0);
        }
        r
    }

    fn assert_zero(&mut self, a: IrVal) {
        let ghost b0 = *self;
        let scaled = self.accumulator.mul(self.data.alpha_ir, &mut self.ctx);
        let ghost c1 = self.ctx;
        self.accumulator = scaled.add_base(a, &mut self.ctx);
        proof {
            reveal(Recording::assert_zero);
            ir::lemma_continues_trans(self.ctx, c1, b0.ctx);
            lemma_goes_on(*self, b0);
            if self.ok() {
                assert forall|env: Window| true implies #[trigger] self.acc(env)
                    == builder::fold_in(b0.acc(env), b0.alpha(), ext::embed(b0.val(env, a))) by {
                    assert(b0.data.alpha_ir.value(b0.ctx, env) == b0.alpha());
                    assert(c1.value(env, a.0) == b0.ctx.value(env, a.0));
                    let x = b0.acc(env).times(b0.alpha());
                    assert(scaled.value(c1, env) == x);
                    ring::lemma_mul_reduced(b0.acc(env), b0.alpha());
                    lemma_add_base(x, b0.val(env, a));
                }
            }
        }
    }

    fn assert_zero_ext(&mut self, a: IrExtVal) {
        let ghost b0 = *self;
        let scaled = self.accumulator.mul(self.data.alpha_ir, &mut self.ctx);
        let ghost c1 = self.ctx;
        self.accumulator = scaled.add(a, &mut self.ctx);
        proof {
            reveal(Recording::assert_zero_ext);
            ir::lemma_continues_trans(self.ctx, c1, b0.ctx);
            lemma_goes_on(*self, b0);
            if self.ok() {
                assert forall|env: Window| true implies #[trigger] self.acc(env)
                    == builder::fold_in(b0.acc(env), b0.alpha(), b0.val_ef(env, a)) by {
                    assert(b0.data.alpha_ir.value(b0.ctx, env) == b0.alpha());
                    lemma_ext_value(c1, b0.ctx, a, env);
                    assert(scaled.value(c1, env) == b0.acc(env).times(b0.alpha()));
                }
            }
        }
    }
}

/// Adding to the first coordinate of a reduced element is adding a BabyBear element.
proof fn lemma_add_base(x: Ext, b: Felt)
    requires
        ring::reduced(x) == x,
    ensures
        (Ext { c0: x.c0.plus(b), ..x }) == x.plus(ext::embed(b)),
{
}

} // verus!
