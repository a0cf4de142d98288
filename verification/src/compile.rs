//! Compilation of a chip's constraints into a program.

use vstd::prelude::*;
use crate::babybear::Felt;
use crate::builder;
use crate::builder::{BuilderSpec, ConstraintBuilder, SepticDigest};
use crate::chip::{Air, Chip};
use crate::compiler;
use crate::compiler::{CompilerData, ConstraintCompiler, Setting};
use crate::constraints;
use crate::ext::Ext;
use crate::ir;
use crate::ir::{IrContext, IrExtVal, IrVal};
use crate::lookup::{Interaction, InteractionScope};
use crate::matrix::Matrix;
use crate::permutation;
use crate::program;
use crate::program::{
    ConstraintProgram, OP_LOAD_MAIN_LOCAL, OP_LOAD_MAIN_NEXT, OP_LOAD_PERM_LOCAL, OP_LOAD_PERM_NEXT,
    OP_LOAD_PREP_LOCAL, OP_LOAD_PREP_NEXT, OP_LOAD_SELECTOR, SEL_IS_FIRST_ROW, SEL_IS_LAST_ROW,
    SEL_IS_TRANSITION, Window,
};
use crate::recording;
use crate::recording::Recording;
use crate::ring;
use crate::ring::Ring;

verus! {

/// The row that a load reads.
pub open spec fn loaded_row(op: u32, env: Window) -> Seq<Felt> {
    if op == OP_LOAD_MAIN_LOCAL {
        env.main_local
    } else if op == OP_LOAD_MAIN_NEXT {
        env.main_next
    } else if op == OP_LOAD_PREP_LOCAL {
        env.prep_local
    } else if op == OP_LOAD_PREP_NEXT {
        env.prep_next
    } else if op == OP_LOAD_PERM_LOCAL {
        env.perm_local
    } else if op == OP_LOAD_PERM_NEXT {
        env.perm_next
    } else {
        env.selectors
    }
}

/// Records the load of a column.
fn load(ctx: &mut IrContext, op: u32, col: usize) -> (r: IrVal)
    requires
        old(ctx).well_formed(),
        program::is_load(op),
    ensures
        (final(ctx).tape(), r) == old(ctx).tape().record(op, col as u32, 0),
        final(ctx).num_loads() == old(ctx).num_loads() + 1,
        final(ctx).continues(*old(ctx)),
        final(ctx).count() == old(ctx).count() + 1,
        final(ctx).addressable() ==> final(ctx).holds(r.0),
        final(ctx).addressable() && col <= u32::MAX ==> forall|env: Window| #[trigger]
            final(ctx).value(env, r.0) == loaded_row(op, env)[col as int],
{
    let ghost s0 = *ctx;
    let r = IrVal::emit_load(ctx, op, col as u32);
    proof {
        ir::lemma_records(*ctx, s0, op, col as u32, 0);
    }
    r
}

/// One more load lengthens a run of them.
proof fn lemma_load_next(new: IrContext, old: IrContext, start: int, op: u32, n: int)
    requires
        old.well_formed(),
        program::load_run(old.words@, start, op, n),
        0 <= start,
        0 <= n,
        old.count() == start + n,
        new.tape() == old.tape().emit(op, n as u32, 0),
    ensures
        program::load_run(new.words@, start, op, n + 1),
{
    assert forall|c: int| 0 <= c < n + 1 implies #[trigger] program::op_at(new.words@, start + c)
        == op && program::arg0_at(new.words@, start + c) == c as u32 by {
        if c < n {
            assert(program::op_at(old.words@, start + c) == op);
        }
    }
}

/// A run of loads stays when the recording goes on.
proof fn lemma_run_kept(new: IrContext, old: IrContext, start: int, op: u32, n: int)
    requires
        program::load_run(old.words@, start, op, n),
        0 <= start,
        4 * (start + n) <= old.words@.len(),
        program::is_load(op),
        new.continues(old),
    ensures
        program::load_run(new.words@, start, op, n),
{
    let (a, b) = (old.words@, new.words@);
    assert(a == b.subrange(0, a.len() as int));
    assert forall|i: int| 0 <= i < a.len() implies #[trigger] b[i] == a[i] by {
        assert(b.subrange(0, a.len() as int)[i] == b[i]);
    }
    program::lemma_load_run(a, b, start, op, n);
}

/// Records the loads of a row.
fn load_row(ctx: &mut IrContext, op: u32, width: usize) -> (r: Vec<IrVal>)
    requires
        old(ctx).well_formed(),
        program::is_load(op),
    ensures
        (final(ctx).tape(), r@) == old(ctx).tape().loads(op, width as nat),
        final(ctx).num_loads() == old(ctx).num_loads() + width,
        program::load_run(final(ctx).words@, old(ctx).count() as int, op, width as int),
        final(ctx).continues(*old(ctx)),
        final(ctx).count() == old(ctx).count() + width,
        r@.len() == width,
        final(ctx).addressable() ==> compiler::loads(
            *final(ctx),
            r@,
            0,
            width as int,
            |env: Window| loaded_row(op, env),
        ),
{
    let ghost s0 = *ctx;
    let ghost row = |env: Window| loaded_row(op, env);
    let mut r: Vec<IrVal> = Vec::new();
    let mut i: usize = 0;
    while i < width
        invariant
            (ctx.tape(), r@) == s0.tape().loads(op, i as nat),
            ctx.num_loads() == s0.num_loads() + i,
            program::load_run(ctx.words@, s0.count() as int, op, i as int),
            i <= width,
            program::is_load(op),
            ctx.continues(s0),
            ctx.count() == s0.count() + i,
            r@.len() == i,
            row == (|env: Window| loaded_row(op, env)),
            ctx.addressable() ==> compiler::loads(*ctx, r@, 0, i as int, row),
        decreases width - i,
    {
        let ghost s1 = *ctx;
        let ghost r0 = r@;
        let x = load(ctx, op, i);
        r.push(x);
        proof {
            lemma_load_next(*ctx, s1, s0.count() as int, op, i as int);
            ir::lemma_continues_trans(*ctx, s1, s0);
            if ctx.addressable() {
                compiler::lemma_loads(*ctx, s1, r0, 0, i as int, row);
                assert forall|k: int| 0 <= k < i + 1 implies ctx.holds((#[trigger] r@[0 + k]).0) by {
                    if k < i {
                        assert(r@[0 + k] == r0[0 + k]);
                    }
                }
                assert forall|env: Window, k: int| 0 <= k < i + 1 implies #[trigger] ctx.value(
                    env,
                    r@[0 + k].0,
                ) == row(env)[k] by {
                    if k < i {
                        assert(r@[0 + k] == r0[0 + k]);
                    }
                }
            }
        }
        i = i + 1;
    }
    r
}

/// Records the loads of a row of extension elements, four columns each.
fn load_ext_row(ctx: &mut IrContext, op: u32, width: usize) -> (r: Vec<IrExtVal>)
    requires
        old(ctx).well_formed(),
        program::is_load(op),
        4 * width <= usize::MAX,
    ensures
        ({
            let (t, regs) = old(ctx).tape().loads(op, 4 * width as nat);
            final(ctx).tape() == t && r@ == ir::in_fours(regs, width as nat) && regs.len() == 4
                * width
        }),
        final(ctx).num_loads() == old(ctx).num_loads() + 4 * width,
        program::load_run(final(ctx).words@, old(ctx).count() as int, op, 4 * width as int),
        final(ctx).continues(*old(ctx)),
        final(ctx).count() == old(ctx).count() + 4 * width,
        r@.len() == width,
        final(ctx).addressable() ==> compiler::loads_ext(
            *final(ctx),
            r@,
            0,
            width as int,
            |env: Window| loaded_row(op, env),
        ),
{
    let ghost s0 = *ctx;
    let ghost row = |env: Window| loaded_row(op, env);
    let mut r: Vec<IrExtVal> = Vec::new();
    let mut i: usize = 0;
    let ghost mut regs: Seq<IrVal> = Seq::empty();
    assert(r@ =~= ir::in_fours(regs, 0));
    while i < width
        invariant
            ctx.tape() == s0.tape().loads(op, 4 * i as nat).0,
            regs == s0.tape().loads(op, 4 * i as nat).1,
            regs.len() == 4 * i,
            r@ == ir::in_fours(regs, i as nat),
            ctx.num_loads() == s0.num_loads() + 4 * i,
            program::load_run(ctx.words@, s0.count() as int, op, 4 * i as int),
            i <= width,
            4 * width <= usize::MAX,
            program::is_load(op),
            ctx.continues(s0),
            ctx.count() == s0.count() + 4 * i,
            r@.len() == i,
            row == (|env: Window| loaded_row(op, env)),
            ctx.addressable() ==> compiler::loads_ext(*ctx, r@, 0, i as int, row),
        decreases width - i,
    {
        let ghost s1 = *ctx;
        let ghost r0 = r@;
        let c0 = load(ctx, op, 4 * i);
        let ghost s2 = *ctx;
        let c1 = load(ctx, op, 4 * i + 1);
        let ghost s3 = *ctx;
        let c2 = load(ctx, op, 4 * i + 2);
        let ghost s4 = *ctx;
        let c3 = load(ctx, op, 4 * i + 3);
        let x = IrExtVal { c0, c1, c2, c3 };
        r.push(x);
        proof {
            lemma_load_next(s2, s1, s0.count() as int, op, 4 * i);
            lemma_load_next(s3, s2, s0.count() as int, op, 4 * i + 1);
            lemma_load_next(s4, s3, s0.count() as int, op, 4 * i + 2);
            lemma_load_next(*ctx, s4, s0.count() as int, op, 4 * i + 3);
            let before = regs;
            regs = before.push(c0).push(c1).push(c2).push(c3);
            assert((s2.tape(), before.push(c0)) == s0.tape().loads(op, (4 * i + 1) as nat));
            assert((s3.tape(), before.push(c0).push(c1)) == s0.tape().loads(
                op,
                (4 * i + 2) as nat,
            ));
            assert((s4.tape(), before.push(c0).push(c1).push(c2)) == s0.tape().loads(
                op,
                (4 * i + 3) as nat,
            ));
            assert((ctx.tape(), regs) == s0.tape().loads(op, (4 * i + 4) as nat));
            assert(r@ =~= ir::in_fours(regs, (i + 1) as nat));
            ir::lemma_continues_trans(*ctx, s4, s3);
            ir::lemma_continues_trans(*ctx, s3, s2);
            ir::lemma_continues_trans(*ctx, s2, s1);
            ir::lemma_continues_trans(*ctx, s1, s0);
            if ctx.addressable() {
                compiler::lemma_loads_ext(*ctx, s1, r0, 0, i as int, row);
                assert forall|k: int| 0 <= k < i + 1 implies (#[trigger] r@[0 + k]).held_by(
                    *ctx,
                ) by {
                    if k < i {
                        assert(r@[0 + k] == r0[0 + k]);
                    }
                }
                assert forall|env: Window, k: int| 0 <= k < i + 1 implies #[trigger] r@[0
                    + k].value(*ctx, env) == builder::ext_at(row(env), k) by {
                    if k < i {
                        assert(r@[0 + k] == r0[0 + k]);
                    } else {
                        assert(ctx.value(env, c0.0) == s2.value(env, c0.0));
                        assert(ctx.value(env, c1.0) == s3.value(env, c1.0));
                        assert(ctx.value(env, c2.0) == s4.value(env, c2.0));
                    }
                }
            }
        }
        i = i + 1;
    }
    r
}

proof fn lemma_two_rows(
    ctx: IrContext,
    a: Seq<IrVal>,
    b: Seq<IrVal>,
    f: spec_fn(Window) -> Seq<Felt>,
    g: spec_fn(Window) -> Seq<Felt>,
)
    requires
        b.len() == a.len(),
        compiler::loads(ctx, a, 0, a.len() as int, f),
        compiler::loads(ctx, b, 0, b.len() as int, g),
    ensures
        compiler::loads(ctx, a + b, 0, a.len() as int, f),
        compiler::loads(ctx, a + b, a.len() as int, a.len() as int, g),
{
    let n = a.len() as int;
    assert forall|i: int| 0 <= i < n implies ctx.holds((#[trigger] (a + b)[0 + i]).0) by {
        assert((a + b)[0 + i] == a[0 + i]);
    }
    assert forall|env: Window, i: int| 0 <= i < n implies #[trigger] ctx.value(
        env,
        (a + b)[0 + i].0,
    ) == f(env)[i] by {
        assert((a + b)[0 + i] == a[0 + i]);
    }
    assert forall|i: int| 0 <= i < n implies ctx.holds((#[trigger] (a + b)[n + i]).0) by {
        assert((a + b)[n + i] == b[0 + i]);
    }
    assert forall|env: Window, i: int| 0 <= i < n implies #[trigger] ctx.value(
        env,
        (a + b)[n + i].0,
    ) == g(env)[i] by {
        assert((a + b)[n + i] == b[0 + i]);
    }
}

proof fn lemma_two_ext_rows(
    ctx: IrContext,
    a: Seq<IrExtVal>,
    b: Seq<IrExtVal>,
    f: spec_fn(Window) -> Seq<Felt>,
    g: spec_fn(Window) -> Seq<Felt>,
)
    requires
        b.len() == a.len(),
        compiler::loads_ext(ctx, a, 0, a.len() as int, f),
        compiler::loads_ext(ctx, b, 0, b.len() as int, g),
    ensures
        compiler::loads_ext(ctx, a + b, 0, a.len() as int, f),
        compiler::loads_ext(ctx, a + b, a.len() as int, a.len() as int, g),
{
    let n = a.len() as int;
    assert forall|i: int| 0 <= i < n implies (#[trigger] (a + b)[0 + i]).held_by(ctx) by {
        assert((a + b)[0 + i] == a[0 + i]);
    }
    assert forall|env: Window, i: int| 0 <= i < n implies #[trigger] (a + b)[0 + i].value(ctx, env)
        == builder::ext_at(f(env), i) by {
        assert((a + b)[0 + i] == a[0 + i]);
    }
    assert forall|i: int| 0 <= i < n implies (#[trigger] (a + b)[n + i]).held_by(ctx) by {
        assert((a + b)[n + i] == b[0 + i]);
    }
    assert forall|env: Window, i: int| 0 <= i < n implies #[trigger] (a + b)[n + i].value(ctx, env)
        == builder::ext_at(g(env), i) by {
        assert((a + b)[n + i] == b[0 + i]);
    }
}

/// The local and the next row of a trace.
fn load_rows(ctx: &mut IrContext, local: u32, next: u32, width: usize) -> (r: Matrix<IrVal>)
    requires
        old(ctx).well_formed(),
        program::is_load(local),
        program::is_load(next),
    ensures
        (final(ctx).tape(), r.values@) == old(ctx).tape().rows(local, next, width as nat),
        final(ctx).num_loads() == old(ctx).num_loads() + 2 * (width),
        program::load_run(final(ctx).words@, old(ctx).count() as int, local, width as int),
        program::load_run(final(ctx).words@, old(ctx).count() + width, next, width as int),
        final(ctx).continues(*old(ctx)),
        final(ctx).count() == old(ctx).count() + 2 * width,
        r.width == width,
        r.values@.len() == 2 * width,
        final(ctx).addressable() ==> {
            &&& compiler::loads(
                *final(ctx),
                r.values@,
                0,
                width as int,
                |env: Window| loaded_row(local, env),
            )
            &&& compiler::loads(
                *final(ctx),
                r.values@,
                width as int,
                width as int,
                |env: Window| loaded_row(next, env),
            )
        },
{
    let ghost s0 = *ctx;
    let mut a = load_row(ctx, local, width);
    let ghost s1 = *ctx;
    let mut b = load_row(ctx, next, width);
    proof {
        lemma_run_kept(*ctx, s1, s0.count() as int, local, width as int);
        ir::lemma_continues_trans(*ctx, s1, s0);
        if ctx.addressable() {
            let f = |env: Window| loaded_row(local, env);
            let g = |env: Window| loaded_row(next, env);
            compiler::lemma_loads(*ctx, s1, a@, 0, width as int, f);
            lemma_two_rows(*ctx, a@, b@, f, g);
        }
    }
    a.append(&mut b);
    Matrix { values: a, width }
}

fn load_ext_rows(ctx: &mut IrContext, local: u32, next: u32, width: usize) -> (r: Matrix<IrExtVal>)
    requires
        old(ctx).well_formed(),
        program::is_load(local),
        program::is_load(next),
        4 * width <= usize::MAX,
    ensures
        ({
            let (t, regs) = old(ctx).tape().rows(local, next, 4 * width as nat);
            final(ctx).tape() == t && r.values@ == ir::in_fours(regs, 2 * width as nat)
        }),
        final(ctx).num_loads() == old(ctx).num_loads() + 2 * (4 * width),
        program::load_run(final(ctx).words@, old(ctx).count() as int, local, 4 * width as int),
        program::load_run(final(ctx).words@, old(ctx).count() + 4 * width, next, 4 * width as int),
        final(ctx).continues(*old(ctx)),
        final(ctx).count() == old(ctx).count() + 8 * width,
        r.width == width,
        r.values@.len() == 2 * width,
        final(ctx).addressable() ==> {
            &&& compiler::loads_ext(
                *final(ctx),
                r.values@,
                0,
                width as int,
                |env: Window| loaded_row(local, env),
            )
            &&& compiler::loads_ext(
                *final(ctx),
                r.values@,
                width as int,
                width as int,
                |env: Window| loaded_row(next, env),
            )
        },
{
    let ghost s0 = *ctx;
    let mut a = load_ext_row(ctx, local, width);
    let ghost s1 = *ctx;
    let mut b = load_ext_row(ctx, next, width);
    proof {
        lemma_run_kept(*ctx, s1, s0.count() as int, local, 4 * width as int);
        ir::lemma_continues_trans(*ctx, s1, s0);
        if ctx.addressable() {
            let f = |env: Window| loaded_row(local, env);
            let g = |env: Window| loaded_row(next, env);
            compiler::lemma_loads_ext(*ctx, s1, a@, 0, width as int, f);
            lemma_two_ext_rows(*ctx, a@, b@, f, g);
        }
    }
    proof {
        let (t, x) = s0.tape().loads(local, 4 * width as nat);
        let (t1, y) = t.loads(next, 4 * width as nat);
        assert(a@ + b@ =~= ir::in_fours(x + y, 2 * width as nat)) by {
            assert forall|i: int| 0 <= i < 2 * width implies #[trigger] (a@ + b@)[i]
                == ir::in_fours(x + y, 2 * width as nat)[i] by {
                if i >= width {
                    assert((x + y)[4 * i] == y[4 * (i - width)]);
                    assert((x + y)[4 * i + 1] == y[4 * (i - width) + 1]);
                    assert((x + y)[4 * i + 2] == y[4 * (i - width) + 2]);
                    assert((x + y)[4 * i + 3] == y[4 * (i - width) + 3]);
                }
            }
        }
    }
    a.append(&mut b);
    Matrix { values: a, width }
}

/// The challenges in reduced form.
pub open spec fn reduced_all(xs: Seq<Ext>) -> Seq<Ext> {
    Seq::new(xs.len(), |i: int| ring::reduced(xs[i]))
}

/// All constraints of a chip on a row: its own, and those of the permutation argument.
pub open spec fn chip_constraints<A: Air>(
    chip: Chip<A>,
    scope: InteractionScope,
    challenges: Seq<Ext>,
    local_sum: Ext,
    digest: SepticDigest,
    main_width: nat,
    public_values: Seq<Felt>,
    env: Window,
) -> Seq<Ext> {
    chip.air.constraints(env, public_values) + constraints::permutation_constraints(
        chip.sends(),
        chip.receives(),
        chip.logup_batch_size as nat,
        scope,
        challenges,
        local_sum,
        digest,
        main_width,
        env,
    )
}

/// The constraints of a chip on a row, folded with `alpha`.
pub open spec fn folded_constraints<A: Air>(
    chip: Chip<A>,
    scope: InteractionScope,
    challenges: Seq<Ext>,
    local_sum: Ext,
    digest: SepticDigest,
    alpha: Ext,
    main_width: nat,
    public_values: Seq<Felt>,
    env: Window,
) -> Ext {
    let all = chip_constraints(
        chip,
        scope,
        challenges,
        local_sum,
        digest,
        main_width,
        public_values,
        env,
    );
    builder::fold_all(Ext::zero_spec(), alpha, all, all.len())
}

/// The most instructions that the constraints of a chip take.
pub open spec fn chip_size<A: Air>(chip: Chip<A>) -> nat {
    chip.air.size() + constraints::permutation_size(
        chip.sends(),
        chip.receives(),
        chip.logup_batch_size as nat,
    )
}

/// The most instructions that the program of a chip takes: the loads of the rows, the constants,
/// and the constraints.
pub open spec fn program_size<A: Air>(
    chip: Chip<A>,
    prep_width: nat,
    main_width: nat,
    challenges: nat,
) -> nat {
    2 * prep_width + 2 * main_width + 8 * chip.perm_width() + 4 * challenges + 16 + chip_size(chip)
}

/// Asserts all constraints of a chip.
pub fn eval_chip<A: Air, B: ConstraintBuilder>(
    chip: &Chip<A>,
    commit_scope: InteractionScope,
    public_values: &Vec<Felt>,
    b: &mut B,
)
    requires
        old(b).inv(),
        chip.air.fits(
            old(b).prep_width_spec(),
            old(b).main_width_spec(),
            public_values@.len(),
        ),
        constraints::evaluable(
            *old(b),
            chip.sends(),
            chip.receives(),
            chip.logup_batch_size as nat,
            commit_scope,
        ),
    ensures
        B::is_recording() ==> final(b).recording() == chip.air.record(
            old(b).recording(),
            public_values@,
        ).assert_permutation(
            chip.sends(),
            chip.receives(),
            chip.logup_batch_size as nat,
            commit_scope,
            old(b).main_width_spec(),
            old(b).global_sum(),
        ),
        builder::within(*final(b), *old(b), chip_size(*chip)),
        builder::asserted(
            *final(b),
            *old(b),
            |env: Window|
                chip_constraints(
                    *chip,
                    commit_scope,
                    old(b).challenges(),
                    old(b).local_sum(),
                    old(b).global_sum(),
                    old(b).main_width_spec(),
                    public_values@,
                    env,
                ),
        ),
{
    let ghost b0 = *b;
    chip.air.eval(b, public_values);
    let ghost b1 = *b;
    let sends: Vec<&Interaction> = chip.sends_refs();
    let receives: Vec<&Interaction> = chip.receives_refs();
    constraints::eval_permutation_constraints_prescoped(
        &sends,
        &receives,
        chip.logup_batch_size,
        commit_scope,
        b,
    );
    proof {
        let f = |env: Window| chip.air.constraints(env, public_values@);
        let g = |env: Window|
            constraints::permutation_constraints(
                chip.sends(),
                chip.receives(),
                chip.logup_batch_size as nat,
                commit_scope,
                b0.challenges(),
                b0.local_sum(),
                b0.global_sum(),
                b0.main_width_spec(),
                env,
            );
        let h = |env: Window|
            chip_constraints(
                *chip,
                commit_scope,
                b0.challenges(),
                b0.local_sum(),
                b0.global_sum(),
                b0.main_width_spec(),
                public_values@,
                env,
            );
        builder::lemma_asserted_concat(*b, b1, b0, f, g, h);
    }
}

impl CompilerData {
    /// A recording of constraints, of which there are none yet.
    pub fn compiler(self, ctx: IrContext) -> (r: ConstraintCompiler)
        requires
            self.well_formed(),
            ctx.well_formed(),
            ctx.addressable() ==> self.recorded(ctx),
            self.loaded_first(ctx),
        ensures
            (r.ctx.tape(), r.accumulator) == ctx.tape().from_felt(Felt { value: 0 }),
            r.inv(),
            r.data == self,
            r.ctx.continues(ctx),
            r.ctx.count() == ctx.count() + 5,
            r.ok() ==> forall|env: Window| #[trigger] r.acc(env) == Ext::zero_spec(),
    {
        let mut ctx1 = ctx;
        let accumulator = IrExtVal::zero(&mut ctx1);
        proof {
            program::lemma_loads_first(
                ctx.words@,
                ctx1.words@,
                self.preprocessed.width as int,
                self.main.width as int,
                4 * self.perm.width as int,
            );
            if ctx1.addressable() {
                compiler::lemma_recorded(self, ctx1, ctx);
            }
        }
        ConstraintCompiler { data: self, ctx: ctx1, accumulator }
    }
}

/// Constants, one after the other.
fn load_constants(ctx: &mut IrContext, xs: &Vec<Ext>) -> (r: Vec<IrExtVal>)
    requires
        old(ctx).well_formed(),
    ensures
        (final(ctx).tape(), r@) == old(ctx).tape().all_constants(xs@, xs@.len()),
        final(ctx).num_loads() == old(ctx).num_loads(),
        final(ctx).continues(*old(ctx)),
        final(ctx).count() == old(ctx).count() + 4 * xs@.len(),
        r@.len() == xs@.len(),
        final(ctx).addressable() ==> forall|i: int|
            0 <= i < r@.len() ==> compiler::is_constant(
                *final(ctx),
                #[trigger] r@[i],
                reduced_all(xs@)[i],
            ),
{
    let ghost s0 = *ctx;
    let mut r: Vec<IrExtVal> = Vec::new();
    let mut i: usize = 0;
    while i < xs.len()
        invariant
            (ctx.tape(), r@) == s0.tape().all_constants(xs@, i as nat),
            ctx.num_loads() == s0.num_loads(),
            i <= xs@.len(),
            ctx.continues(s0),
            ctx.count() == s0.count() + 4 * i,
            r@.len() == i,
            ctx.addressable() ==> forall|k: int|
                0 <= k < i ==> compiler::is_constant(*ctx, #[trigger] r@[k], reduced_all(xs@)[k]),
        decreases xs@.len() - i,
    {
        let ghost s1 = *ctx;
        let ghost r0 = r@;
        let x = IrExtVal::from_f(ctx, xs[i]);
        r.push(x);
        i = i + 1;
        proof {
            ir::lemma_continues_trans(*ctx, s1, s0);
            if ctx.addressable() {
                assert forall|k: int| 0 <= k < i implies compiler::is_constant(
                    *ctx,
                    #[trigger] r@[k],
                    reduced_all(xs@)[k],
                ) by {
                    if k < i - 1 {
                        assert(r@[k] == r0[k]);
                        compiler::lemma_is_constant(*ctx, s1, r0[k], reduced_all(xs@)[k]);
                    }
                }
            }
        }
    }
    r
}

/// The larger of a width and one.
pub open spec fn at_least_one(width: usize) -> usize {
    if width == 0 {
        1
    } else {
        width
    }
}

/// What compiling a chip asks of it.
pub open spec fn compilable<A: Air>(
    chip: Chip<A>,
    prep_width: nat,
    main_width: nat,
    scope: InteractionScope,
    challenges: nat,
    public_values: nat,
) -> bool {
    &&& chip.air.fits(prep_width, main_width, public_values)
    &&& constraints::interactions_in_range(
        chip.sends(),
        chip.receives(),
        chip.logup_batch_size as nat,
        prep_width,
        main_width,
    )
    &&& permutation::values_fit(chip.sends(), chip.receives())
    &&& chip.local_sends@.len() + chip.local_receives@.len() > 0
    &&& 4 * chip.perm_width() <= usize::MAX
    &&& challenges >= 2
    &&& scope == InteractionScope::Global ==> main_width >= 14
}

/// What is recorded for a chip.
pub open spec fn recording<A: Air>(
    chip: Chip<A>,
    prep_width: usize,
    main_width: usize,
    scope: InteractionScope,
    local_sum: Ext,
    digest: SepticDigest,
    challenges: Seq<Ext>,
    alpha: Ext,
    public_values: Seq<Felt>,
) -> Recording {
    chip.air.record(
        recording::start(
            prep_width,
            main_width,
            chip.perm_width() as usize,
            challenges,
            local_sum,
            alpha,
        ),
        public_values,
    ).assert_permutation(
        chip.sends(),
        chip.receives(),
        chip.logup_batch_size as nat,
        scope,
        main_width as nat,
        digest,
    )
}

/// The registers that rows were loaded into hold the rows, whatever is recorded after the loads.
proof fn lemma_rows_recorded(
    data: CompilerData,
    ctx: IrContext,
    s1: IrContext,
    s2: IrContext,
    s3: IrContext,
)
    requires
        ctx.addressable(),
        ctx.continues(s1),
        ctx.continues(s2),
        ctx.continues(s3),
        data.well_formed(),
        compiler::loads(
            s1,
            data.preprocessed.values@,
            0,
            data.preprocessed.width as int,
            |env: Window| loaded_row(OP_LOAD_PREP_LOCAL, env),
        ),
        compiler::loads(
            s1,
            data.preprocessed.values@,
            data.preprocessed.width as int,
            data.preprocessed.width as int,
            |env: Window| loaded_row(OP_LOAD_PREP_NEXT, env),
        ),
        compiler::loads(
            s2,
            data.main.values@,
            0,
            data.main.width as int,
            |env: Window| loaded_row(OP_LOAD_MAIN_LOCAL, env),
        ),
        compiler::loads(
            s2,
            data.main.values@,
            data.main.width as int,
            data.main.width as int,
            |env: Window| loaded_row(OP_LOAD_MAIN_NEXT, env),
        ),
        compiler::loads_ext(
            s3,
            data.perm.values@,
            0,
            data.perm.width as int,
            |env: Window| loaded_row(OP_LOAD_PERM_LOCAL, env),
        ),
        compiler::loads_ext(
            s3,
            data.perm.values@,
            data.perm.width as int,
            data.perm.width as int,
            |env: Window| loaded_row(OP_LOAD_PERM_NEXT, env),
        ),
    ensures
        ({
            let (p, m, q) = (
                data.preprocessed.width as int,
                data.main.width as int,
                data.perm.width as int,
            );
            &&& compiler::loads(ctx, data.preprocessed.values@, 0, p, |env: Window| env.prep_local)
            &&& compiler::loads(ctx, data.preprocessed.values@, p, p, |env: Window| env.prep_next)
            &&& compiler::loads(ctx, data.main.values@, 0, m, |env: Window| env.main_local)
            &&& compiler::loads(ctx, data.main.values@, m, m, |env: Window| env.main_next)
            &&& compiler::loads_ext(ctx, data.perm.values@, 0, q, |env: Window| env.perm_local)
            &&& compiler::loads_ext(ctx, data.perm.values@, q, q, |env: Window| env.perm_next)
        }),
{
    let (p, m, q) = (
        data.preprocessed.width as int,
        data.main.width as int,
        data.perm.width as int,
    );
    let pv = data.preprocessed.values@;
    let mv = data.main.values@;
    let qv = data.perm.values@;
    compiler::lemma_loads(
        ctx,
        s1,
        pv,
        0,
        p,
        |env: Window| loaded_row(OP_LOAD_PREP_LOCAL, env),
    );
    compiler::lemma_loads(
        ctx,
        s1,
        pv,
        p,
        p,
        |env: Window| loaded_row(OP_LOAD_PREP_NEXT, env),
    );
    compiler::lemma_loads(
        ctx,
        s2,
        mv,
        0,
        m,
        |env: Window| loaded_row(OP_LOAD_MAIN_LOCAL, env),
    );
    compiler::lemma_loads(
        ctx,
        s2,
        mv,
        m,
        m,
        |env: Window| loaded_row(OP_LOAD_MAIN_NEXT, env),
    );
    compiler::lemma_loads_ext(
        ctx,
        s3,
        qv,
        0,
        q,
        |env: Window| loaded_row(OP_LOAD_PERM_LOCAL, env),
    );
    compiler::lemma_loads_ext(
        ctx,
        s3,
        qv,
        q,
        q,
        |env: Window| loaded_row(OP_LOAD_PERM_NEXT, env),
    );
    assert(compiler::loads(ctx, pv, 0, p, |env: Window| env.prep_local));
    assert(compiler::loads(ctx, pv, p, p, |env: Window| env.prep_next));
    assert(compiler::loads(ctx, mv, 0, m, |env: Window| env.main_local));
    assert(compiler::loads(ctx, mv, m, m, |env: Window| env.main_next));
    assert(compiler::loads_ext(ctx, qv, 0, q, |env: Window| env.perm_local));
    assert(compiler::loads_ext(ctx, qv, q, q, |env: Window| env.perm_next));
}

/// The registers that selectors and constants were recorded into hold them, whatever is recorded
/// after that.
proof fn lemma_constants_recorded(
    data: CompilerData,
    ctx: IrContext,
    s4: IrContext,
    s5: IrContext,
    s6: IrContext,
)
    requires
        ctx.addressable(),
        ctx.continues(s4),
        ctx.continues(s5),
        ctx.continues(s6),
        compiler::selects(s4, data.is_first_row, 0),
        compiler::selects(s4, data.is_last_row, 1),
        compiler::selects(s4, data.is_transition, 2),
        compiler::is_constant(s5, data.alpha_ir, data.setting@.alpha),
        forall|i: int|
            0 <= i < data.perm_challenges@.len() ==> compiler::is_constant(
                s6,
                #[trigger] data.perm_challenges@[i],
                data.setting@.challenges[i],
            ),
    ensures
        compiler::selects(ctx, data.is_first_row, 0),
        compiler::selects(ctx, data.is_last_row, 1),
        compiler::selects(ctx, data.is_transition, 2),
        compiler::is_constant(ctx, data.alpha_ir, data.setting@.alpha),
        forall|i: int|
            0 <= i < data.perm_challenges@.len() ==> compiler::is_constant(
                ctx,
                #[trigger] data.perm_challenges@[i],
                data.setting@.challenges[i],
            ),
{
    compiler::lemma_selects(ctx, s4, data.is_first_row, 0);
    compiler::lemma_selects(ctx, s4, data.is_last_row, 1);
    compiler::lemma_selects(ctx, s4, data.is_transition, 2);
    compiler::lemma_is_constant(ctx, s5, data.alpha_ir, data.setting@.alpha);
    assert forall|i: int| 0 <= i < data.perm_challenges@.len() implies compiler::is_constant(
        ctx,
        #[trigger] data.perm_challenges@[i],
        data.setting@.challenges[i],
    ) by {
        compiler::lemma_is_constant(
            ctx,
            s6,
            data.perm_challenges@[i],
            data.setting@.challenges[i],
        );
    }
}

/// The loads of rows and selectors stay first, whatever is recorded after them.
proof fn lemma_loaded_first(
    ctx: IrContext,
    s1: IrContext,
    s2: IrContext,
    s3: IrContext,
    s4: IrContext,
    p: int,
    m: int,
    e: int,
)
    requires
        0 <= p,
        0 <= m,
        0 <= e,
        ctx.continues(s1),
        ctx.continues(s2),
        ctx.continues(s3),
        ctx.continues(s4),
        4 * (2 * p) <= s1.words@.len(),
        4 * (2 * p + 2 * m) <= s2.words@.len(),
        4 * (2 * p + 2 * m + 2 * e) <= s3.words@.len(),
        4 * (2 * p + 2 * m + 2 * e + 3) <= s4.words@.len(),
        program::load_run(s1.words@, 0, OP_LOAD_PREP_LOCAL, p),
        program::load_run(s1.words@, p, OP_LOAD_PREP_NEXT, p),
        program::load_run(s2.words@, 2 * p, OP_LOAD_MAIN_LOCAL, m),
        program::load_run(s2.words@, 2 * p + m, OP_LOAD_MAIN_NEXT, m),
        program::load_run(s3.words@, 2 * p + 2 * m, OP_LOAD_PERM_LOCAL, e),
        program::load_run(s3.words@, 2 * p + 2 * m + e, OP_LOAD_PERM_NEXT, e),
        program::load_run(s4.words@, 2 * p + 2 * m + 2 * e, OP_LOAD_SELECTOR, 3),
    ensures
        program::loads_first(ctx.words@, p, m, e),
{
    lemma_run_kept(ctx, s1, 0, OP_LOAD_PREP_LOCAL, p);
    lemma_run_kept(ctx, s1, p, OP_LOAD_PREP_NEXT, p);
    lemma_run_kept(ctx, s2, 2 * p, OP_LOAD_MAIN_LOCAL, m);
    lemma_run_kept(ctx, s2, 2 * p + m, OP_LOAD_MAIN_NEXT, m);
    lemma_run_kept(ctx, s3, 2 * p + 2 * m, OP_LOAD_PERM_LOCAL, e);
    lemma_run_kept(ctx, s3, 2 * p + 2 * m + e, OP_LOAD_PERM_NEXT, e);
    lemma_run_kept(ctx, s4, 2 * p + 2 * m + 2 * e, OP_LOAD_SELECTOR, 3);
}

/// Records the loads of the three selectors.
fn load_selectors(ctx: &mut IrContext) -> (r: (IrVal, IrVal, IrVal))
    requires
        old(ctx).well_formed(),
    ensures
        ({
            let (t1, first_row) = old(ctx).tape().record(OP_LOAD_SELECTOR, SEL_IS_FIRST_ROW, 0);
            let (t2, last_row) = t1.record(OP_LOAD_SELECTOR, SEL_IS_LAST_ROW, 0);
            let (t3, transition) = t2.record(OP_LOAD_SELECTOR, SEL_IS_TRANSITION, 0);
            final(ctx).tape() == t3 && r == (first_row, last_row, transition)
        }),
        final(ctx).num_loads() == old(ctx).num_loads() + 3,
        program::load_run(final(ctx).words@, old(ctx).count() as int, OP_LOAD_SELECTOR, 3),
        final(ctx).continues(*old(ctx)),
        final(ctx).count() == old(ctx).count() + 3,
        final(ctx).addressable() ==> {
            &&& compiler::selects(*final(ctx), r.0, 0)
            &&& compiler::selects(*final(ctx), r.1, 1)
            &&& compiler::selects(*final(ctx), r.2, 2)
        },
{
    let ghost s0 = *ctx;
    let is_first_row = load(ctx, OP_LOAD_SELECTOR, SEL_IS_FIRST_ROW as usize);
    let ghost s1 = *ctx;
    let is_last_row = load(ctx, OP_LOAD_SELECTOR, SEL_IS_LAST_ROW as usize);
    let ghost s2 = *ctx;
    let is_transition = load(ctx, OP_LOAD_SELECTOR, SEL_IS_TRANSITION as usize);
    proof {
        let start = s0.count() as int;
        lemma_load_next(s1, s0, start, OP_LOAD_SELECTOR, 0);
        lemma_load_next(s2, s1, start, OP_LOAD_SELECTOR, 1);
        lemma_load_next(*ctx, s2, start, OP_LOAD_SELECTOR, 2);
        ir::lemma_continues_trans(*ctx, s2, s1);
        ir::lemma_continues_trans(*ctx, s1, s0);
        if ctx.addressable() {
            compiler::lemma_selects(*ctx, s1, is_first_row, 0);
            compiler::lemma_selects(*ctx, s2, is_last_row, 1);
        }
    }
    (is_first_row, is_last_row, is_transition)
}

fn copy_felts(xs: &Vec<Felt>) -> (r: Vec<Felt>)
    ensures
        r@ == xs@,
{
    let mut r: Vec<Felt> = Vec::new();
    let mut i: usize = 0;
    while i < xs.len()
        invariant
            i <= xs@.len(),
            r@ == xs@.take(i as int),
        decreases xs@.len() - i,
    {
        r.push(xs[i]);
        i = i + 1;
        assert(r@ =~= xs@.take(i as int));
    }
    assert(xs@.take(i as int) =~= xs@);
    r
}

/// A recording that has loaded the rows and selectors and holds the constants, before any constraint
/// is recorded.
#[verifier::rlimit(20)]
fn start_recording(
    prep_width: usize,
    main_width: usize,
    perm_width: usize,
    local_cumulative_sum: Ext,
    global_cumulative_sum: SepticDigest,
    perm_challenges: &Vec<Ext>,
    alpha: Ext,
    public_values: &Vec<Felt>,
) -> (r: ConstraintCompiler)
    requires
        prep_width > 0,
        main_width > 0,
        4 * perm_width <= usize::MAX,
    ensures
        r.inv(),
        r.recording() == recording::start(
            prep_width,
            main_width,
            perm_width,
            perm_challenges@,
            local_cumulative_sum,
            alpha,
        ),
        r.size() == 2 * prep_width + 2 * main_width + 8 * perm_width + 4 * perm_challenges@.len()
            + 16,
        r.prep_width_spec() == prep_width,
        r.main_width_spec() == main_width,
        r.perm_width_spec() == perm_width,
        r.challenges() == reduced_all(perm_challenges@),
        r.local_sum() == ring::reduced(local_cumulative_sum),
        r.global_sum() == global_cumulative_sum,
        r.alpha() == ring::reduced(alpha),
        r.ok() ==> forall|env: Window| #[trigger] r.acc(env) == Ext::zero_spec(),
{
    let mut ctx = IrContext::new();
    let ghost s0 = ctx;
    let preprocessed = load_rows(&mut ctx, OP_LOAD_PREP_LOCAL, OP_LOAD_PREP_NEXT, prep_width);
    let ghost s1 = ctx;
    let main = load_rows(&mut ctx, OP_LOAD_MAIN_LOCAL, OP_LOAD_MAIN_NEXT, main_width);
    let ghost s2 = ctx;
    let perm = load_ext_rows(&mut ctx, OP_LOAD_PERM_LOCAL, OP_LOAD_PERM_NEXT, perm_width);
    let ghost s3 = ctx;
    let (is_first_row, is_last_row, is_transition) = load_selectors(&mut ctx);
    let ghost s4 = ctx;
    let alpha_ir = IrExtVal::from_f(&mut ctx, alpha);
    let ghost s5 = ctx;
    let perm_challenges_ir = load_constants(&mut ctx, perm_challenges);
    let ghost s6 = ctx;
    let local_sum_ir = IrExtVal::from_f(&mut ctx, local_cumulative_sum);
    let ghost setting = Setting {
        alpha: ring::reduced(alpha),
        challenges: reduced_all(perm_challenges@),
        local_sum: ring::reduced(local_cumulative_sum),
    };
    let data = CompilerData {
        preprocessed,
        main,
        perm,
        is_first_row,
        is_last_row,
        is_transition,
        perm_challenges: perm_challenges_ir,
        local_cumulative_sum: local_sum_ir,
        global_cumulative_sum,
        alpha_ir,
        public_values: copy_felts(public_values),
        setting: Ghost(setting),
    };
    proof {
        let (p, m, e) = (prep_width as int, main_width as int, 4 * perm_width as int);
        ir::lemma_continues_trans(ctx, s6, s5);
        ir::lemma_continues_trans(ctx, s5, s4);
        ir::lemma_continues_trans(ctx, s4, s3);
        ir::lemma_continues_trans(ctx, s3, s2);
        ir::lemma_continues_trans(ctx, s2, s1);
        lemma_loaded_first(ctx, s1, s2, s3, s4, p, m, e);
        assert(s0.tape() =~= ir::Tape { words: Seq::empty(), next: 0 });
        if ctx.addressable() {
            lemma_rows_recorded(data, ctx, s1, s2, s3);
            lemma_constants_recorded(data, ctx, s4, s5, s6);
            assert(compiler::is_constant(ctx, local_sum_ir, setting.local_sum));
        }
    }
    data.compiler(ctx)
}

/// Records the constraints of a chip.
pub fn record_constraints<A: Air>(
    chip: &Chip<A>,
    prep_width: usize,
    main_width: usize,
    commit_scope: InteractionScope,
    local_cumulative_sum: Ext,
    global_cumulative_sum: SepticDigest,
    perm_challenges: &Vec<Ext>,
    alpha: Ext,
    public_values: &Vec<Felt>,
) -> (r: ConstraintCompiler)
    requires
        prep_width > 0,
        main_width > 0,
        compilable(
            *chip,
            prep_width as nat,
            main_width as nat,
            commit_scope,
            perm_challenges@.len(),
            public_values@.len(),
        ),
    ensures
        r.inv(),
        r.recording() == recording(
            *chip,
            prep_width,
            main_width,
            commit_scope,
            local_cumulative_sum,
            global_cumulative_sum,
            perm_challenges@,
            alpha,
            public_values@,
        ),
        r.size() <= program_size(
            *chip,
            prep_width as nat,
            main_width as nat,
            perm_challenges@.len(),
        ),
        r.prep_width_spec() == prep_width,
        r.main_width_spec() == main_width,
        r.perm_width_spec() == chip.perm_width(),
        r.ok() ==> forall|env: Window| #[trigger]
            r.acc(env) == folded_constraints(
                *chip,
                commit_scope,
                reduced_all(perm_challenges@),
                ring::reduced(local_cumulative_sum),
                global_cumulative_sum,
                ring::reduced(alpha),
                main_width as nat,
                public_values@,
                env,
            ),
{
    let perm_width: usize = chip.permutation_width();
    let mut compiler = start_recording(
        prep_width,
        main_width,
        perm_width,
        local_cumulative_sum,
        global_cumulative_sum,
        perm_challenges,
        alpha,
        public_values,
    );
    let ghost c0 = compiler;
    eval_chip(chip, commit_scope, public_values, &mut compiler);
    proof {
        if compiler.ok() {
            assert forall|env: Window| #[trigger] compiler.acc(env) == folded_constraints(
                *chip,
                commit_scope,
                reduced_all(perm_challenges@),
                ring::reduced(local_cumulative_sum),
                global_cumulative_sum,
                ring::reduced(alpha),
                main_width as nat,
                public_values@,
                env,
            ) by {
                assert(c0.accepts(env));
                assert(c0.acc(env) == Ext::zero_spec());
            }
        }
    }
    compiler
}

impl ConstraintProgram {
    /// Whether this is a recording with its registers compacted.
    pub open spec fn compiles(&self, s: Recording) -> bool {
        &&& self.compacts_words(s.tape.words, s.tape.next as nat, s.accs())
        &&& self.main_width == s.registers.main_width
        &&& self.prep_width == s.registers.prep_width
        &&& self.perm_u32_width == 4 * s.registers.perm_width
    }

    /// Whether the instructions are whole, every register is written before it is read, and the
    /// loads of the rows and selectors come first and are the only ones.
    pub open spec fn orderly(&self) -> bool {
        let (p, m, e) = (
            self.prep_width as int,
            self.main_width as int,
            self.perm_u32_width as int,
        );
        &&& self.words@.len() % 4 == 0
        &&& program::written_first(
            self.words@,
            self.accumulator_regs@,
            self.instructions(),
        )
        &&& program::loads_first(self.words@, p, m, e)
        &&& program::no_loads_from(self.words@, program::load_count(p, m, e))
    }
}

impl ConstraintCompiler {
    /// The recorded program, unless it has more instructions than registers can be numbered.
    pub fn finish(self) -> (r: Option<ConstraintProgram>)
        requires
            self.inv(),
            4 * self.data.perm.width <= usize::MAX,
        ensures
            r is Some <==> self.ok(),
            r matches Some(p) ==> {
                &&& p.compiles(self.recording())
                &&& p.well_formed()
                &&& p.orderly()
                &&& p.instructions() == self.ctx.count()
                &&& p.num_regs <= p.instructions()
                &&& p.main_width == self.data.main.width
                &&& p.prep_width == self.data.preprocessed.width
                &&& p.perm_u32_width == 4 * self.data.perm.width
                &&& forall|env: Window| #[trigger]
                    p.result(env) == ir::coordinates(self.acc(env))
            },
    {
        let ghost ctx = self.ctx;
        let acc = self.accumulator;
        let n: usize = self.ctx.words.len() / 4;
        if n as u64 > u32::MAX as u64 {
            return None;
        }
        let mut program = ConstraintProgram {
            words: self.ctx.words,
            num_regs: self.ctx.next_reg,
            accumulator_regs: [acc.c0.0, acc.c1.0, acc.c2.0, acc.c3.0],
            main_width: self.data.main.width,
            prep_width: self.data.preprocessed.width,
            perm_u32_width: 4 * self.data.perm.width,
        };
        let ghost before = program;
        proof {
            let words = ctx.words@;
            let accs = program.accumulator_regs@;
            let count = ctx.count();
            assert(accs[0] == acc.c0.0 && accs[1] == acc.c1.0 && accs[2] == acc.c2.0 && accs[3]
                == acc.c3.0);
            vstd::arithmetic::div_mod::lemma_small_mod(count, 0x1_0000_0000);
            assert forall|i: int|
                0 <= i < count && (program::is_binary(program::op_at(words, i)) || program::op_at(
                    words,
                    i,
                ) == program::OP_NEG) implies (#[trigger] program::arg0_at(words, i)) < count by {
                assert(program::reads(words, i, program::arg0_at(words, i)));
            }
            assert forall|i: int|
                0 <= i < count && program::is_binary(program::op_at(words, i)) implies (
            #[trigger] program::arg1_at(words, i)) < count by {
                assert(program::reads(words, i, program::arg1_at(words, i)));
            }
            assert(before.well_formed());
            assert forall|i: int, j: int| 0 <= i < j < count implies (#[trigger] program::dst_at(
                words,
                i,
            )) != (#[trigger] program::dst_at(words, j)) by {}
            assert forall|i: int, r: u32|
                0 <= i < count && #[trigger] program::reads(words, i, r) implies program::defined(
                words,
                r,
                i,
            ) by {
                assert(program::dst_at(words, r as int) == r);
            }
            assert forall|k: int| 0 <= k < 4 implies program::defined(
                words,
                #[trigger] accs[k],
                count as int,
            ) by {
                assert(program::dst_at(words, accs[k] as int) == accs[k]);
            }
            assert(before.ssa());
        }
        program.compact_registers();
        proof {
            program::law_compaction_bounds_registers(before, program);
            program::law_compaction_keeps_order(before, program);
            assert(before.accumulator_regs@ =~= Recording::accs(self.recording()));
            program::lemma_loads_kept(
                before.words@,
                program.words@,
                before.prep_width as int,
                before.main_width as int,
                before.perm_u32_width as int,
            );
            program::lemma_no_other_loads(
                before.words@,
                before.prep_width as int,
                before.main_width as int,
                before.perm_u32_width as int,
            );
            assert forall|env: Window| #[trigger] program.result(env) == ir::coordinates(
                acc.value(ctx, env),
            ) by {
                program::law_compaction_preserves_result(before, program, env);
                assert(before.result(env) =~= ir::coordinates(acc.value(ctx, env)));
            }
            program::law_compaction_preserves_result(before, program, arbitrary());
        }
        Some(program)
    }
}

/// Compiles the constraints of a chip: on every row, the program leaves in its accumulator what
/// folding the constraints one after the other gives. A program of more than `u32::MAX`
/// instructions, whose registers could not be numbered, is not returned.
pub fn compile_constraints<A: Air>(
    chip: &Chip<A>,
    prep_width: usize,
    main_width: usize,
    commit_scope: InteractionScope,
    local_cumulative_sum: Ext,
    global_cumulative_sum: SepticDigest,
    perm_challenges: &Vec<Ext>,
    alpha: Ext,
    public_values: &Vec<Felt>,
) -> (r: Option<ConstraintProgram>)
    requires
        compilable(
            *chip,
            at_least_one(prep_width) as nat,
            at_least_one(main_width) as nat,
            commit_scope,
            perm_challenges@.len(),
            public_values@.len(),
        ),
    ensures
        r is Some <==> recording(
            *chip,
            at_least_one(prep_width),
            at_least_one(main_width),
            commit_scope,
            local_cumulative_sum,
            global_cumulative_sum,
            perm_challenges@,
            alpha,
            public_values@,
        ).count() <= u32::MAX,
        program_size(
            *chip,
            at_least_one(prep_width) as nat,
            at_least_one(main_width) as nat,
            perm_challenges@.len(),
        ) <= u32::MAX ==> r is Some,
        r matches Some(p) ==> {
            &&& p.compiles(
                recording(
                    *chip,
                    at_least_one(prep_width),
                    at_least_one(main_width),
                    commit_scope,
                    local_cumulative_sum,
                    global_cumulative_sum,
                    perm_challenges@,
                    alpha,
                    public_values@,
                ),
            )
            &&& p.orderly()
            &&& p.well_formed()
            &&& p.num_regs <= p.instructions() <= program_size(
                *chip,
                at_least_one(prep_width) as nat,
                at_least_one(main_width) as nat,
                perm_challenges@.len(),
            )
            &&& p.main_width == at_least_one(main_width)
            &&& p.prep_width == at_least_one(prep_width)
            &&& p.perm_u32_width == 4 * chip.perm_width()
            &&& forall|env: Window| #[trigger]
                p.result(env) == ir::coordinates(
                    folded_constraints(
                        *chip,
                        commit_scope,
                        reduced_all(perm_challenges@),
                        ring::reduced(local_cumulative_sum),
                        global_cumulative_sum,
                        ring::reduced(alpha),
                        at_least_one(main_width) as nat,
                        public_values@,
                        env,
                    ),
                )
        },
{
    let prep: usize = if prep_width == 0 {
        1
    } else {
        prep_width
    };
    let main: usize = if main_width == 0 {
        1
    } else {
        main_width
    };
    let compiler = record_constraints(
        chip,
        prep,
        main,
        commit_scope,
        local_cumulative_sum,
        global_cumulative_sum,
        perm_challenges,
        alpha,
        public_values,
    );
    compiler.finish()
}

/// Two programs compiled from the same recording are equal. What is recorded for a chip depends on
/// the chip and the values it is compiled for only, so that compiling a chip again for the same
/// values gives the same program, whatever has been recorded in between.
pub proof fn law_compilation_is_unique(p: ConstraintProgram, q: ConstraintProgram, s: Recording)
    requires
        p.compiles(s),
        q.compiles(s),
    ensures
        p.words@ == q.words@,
        p.num_regs == q.num_regs,
        p.accumulator_regs@ == q.accumulator_regs@,
        p.main_width == q.main_width,
        p.prep_width == q.prep_width,
        p.perm_u32_width == q.perm_u32_width,
{
    program::law_compaction_is_unique(p, q, s.tape.words, s.tape.next as nat, s.accs());
}

/// How a compiled program begins: with one load for each column of each row that it can read, in the
/// order of the columns; first of the preprocessed trace, then of the main trace, then of the permutation
/// trace, each time the row itself and then the next; and then of the three selectors. No load follows.
pub proof fn law_program_begins_with_loads(program: ConstraintProgram, c: int)
    requires
        program.orderly(),
        0 <= c,
    ensures
        ({
            let w = program.words@;
            let (p, m, e) = (
                program.prep_width as int,
                program.main_width as int,
                program.perm_u32_width as int,
            );
            &&& w.len() % 4 == 0
            &&& c < p ==> w[4 * c] == 3 && w[4 * c + 2] == c as u32
            &&& c < p ==> w[4 * (p + c)] == 4 && w[4 * (p + c) + 2] == c as u32
            &&& c < m ==> w[4 * (2 * p + c)] == 1 && w[4 * (2 * p + c) + 2] == c as u32
            &&& c < m ==> w[4 * (2 * p + m + c)] == 2 && w[4 * (2 * p + m + c) + 2] == c as u32
            &&& c < e ==> w[4 * (2 * p + 2 * m + c)] == 5 && w[4 * (2 * p + 2 * m + c) + 2]
                == c as u32
            &&& c < e ==> w[4 * (2 * p + 2 * m + e + c)] == 6 && w[4 * (2 * p + 2 * m + e + c) + 2]
                == c as u32
            &&& c < 3 ==> w[4 * (2 * p + 2 * m + 2 * e + c)] == 7 && w[4 * (2 * p + 2 * m + 2 * e
                + c) + 2] == c as u32
            &&& 2 * p + 2 * m + 2 * e + 3 <= c < w.len() / 4 ==> !(1 <= w[4 * c] <= 7)
        }),
{
    let w = program.words@;
    let (p, m, e) = (
        program.prep_width as int,
        program.main_width as int,
        program.perm_u32_width as int,
    );
    assert(c < p ==> program::op_at(w, 0 + c) == program::OP_LOAD_PREP_LOCAL);
    assert(c < p ==> program::op_at(w, p + c) == program::OP_LOAD_PREP_NEXT);
    assert(c < m ==> program::op_at(w, 2 * p + c) == program::OP_LOAD_MAIN_LOCAL);
    assert(c < m ==> program::op_at(w, 2 * p + m + c) == program::OP_LOAD_MAIN_NEXT);
    assert(c < e ==> program::op_at(w, 2 * p + 2 * m + c) == program::OP_LOAD_PERM_LOCAL);
    assert(c < e ==> program::op_at(w, 2 * p + 2 * m + e + c) == program::OP_LOAD_PERM_NEXT);
    assert(c < 3 ==> program::op_at(w, 2 * p + 2 * m + 2 * e + c) == program::OP_LOAD_SELECTOR);
    if 2 * p + 2 * m + 2 * e + 3 <= c < w.len() / 4 {
        assert(!program::is_load(program::op_at(w, c)));
    }
}

} // verus!
