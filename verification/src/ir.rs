//! Recording of arithmetic as instructions: a value is the register that will hold it.

use vstd::prelude::*;
use vstd::arithmetic::div_mod::*;
use vstd::arithmetic::mul::*;
use crate::babybear;
use crate::babybear::{Felt, P};
use crate::ext;
use crate::ext::Ext;
use crate::program;
use crate::program::{
    Window, OP_ADD, OP_CONST, OP_MUL, OP_NEG, OP_SUB,
};
use crate::ring;
use crate::ring::Ring;

verus! {

/// Recorded instructions, and the next register.
#[verifier::ext_equal]
pub struct Tape {
    pub words: Seq<u32>,
    pub next: u32,
}

impl Tape {
    /// With one more instruction, which writes the next register.
    pub open spec fn emit(self, op: u32, arg0: u32, arg1: u32) -> Tape {
        Tape {
            words: self.words + seq![op, self.next, arg0, arg1],
            next: if self.next == u32::MAX {
                0
            } else {
                (self.next + 1) as u32
            },
        }
    }

    /// An instruction and its register.
    pub open spec fn record(self, op: u32, arg0: u32, arg1: u32) -> (Tape, IrVal) {
        (self.emit(op, arg0, arg1), IrVal(self.next))
    }

    /// A constant.
    pub open spec fn constant(self, f: Felt) -> (Tape, IrVal) {
        self.record(OP_CONST, ((f.value * 0x1_0000_0000) % (P as int)) as u32, 0)
    }

    /// The loads of the first `n` columns.
    pub open spec fn loads(self, op: u32, n: nat) -> (Tape, Seq<IrVal>)
        decreases n,
    {
        if n == 0 {
            (self, Seq::empty())
        } else {
            let (t, r) = self.loads(op, (n - 1) as nat);
            let (t1, x) = t.record(op, (n - 1) as u32, 0);
            (t1, r.push(x))
        }
    }

    /// The local and the next row of a trace.
    pub open spec fn rows(self, local: u32, next: u32, width: nat) -> (Tape, Seq<IrVal>) {
        let (t0, a) = self.loads(local, width);
        let (t1, b) = t0.loads(next, width);
        (t1, a + b)
    }

    /// The first `n` constants.
    pub open spec fn all_constants(self, xs: Seq<Ext>, n: nat) -> (Tape, Seq<IrExtVal>)
        decreases n,
    {
        if n == 0 {
            (self, Seq::empty())
        } else {
            let (t, r) = self.all_constants(xs, (n - 1) as nat);
            let (t1, x) = t.constants(xs[n - 1]);
            (t1, r.push(x))
        }
    }

    /// The coordinates of a constant.
    pub open spec fn constants(self, f: Ext) -> (Tape, IrExtVal) {
        let (t0, c0) = self.constant(f.c0);
        let (t1, c1) = t0.constant(f.c1);
        let (t2, c2) = t1.constant(f.c2);
        let (t3, c3) = t2.constant(f.c3);
        (t3, IrExtVal { c0, c1, c2, c3 })
    }

    /// A BabyBear value with three more coordinates that are zero; a fourth zero is recorded and
    /// not used.
    pub open spec fn from_base(self, a: IrVal) -> (Tape, IrExtVal) {
        let (t, zeros) = self.constants(ext::embed(Felt { value: 0 }));
        (t, IrExtVal { c0: a, ..zeros })
    }

    /// A constant of BabyBear as an extension value.
    pub open spec fn from_felt(self, f: Felt) -> (Tape, IrExtVal) {
        let (t, c) = self.constant(f);
        t.from_base(c)
    }

    /// The operation on each pair of coordinates, in order.
    pub open spec fn each(self, op: u32, a: IrExtVal, b: IrExtVal) -> (Tape, IrExtVal) {
        let (t0, c0) = self.record(op, a.c0.0, b.c0.0);
        let (t1, c1) = t0.record(op, a.c1.0, b.c1.0);
        let (t2, c2) = t1.record(op, a.c2.0, b.c2.0);
        let (t3, c3) = t2.record(op, a.c3.0, b.c3.0);
        (t3, IrExtVal { c0, c1, c2, c3 })
    }

    /// The sum with a BabyBear value.
    pub open spec fn add_base(self, a: IrExtVal, b: IrVal) -> (Tape, IrExtVal) {
        let (t, c0) = self.record(OP_ADD, a.c0.0, b.0);
        (t, IrExtVal { c0, ..a })
    }

    /// The first `n` of the sixteen products of coordinates, each added to its coordinate of the
    /// result; `w` holds what `X^4` is.
    pub open spec fn products(
        self,
        a: Seq<IrVal>,
        b: Seq<IrVal>,
        w: IrVal,
        zeros: Seq<IrVal>,
        n: nat,
    ) -> (Tape, Seq<IrVal>)
        decreases n,
    {
        if n == 0 {
            (self, zeros)
        } else {
            let (t, res) = self.products(a, b, w, zeros, (n - 1) as nat);
            let i = (n - 1) / 4;
            let j = (n - 1) % 4;
            let k = if i + j >= 4 {
                i + j - 4
            } else {
                i + j
            };
            let (t0, x) = if i + j >= 4 {
                t.record(OP_MUL, a[i].0, w.0)
            } else {
                (t, a[i])
            };
            let (t1, p) = t0.record(OP_MUL, x.0, b[j].0);
            let (t2, sum) = t1.record(OP_ADD, res[k].0, p.0);
            (t2, res.update(k, sum))
        }
    }

    /// The product of extension values.
    pub open spec fn product(self, a: IrExtVal, b: IrExtVal) -> (Tape, IrExtVal) {
        let (t0, w) = self.constant(Felt { value: 11 });
        let (t1, zeros) = t0.constants(ext::embed(Felt { value: 0 }));
        let (t2, res) = t1.products(a.registers(), b.registers(), w, zeros.registers(), 16);
        (t2, IrExtVal { c0: res[0], c1: res[1], c2: res[2], c3: res[3] })
    }
}

/// Registers, four by four.
pub open spec fn in_fours(regs: Seq<IrVal>, n: nat) -> Seq<IrExtVal> {
    Seq::new(
        n,
        |i: int|
            IrExtVal {
                c0: regs[4 * i],
                c1: regs[4 * i + 1],
                c2: regs[4 * i + 2],
                c3: regs[4 * i + 3],
            },
    )
}

/// The instructions recorded so far.
#[derive(Debug)]
pub struct IrContext {
    /// Flat instruction words: `[op, dst, arg0, arg1]` for each instruction.
    pub words: Vec<u32>,
    /// The next register to hand out.
    pub next_reg: u32,
}

impl IrContext {
    pub open spec fn tape(&self) -> Tape {
        Tape { words: self.words@, next: self.next_reg }
    }

    /// The number of loads.
    pub open spec fn num_loads(&self) -> nat {
        program::count_loads(self.words@, self.count())
    }

    /// The number of instructions.
    pub open spec fn count(&self) -> nat {
        self.words@.len() / 4
    }

    /// Whether every instruction has a register of its own. Register numbers start over after
    /// `2^32` of them.
    pub open spec fn addressable(&self) -> bool {
        self.count() <= u32::MAX
    }

    /// What a recording always satisfies: instruction `i` writes register `i` and reads only
    /// registers that are written before.
    pub open spec fn well_formed(&self) -> bool {
        &&& self.words@.len() % 4 == 0
        &&& self.next_reg == self.count() % 0x1_0000_0000
        &&& self.addressable() ==> {
            &&& forall|i: int|
                0 <= i < self.count() ==> #[trigger] program::dst_at(self.words@, i) == i
            &&& forall|i: int, r: u32|
                0 <= i < self.count() && #[trigger] program::reads(self.words@, i, r) ==> r < i
        }
    }

    /// The value that register `r` will hold.
    pub open spec fn value(&self, env: Window, r: u32) -> Felt {
        program::run(self.words@, env, self.count())[r]
    }

    /// Whether register `r` will hold a value.
    pub open spec fn holds(&self, r: u32) -> bool {
        r < self.count()
    }

    /// Whether this is `old` and one more instruction.
    pub open spec fn records(&self, old: IrContext, op: u32, arg0: u32, arg1: u32) -> bool {
        &&& self.words@ == old.words@ + seq![op, old.next_reg, arg0, arg1]
        &&& self.next_reg == if old.next_reg == u32::MAX {
            0
        } else {
            old.next_reg + 1
        }
    }

    /// Whether this is `old` and more instructions.
    pub open spec fn continues(&self, old: IrContext) -> bool {
        &&& self.well_formed()
        &&& old.count() <= self.count()
        &&& old.words@.is_prefix_of(self.words@)
        &&& self.addressable() ==> forall|env: Window, r: u32|
            r < old.count() ==> #[trigger] self.value(env, r) == old.value(env, r)
    }

    /// A recording without instructions.
    pub fn new() -> (r: Self)
        ensures
            r.words@ == Seq::<u32>::empty(),
            r.next_reg == 0,
            r.well_formed(),
    {
        IrContext { words: Vec::new(), next_reg: 0 }
    }

    /// Hands out a register.
    pub fn alloc_reg(&mut self) -> (r: u32)
        ensures
            r == old(self).next_reg,
            final(self).words@ == old(self).words@,
            final(self).next_reg == if old(self).next_reg == u32::MAX {
                0
            } else {
                old(self).next_reg + 1
            },
    {
        let r: u32 = self.next_reg;
        self.next_reg = self.next_reg.wrapping_add(1);
        r
    }

    /// Appends an instruction.
    pub fn emit(&mut self, op: u32, dst: u32, arg0: u32, arg1: u32)
        ensures
            final(self).words@ == old(self).words@ + seq![op, dst, arg0, arg1],
            final(self).next_reg == old(self).next_reg,
    {
        self.words.push(op);
        self.words.push(dst);
        self.words.push(arg0);
        self.words.push(arg1);
        assert(self.words@ =~= old(self).words@ + seq![op, dst, arg0, arg1]);
    }
}

/// Running a program depends on the instructions that are run only.
proof fn lemma_run_prefix(a: Seq<u32>, b: Seq<u32>, env: Window, n: nat)
    requires
        4 * n <= a.len(),
        4 * n <= b.len(),
        forall|i: int| 0 <= i < 4 * n ==> a[i] == b[i],
    ensures
        program::run(a, env, n) == program::run(b, env, n),
    decreases n,
{
    if n > 0 {
        lemma_run_prefix(a, b, env, (n - 1) as nat);
    }
}

/// The loads among the first instructions depend on these only.
pub proof fn lemma_loads_prefix(a: Seq<u32>, b: Seq<u32>, n: nat)
    requires
        4 * n <= a.len(),
        4 * n <= b.len(),
        forall|i: int| 0 <= i < n ==> program::op_at(a, i) == #[trigger] program::op_at(b, i),
    ensures
        program::count_loads(a, n) == program::count_loads(b, n),
    decreases n,
{
    if n > 0 {
        lemma_loads_prefix(a, b, (n - 1) as nat);
        assert(program::op_at(a, n - 1) == program::op_at(b, n - 1));
    }
}

/// An instruction that reads registers that hold a value continues a recording.
pub proof fn lemma_records(new: IrContext, old: IrContext, op: u32, arg0: u32, arg1: u32)
    requires
        old.well_formed(),
        new.records(old, op, arg0, arg1),
        old.addressable() && (program::is_binary(op) || op == OP_NEG) ==> old.holds(arg0),
        old.addressable() && program::is_binary(op) ==> old.holds(arg1),
    ensures
        new.continues(old),
        new.count() == old.count() + 1,
        new.tape() == old.tape().emit(op, arg0, arg1),
        new.num_loads() == old.num_loads() + if program::is_load(op) {
            1nat
        } else {
            0nat
        },
        new.addressable() ==> old.addressable(),
        new.addressable() ==> old.next_reg == old.count() && new.holds(old.next_reg),
        new.addressable() ==> forall|env: Window| #[trigger]
            new.value(env, old.next_reg) == program::instr_value(
                op,
                arg0,
                arg1,
                program::run(old.words@, env, old.count()),
                env,
            ),
{
    let n = old.count();
    let w = old.words@;
    let w1 = new.words@;
    assert(w.len() == 4 * n);
    assert(w1.len() == 4 * (n + 1));
    assert(new.count() == n + 1);
    assert(w.is_prefix_of(w1)) by {
        assert(w =~= w1.subrange(0, w.len() as int));
    }
    lemma_loads_prefix(w1, w, n);
    assert(program::op_at(w1, n as int) == op);
    assert(new.next_reg == (n + 1) % 0x1_0000_0000) by {
        lemma_small_mod(1, 0x1_0000_0000);
        lemma_add_mod_noop(n as int, 1, 0x1_0000_0000);
        if old.next_reg == u32::MAX {
            assert((0xffff_ffff + 1) % 0x1_0000_0000 == 0);
        } else {
            lemma_small_mod((old.next_reg + 1) as nat, 0x1_0000_0000);
        }
    }
    if new.addressable() {
        lemma_small_mod(n, 0x1_0000_0000);
        assert(old.next_reg == n);
        assert forall|i: int| 0 <= i < n + 1 implies #[trigger] program::dst_at(w1, i) == i by {
            if i < n {
                assert(program::dst_at(w, i) == i);
            }
        }
        assert forall|i: int, r: u32| 0 <= i < n + 1 && #[trigger] program::reads(w1, i, r) implies r
            < i by {
            if i < n {
                assert(program::reads(w, i, r));
            }
        }
        assert forall|env: Window| program::run(w1, env, n) == #[trigger] program::run(w, env, n) by {
            lemma_run_prefix(w1, w, env, n);
        }
        assert forall|env: Window, r: u32| r < n implies #[trigger] new.value(env, r) == old.value(
            env,
            r,
        ) by {
            assert(program::run(w1, env, n) == program::run(w, env, n));
            assert(program::dst_at(w1, n as int) == n);
        }
        assert forall|env: Window| #[trigger]
            new.value(env, old.next_reg) == program::instr_value(
                op,
                arg0,
                arg1,
                program::run(old.words@, env, old.count()),
                env,
            ) by {
            assert(program::run(w1, env, n) == program::run(w, env, n));
            assert(program::dst_at(w1, n as int) == n);
        }
    }
}

pub proof fn lemma_continues_trans(c: IrContext, b: IrContext, a: IrContext)
    requires
        c.continues(b),
        b.continues(a),
    ensures
        c.continues(a),
{
    assert(a.words@ =~= c.words@.subrange(0, a.words@.len() as int)) by {
        assert(b.words@ == c.words@.subrange(0, b.words@.len() as int));
        assert(a.words@ == b.words@.subrange(0, a.words@.len() as int));
    }
    if c.addressable() {
        assert forall|env: Window, r: u32| r < a.count() implies #[trigger] c.value(env, r)
            == a.value(env, r) by {
            assert(c.value(env, r) == b.value(env, r));
            assert(b.value(env, r) == a.value(env, r));
        }
    }
}

/// A register that holds a value of BabyBear.
#[derive(Clone, Copy, PartialEq, Eq, Structural, Debug, Hash)]
pub struct IrVal(pub u32);

/// The Montgomery form of `n`: `n 2^32` modulo the prime.
pub fn to_monty(n: u32) -> (r: u32)
    ensures
        r == (n * 0x1_0000_0000) % (P as int),
        program::from_monty(r) == babybear::felt(n as int),
{
    let wide: u64 = (n as u64) << 32;
    proof {
        assert((n as u64) << 32 == (n as u64) * 0x1_0000_0000) by (bit_vector)
            requires
                n <= 0xffff_ffff,
        ;
        lemma_monty_round_trip(n as int);
    }
    (wide % (P as u64)) as u32
}

/// The Montgomery form stands for the number that it was made from.
pub proof fn lemma_monty_round_trip(n: int)
    ensures
        ((n * 0x1_0000_0000) % (P as int) * (program::MONTY_INVERSE as int)) % (P as int) == n % (
        P as int),
{
    let p = P as int;
    let v = program::MONTY_INVERSE as int;
    lemma_mul_mod_noop_left(n * 0x1_0000_0000, v, p);
    lemma_mul_is_associative(n, 0x1_0000_0000, v);
    assert((0x1_0000_0000 * v) % p == 1);
    lemma_mul_mod_noop_right(n, 0x1_0000_0000 * v, p);
}

impl IrVal {
    /// Whether this is a constant whose value is `n`, and the only instruction recorded.
    pub open spec fn is_constant(&self, new: IrContext, old: IrContext, n: int) -> bool {
        &&& new.records(old, OP_CONST, ((n * 0x1_0000_0000) % (P as int)) as u32, 0)
        &&& program::from_monty(((n * 0x1_0000_0000) % (P as int)) as u32) == babybear::felt(n)
        &&& self.0 == old.next_reg
    }

    /// Records the load of a constant in Montgomery form.
    pub fn emit_const(ctx: &mut IrContext, monty_value: u32) -> (r: Self)
        ensures
            final(ctx).records(*old(ctx), OP_CONST, monty_value, 0),
            r.0 == old(ctx).next_reg,
    {
        let dst: u32 = ctx.alloc_reg();
        ctx.emit(OP_CONST, dst, monty_value, 0);
        IrVal(dst)
    }

    /// Records an operation on two registers.
    pub fn emit_binop(ctx: &mut IrContext, op: u32, lhs: u32, rhs: u32) -> (r: Self)
        ensures
            final(ctx).records(*old(ctx), op, lhs, rhs),
            r.0 == old(ctx).next_reg,
    {
        let dst: u32 = ctx.alloc_reg();
        ctx.emit(op, dst, lhs, rhs);
        IrVal(dst)
    }

    /// Records an operation on one register.
    pub fn emit_unop(ctx: &mut IrContext, op: u32, src: u32) -> (r: Self)
        ensures
            final(ctx).records(*old(ctx), op, src, 0),
            r.0 == old(ctx).next_reg,
    {
        let dst: u32 = ctx.alloc_reg();
        ctx.emit(op, dst, src, 0);
        IrVal(dst)
    }

    /// Records the load of a column.
    pub fn emit_load(ctx: &mut IrContext, op: u32, col: u32) -> (r: Self)
        ensures
            final(ctx).records(*old(ctx), op, col, 0),
            r.0 == old(ctx).next_reg,
    {
        let dst: u32 = ctx.alloc_reg();
        ctx.emit(op, dst, col, 0);
        IrVal(dst)
    }

    pub fn add(self, rhs: Self, ctx: &mut IrContext) -> (r: Self)
        ensures
            final(ctx).records(*old(ctx), OP_ADD, self.0, rhs.0),
            r.0 == old(ctx).next_reg,
    {
        Self::emit_binop(ctx, OP_ADD, self.0, rhs.0)
    }

    pub fn sub(self, rhs: Self, ctx: &mut IrContext) -> (r: Self)
        ensures
            final(ctx).records(*old(ctx), OP_SUB, self.0, rhs.0),
            r.0 == old(ctx).next_reg,
    {
        Self::emit_binop(ctx, OP_SUB, self.0, rhs.0)
    }

    pub fn mul(self, rhs: Self, ctx: &mut IrContext) -> (r: Self)
        ensures
            final(ctx).records(*old(ctx), OP_MUL, self.0, rhs.0),
            r.0 == old(ctx).next_reg,
    {
        Self::emit_binop(ctx, OP_MUL, self.0, rhs.0)
    }

    pub fn neg(self, ctx: &mut IrContext) -> (r: Self)
        ensures
            final(ctx).records(*old(ctx), OP_NEG, self.0, 0),
            r.0 == old(ctx).next_reg,
    {
        Self::emit_unop(ctx, OP_NEG, self.0)
    }

    pub fn zero(ctx: &mut IrContext) -> (r: Self)
        ensures
            r.is_constant(*final(ctx), *old(ctx), 0),
    {
        Self::from_canonical_u32(ctx, 0)
    }

    pub fn one(ctx: &mut IrContext) -> (r: Self)
        ensures
            r.is_constant(*final(ctx), *old(ctx), 1),
    {
        Self::from_canonical_u32(ctx, 1)
    }

    pub fn two(ctx: &mut IrContext) -> (r: Self)
        ensures
            r.is_constant(*final(ctx), *old(ctx), 2),
    {
        Self::from_canonical_u32(ctx, 2)
    }

    /// The largest element, `-1`.
    pub fn neg_one(ctx: &mut IrContext) -> (r: Self)
        ensures
            r.is_constant(*final(ctx), *old(ctx), P - 1),
    {
        Self::from_canonical_u32(ctx, 0x7800_0000)
    }

    pub fn from_f(ctx: &mut IrContext, f: Felt) -> (r: Self)
        ensures
            r.is_constant(*final(ctx), *old(ctx), f.value as int),
    {
        Self::from_canonical_u32(ctx, f.value)
    }

    pub fn from_bool(ctx: &mut IrContext, b: bool) -> (r: Self)
        ensures
            r.is_constant(
                *final(ctx),
                *old(ctx),
                if b {
                    1
                } else {
                    0
                },
            ),
    {
        Self::from_canonical_u32(
            ctx,
            if b {
                1
            } else {
                0
            },
        )
    }

    pub fn from_canonical_u8(ctx: &mut IrContext, n: u8) -> (r: Self)
        ensures
            r.is_constant(*final(ctx), *old(ctx), n as int),
    {
        Self::from_canonical_u32(ctx, n as u32)
    }

    pub fn from_canonical_u16(ctx: &mut IrContext, n: u16) -> (r: Self)
        ensures
            r.is_constant(*final(ctx), *old(ctx), n as int),
    {
        Self::from_canonical_u32(ctx, n as u32)
    }

    pub fn from_canonical_u32(ctx: &mut IrContext, n: u32) -> (r: Self)
        ensures
            r.is_constant(*final(ctx), *old(ctx), n as int),
    {
        let m: u32 = to_monty(n);
        Self::emit_const(ctx, m)
    }

    pub fn from_canonical_u64(ctx: &mut IrContext, n: u64) -> (r: Self)
        ensures
            r.is_constant(*final(ctx), *old(ctx), n as int),
    {
        proof {
            lemma_monty_mod(n as int);
        }
        Self::from_canonical_u32(ctx, (n % (P as u64)) as u32)
    }

    pub fn from_canonical_usize(ctx: &mut IrContext, n: usize) -> (r: Self)
        ensures
            r.is_constant(*final(ctx), *old(ctx), n as int),
    {
        Self::from_canonical_u64(ctx, n as u64)
    }

    pub fn from_wrapped_u32(ctx: &mut IrContext, n: u32) -> (r: Self)
        ensures
            r.is_constant(*final(ctx), *old(ctx), n as int),
    {
        proof {
            lemma_monty_mod(n as int);
        }
        Self::from_canonical_u32(ctx, n % P)
    }

    pub fn from_wrapped_u64(ctx: &mut IrContext, n: u64) -> (r: Self)
        ensures
            r.is_constant(*final(ctx), *old(ctx), n as int),
    {
        Self::from_canonical_u64(ctx, n)
    }

    /// The generator of the multiplicative group.
    pub fn generator(ctx: &mut IrContext) -> (r: Self)
        ensures
            r.is_constant(*final(ctx), *old(ctx), 31),
    {
        Self::from_canonical_u32(ctx, 31)
    }
}

/// The Montgomery form depends on the residue only.
proof fn lemma_monty_mod(n: int)
    ensures
        (n % (P as int) * 0x1_0000_0000) % (P as int) == (n * 0x1_0000_0000) % (P as int),
        babybear::felt(n % (P as int)) == babybear::felt(n),
{
    lemma_mul_mod_noop_left(n, 0x1_0000_0000, P as int);
}

/// The meaning of a new constant.
pub proof fn lemma_constant(r: IrVal, new: IrContext, old: IrContext, n: int)
    requires
        old.well_formed(),
        r.is_constant(new, old, n),
    ensures
        new.continues(old),
        new.count() == old.count() + 1,
        new.num_loads() == old.num_loads(),
        (new.tape(), r) == old.tape().record(
            OP_CONST,
            ((n * 0x1_0000_0000) % (P as int)) as u32,
            0,
        ),
        new.addressable() ==> old.addressable() && new.holds(r.0) && forall|env: Window| #[trigger]
            new.value(env, r.0) == babybear::felt(n),
{
    lemma_records(new, old, OP_CONST, ((n * 0x1_0000_0000) % (P as int)) as u32, 0);
}

/// A value of the extension field, as the registers of its coordinates.
#[derive(Clone, Copy, PartialEq, Eq, Structural, Debug, Hash)]
pub struct IrExtVal {
    pub c0: IrVal,
    pub c1: IrVal,
    pub c2: IrVal,
    pub c3: IrVal,
}

impl IrExtVal {
    /// The registers of the coordinates.
    pub open spec fn registers(&self) -> Seq<IrVal> {
        seq![self.c0, self.c1, self.c2, self.c3]
    }

    /// Whether all coordinates will hold a value.
    pub open spec fn held_by(&self, ctx: IrContext) -> bool {
        &&& ctx.holds(self.c0.0)
        &&& ctx.holds(self.c1.0)
        &&& ctx.holds(self.c2.0)
        &&& ctx.holds(self.c3.0)
    }

    /// The value that the registers will hold.
    pub open spec fn value(&self, ctx: IrContext, env: Window) -> Ext {
        Ext {
            c0: ctx.value(env, self.c0.0),
            c1: ctx.value(env, self.c1.0),
            c2: ctx.value(env, self.c2.0),
            c3: ctx.value(env, self.c3.0),
        }
    }

    /// Whether this is what `n` more instructions leave, with the given value.
    pub open spec fn results(
        &self,
        new: IrContext,
        old: IrContext,
        n: nat,
        f: spec_fn(Window) -> Ext,
    ) -> bool {
        &&& new.continues(old)
        &&& new.count() == old.count() + n
        &&& new.num_loads() == old.num_loads()
        &&& new.addressable() ==> old.addressable() && self.held_by(new) && forall|env: Window|
            #[trigger] self.value(new, env) == f(env)
    }

    /// Four constants.
    pub fn from_f(ctx: &mut IrContext, f: Ext) -> (r: Self)
        requires
            old(ctx).well_formed(),
        ensures
            (final(ctx).tape(), r) == old(ctx).tape().constants(f),
            r.results(*final(ctx), *old(ctx), 4, |env: Window| ring::reduced(f)),
    {
        let ghost s0 = *ctx;
        let c0 = IrVal::from_f(ctx, f.c0);
        let ghost s1 = *ctx;
        proof {
            lemma_constant(c0, s1, s0, f.c0.value as int);
        }
        let c1 = IrVal::from_f(ctx, f.c1);
        let ghost s2 = *ctx;
        proof {
            lemma_constant(c1, s2, s1, f.c1.value as int);
        }
        let c2 = IrVal::from_f(ctx, f.c2);
        let ghost s3 = *ctx;
        proof {
            lemma_constant(c2, s3, s2, f.c2.value as int);
        }
        let c3 = IrVal::from_f(ctx, f.c3);
        let r = IrExtVal { c0, c1, c2, c3 };
        proof {
            lemma_constant(c3, *ctx, s3, f.c3.value as int);
            lemma_continues_trans(s2, s1, s0);
            lemma_continues_trans(s3, s2, s0);
            lemma_continues_trans(*ctx, s3, s0);
            if ctx.addressable() {
                assert forall|env: Window| #[trigger] r.value(*ctx, env) == ring::reduced(f) by {
                    assert(ctx.value(env, c0.0) == s3.value(env, c0.0));
                    assert(s3.value(env, c0.0) == s2.value(env, c0.0));
                    assert(s2.value(env, c0.0) == s1.value(env, c0.0));
                    assert(ctx.value(env, c1.0) == s3.value(env, c1.0));
                    assert(s3.value(env, c1.0) == s2.value(env, c1.0));
                    assert(ctx.value(env, c2.0) == s3.value(env, c2.0));
                }
            }
        }
        r
    }

    /// A BabyBear value: three more coordinates that are zero.
    pub fn from_base(ctx: &mut IrContext, a: IrVal) -> (r: Self)
        requires
            old(ctx).well_formed(),
            old(ctx).addressable() ==> old(ctx).holds(a.0),
        ensures
            (final(ctx).tape(), r) == old(ctx).tape().from_base(a),
            r.results(*final(ctx), *old(ctx), 4, |env: Window| ext::embed(old(ctx).value(env, a.0))),
    {
        let ghost s0 = *ctx;
        let zeros = IrExtVal::from_f(ctx, Ext::from_base(Felt { value: 0 }));
        let r = IrExtVal { c0: a, c1: zeros.c1, c2: zeros.c2, c3: zeros.c3 };
        proof {
            if ctx.addressable() {
                assert forall|env: Window| #[trigger] r.value(*ctx, env) == ext::embed(
                    s0.value(env, a.0),
                ) by {
                    assert(zeros.value(*ctx, env) == ring::reduced(
                        ext::embed(Felt { value: 0 }),
                    ));
                    assert(ctx.value(env, a.0) == s0.value(env, a.0));
                }
            }
        }
        r
    }

    /// A constant of BabyBear.
    pub fn from_felt(ctx: &mut IrContext, f: Felt) -> (r: Self)
        requires
            old(ctx).well_formed(),
        ensures
            (final(ctx).tape(), r) == old(ctx).tape().from_felt(f),
            r.results(*final(ctx), *old(ctx), 5, |env: Window| ext::embed(ring::reduced(f))),
    {
        let ghost s0 = *ctx;
        let c = IrVal::from_f(ctx, f);
        let ghost s1 = *ctx;
        proof {
            lemma_constant(c, s1, s0, f.value as int);
        }
        let r = IrExtVal::from_base(ctx, c);
        proof {
            lemma_continues_trans(*ctx, s1, s0);
            if ctx.addressable() {
                assert forall|env: Window| #[trigger] r.value(*ctx, env) == ext::embed(
                    ring::reduced(f),
                ) by {
                    assert(s1.value(env, c.0) == babybear::felt(f.value as int));
                }
            }
        }
        r
    }

    pub fn zero(ctx: &mut IrContext) -> (r: Self)
        requires
            old(ctx).well_formed(),
        ensures
            (final(ctx).tape(), r) == old(ctx).tape().from_felt(Felt { value: 0 }),
            r.results(*final(ctx), *old(ctx), 5, |env: Window| Ext::zero_spec()),
    {
        proof {
            assert(ext::embed(ring::reduced(Felt { value: 0 })) == Ext::zero_spec());
        }
        let r = Self::from_felt(ctx, Felt { value: 0 });
        proof {
            if ctx.addressable() {
                assert forall|env: Window| #[trigger] r.value(*ctx, env) == Ext::zero_spec() by {
                    assert(r.value(*ctx, env) == ext::embed(ring::reduced(Felt { value: 0 })));
                }
            }
        }
        r
    }

    pub fn one(ctx: &mut IrContext) -> (r: Self)
        requires
            old(ctx).well_formed(),
        ensures
            (final(ctx).tape(), r) == old(ctx).tape().from_felt(Felt { value: 1 }),
            r.results(*final(ctx), *old(ctx), 5, |env: Window| Ext::one_spec()),
    {
        proof {
            assert(ext::embed(ring::reduced(Felt { value: 1 })) == Ext::one_spec());
        }
        let r = Self::from_felt(ctx, Felt { value: 1 });
        proof {
            if ctx.addressable() {
                assert forall|env: Window| #[trigger] r.value(*ctx, env) == Ext::one_spec() by {
                    assert(r.value(*ctx, env) == ext::embed(ring::reduced(Felt { value: 1 })));
                }
            }
        }
        r
    }
}

/// The value of an operation on two values.
pub open spec fn binary_value(op: u32, x: Felt, y: Felt) -> Felt {
    if op == OP_ADD {
        x.plus(y)
    } else if op == OP_SUB {
        ring::minus(x, y)
    } else {
        x.times(y)
    }
}

/// The meaning of a new operation on two registers.
pub proof fn lemma_binary(r: IrVal, new: IrContext, old: IrContext, op: u32, x: u32, y: u32)
    requires
        old.well_formed(),
        program::is_binary(op),
        new.records(old, op, x, y),
        r.0 == old.next_reg,
        old.addressable() ==> old.holds(x) && old.holds(y),
    ensures
        new.continues(old),
        new.count() == old.count() + 1,
        new.num_loads() == old.num_loads(),
        (new.tape(), r) == old.tape().record(op, x, y),
        new.addressable() ==> old.addressable() && new.holds(r.0) && forall|env: Window| #[trigger]
            new.value(env, r.0) == binary_value(op, old.value(env, x), old.value(env, y)),
{
    lemma_records(new, old, op, x, y);
}

/// Whether all registers will hold a value.
pub open spec fn all_held(ctx: IrContext, xs: Seq<IrVal>) -> bool {
    forall|i: int| 0 <= i < xs.len() ==> ctx.holds((#[trigger] xs[i]).0)
}

/// The values that registers will hold.
pub open spec fn values_of(ctx: IrContext, env: Window, xs: Seq<IrVal>) -> Seq<Felt> {
    Seq::new(xs.len(), |i: int| ctx.value(env, xs[i].0))
}

/// The sum of the first `n` values.
pub open spec fn sum_of(xs: Seq<Felt>, n: nat) -> Felt
    decreases n,
{
    if n == 0 {
        Felt::zero_spec()
    } else {
        sum_of(xs, (n - 1) as nat).plus(xs[n - 1])
    }
}

/// The product of the first `n` values.
pub open spec fn product_of(xs: Seq<Felt>, n: nat) -> Felt
    decreases n,
{
    if n == 0 {
        Felt::one_spec()
    } else {
        product_of(xs, (n - 1) as nat).times(xs[n - 1])
    }
}

impl IrVal {
    /// Whether this is what `n` more instructions leave, with the given value.
    pub open spec fn results(
        &self,
        new: IrContext,
        old: IrContext,
        n: nat,
        f: spec_fn(Window) -> Felt,
    ) -> bool {
        &&& new.continues(old)
        &&& new.count() == old.count() + n
        &&& new.addressable() ==> old.addressable() && new.holds(self.0) && forall|env: Window|
            #[trigger] new.value(env, self.0) == f(env)
    }

    /// The sum of registers, from zero on.
    pub fn sum(ctx: &mut IrContext, xs: &Vec<IrVal>) -> (r: Self)
        requires
            old(ctx).well_formed(),
            old(ctx).addressable() ==> all_held(*old(ctx), xs@),
        ensures
            r.results(
                *final(ctx),
                *old(ctx),
                1 + xs@.len(),
                |env: Window| sum_of(values_of(*old(ctx), env, xs@), xs@.len()),
            ),
    {
        let ghost s0 = *ctx;
        let mut r = Self::zero(ctx);
        proof {
            lemma_constant(r, *ctx, s0, 0);
        }
        let mut i: usize = 0;
        while i < xs.len()
            invariant
                i <= xs@.len(),
                s0.well_formed(),
                s0.addressable() ==> all_held(s0, xs@),
                r.results(
                    *ctx,
                    s0,
                    (1 + i) as nat,
                    |env: Window| sum_of(values_of(s0, env, xs@), i as nat),
                ),
            decreases xs@.len() - i,
        {
            let ghost s1 = *ctx;
            let ghost acc = r;
            let x: IrVal = xs[i];
            r = r.add(x, ctx);
            proof {
                if s1.addressable() {
                    assert(s0.holds(xs@[i as int].0));
                }
                lemma_binary(r, *ctx, s1, OP_ADD, acc.0, x.0);
                lemma_continues_trans(*ctx, s1, s0);
                if ctx.addressable() {
                    assert forall|env: Window| #[trigger] ctx.value(env, r.0) == sum_of(
                        values_of(s0, env, xs@),
                        (i + 1) as nat,
                    ) by {
                        assert(s1.value(env, acc.0) == sum_of(values_of(s0, env, xs@), i as nat));
                        assert(s1.value(env, x.0) == s0.value(env, x.0));
                    }
                }
            }
            i = i + 1;
        }
        r
    }

    /// The product of registers, from one on.
    pub fn product(ctx: &mut IrContext, xs: &Vec<IrVal>) -> (r: Self)
        requires
            old(ctx).well_formed(),
            old(ctx).addressable() ==> all_held(*old(ctx), xs@),
        ensures
            r.results(
                *final(ctx),
                *old(ctx),
                1 + xs@.len(),
                |env: Window| product_of(values_of(*old(ctx), env, xs@), xs@.len()),
            ),
    {
        let ghost s0 = *ctx;
        let mut r = Self::one(ctx);
        proof {
            lemma_constant(r, *ctx, s0, 1);
        }
        let mut i: usize = 0;
        while i < xs.len()
            invariant
                i <= xs@.len(),
                s0.well_formed(),
                s0.addressable() ==> all_held(s0, xs@),
                r.results(
                    *ctx,
                    s0,
                    (1 + i) as nat,
                    |env: Window| product_of(values_of(s0, env, xs@), i as nat),
                ),
            decreases xs@.len() - i,
        {
            let ghost s1 = *ctx;
            let ghost acc = r;
            let x: IrVal = xs[i];
            r = r.mul(x, ctx);
            proof {
                if s1.addressable() {
                    assert(s0.holds(xs@[i as int].0));
                }
                lemma_binary(r, *ctx, s1, OP_MUL, acc.0, x.0);
                lemma_continues_trans(*ctx, s1, s0);
                if ctx.addressable() {
                    assert forall|env: Window| #[trigger] ctx.value(env, r.0) == product_of(
                        values_of(s0, env, xs@),
                        (i + 1) as nat,
                    ) by {
                        assert(s1.value(env, acc.0) == product_of(values_of(s0, env, xs@), i as nat));
                        assert(s1.value(env, x.0) == s0.value(env, x.0));
                    }
                }
            }
            i = i + 1;
        }
        r
    }

    pub fn add_f(self, rhs: Felt, ctx: &mut IrContext) -> (r: Self)
        requires
            old(ctx).well_formed(),
            old(ctx).addressable() ==> old(ctx).holds(self.0),
        ensures
            r.results(
                *final(ctx),
                *old(ctx),
                2,
                |env: Window| old(ctx).value(env, self.0).plus(ring::reduced(rhs)),
            ),
    {
        let ghost s0 = *ctx;
        let c = Self::from_f(ctx, rhs);
        let ghost s1 = *ctx;
        let r = self.add(c, ctx);
        proof {
            lemma_constant(c, s1, s0, rhs.value as int);
            lemma_binary(r, *ctx, s1, OP_ADD, self.0, c.0);
            lemma_continues_trans(*ctx, s1, s0);
            if ctx.addressable() {
                assert forall|env: Window| #[trigger] ctx.value(env, r.0) == s0.value(env, self.0).plus(ring::reduced(rhs)) by {
                    assert(s1.value(env, self.0) == s0.value(env, self.0));
                    assert(s1.value(env, c.0) == babybear::felt(rhs.value as int));
                }
            }
        }
        r
    }

    pub fn sub_f(self, rhs: Felt, ctx: &mut IrContext) -> (r: Self)
        requires
            old(ctx).well_formed(),
            old(ctx).addressable() ==> old(ctx).holds(self.0),
        ensures
            r.results(
                *final(ctx),
                *old(ctx),
                2,
                |env: Window| ring::minus(old(ctx).value(env, self.0), ring::reduced(rhs)),
            ),
    {
        let ghost s0 = *ctx;
        let c = Self::from_f(ctx, rhs);
        let ghost s1 = *ctx;
        let r = self.sub(c, ctx);
        proof {
            lemma_constant(c, s1, s0, rhs.value as int);
            lemma_binary(r, *ctx, s1, OP_SUB, self.0, c.0);
            lemma_continues_trans(*ctx, s1, s0);
            if ctx.addressable() {
                assert forall|env: Window| #[trigger] ctx.value(env, r.0) == ring::minus(s0.value(env, self.0), ring::reduced(rhs)) by {
                    assert(s1.value(env, self.0) == s0.value(env, self.0));
                    assert(s1.value(env, c.0) == babybear::felt(rhs.value as int));
                }
            }
        }
        r
    }

    pub fn mul_f(self, rhs: Felt, ctx: &mut IrContext) -> (r: Self)
        requires
            old(ctx).well_formed(),
            old(ctx).addressable() ==> old(ctx).holds(self.0),
        ensures
            r.results(
                *final(ctx),
                *old(ctx),
                2,
                |env: Window| old(ctx).value(env, self.0).times(ring::reduced(rhs)),
            ),
    {
        let ghost s0 = *ctx;
        let c = Self::from_f(ctx, rhs);
        let ghost s1 = *ctx;
        let r = self.mul(c, ctx);
        proof {
            lemma_constant(c, s1, s0, rhs.value as int);
            lemma_binary(r, *ctx, s1, OP_MUL, self.0, c.0);
            lemma_continues_trans(*ctx, s1, s0);
            if ctx.addressable() {
                assert forall|env: Window| #[trigger] ctx.value(env, r.0) == s0.value(env, self.0).times(ring::reduced(rhs)) by {
                    assert(s1.value(env, self.0) == s0.value(env, self.0));
                    assert(s1.value(env, c.0) == babybear::felt(rhs.value as int));
                }
            }
        }
        r
    }
}

impl IrExtVal {
    /// The operation on each pair of coordinates.
    fn each(ctx: &mut IrContext, op: u32, a: Self, b: Self) -> (r: Self)
        requires
            old(ctx).well_formed(),
            program::is_binary(op),
            old(ctx).addressable() ==> a.held_by(*old(ctx)) && b.held_by(*old(ctx)),
        ensures
            (final(ctx).tape(), r) == old(ctx).tape().each(op, a, b),
            r.results(
                *final(ctx),
                *old(ctx),
                4,
                |env: Window|
                    Ext {
                        c0: binary_value(
                            op,
                            a.value(*old(ctx), env).c0,
                            b.value(*old(ctx), env).c0,
                        ),
                        c1: binary_value(
                            op,
                            a.value(*old(ctx), env).c1,
                            b.value(*old(ctx), env).c1,
                        ),
                        c2: binary_value(
                            op,
                            a.value(*old(ctx), env).c2,
                            b.value(*old(ctx), env).c2,
                        ),
                        c3: binary_value(
                            op,
                            a.value(*old(ctx), env).c3,
                            b.value(*old(ctx), env).c3,
                        ),
                    },
            ),
    {
        let ghost s0 = *ctx;
        let c0 = IrVal::emit_binop(ctx, op, a.c0.0, b.c0.0);
        let ghost s1 = *ctx;
        proof {
            lemma_binary(c0, s1, s0, op, a.c0.0, b.c0.0);
        }
        let c1 = IrVal::emit_binop(ctx, op, a.c1.0, b.c1.0);
        let ghost s2 = *ctx;
        proof {
            lemma_binary(c1, s2, s1, op, a.c1.0, b.c1.0);
        }
        let c2 = IrVal::emit_binop(ctx, op, a.c2.0, b.c2.0);
        let ghost s3 = *ctx;
        proof {
            lemma_binary(c2, s3, s2, op, a.c2.0, b.c2.0);
        }
        let c3 = IrVal::emit_binop(ctx, op, a.c3.0, b.c3.0);
        let r = IrExtVal { c0, c1, c2, c3 };
        proof {
            lemma_binary(c3, *ctx, s3, op, a.c3.0, b.c3.0);
            lemma_continues_trans(s2, s1, s0);
            lemma_continues_trans(s3, s2, s0);
            lemma_continues_trans(*ctx, s3, s0);
            lemma_continues_trans(*ctx, s3, s2);
            lemma_continues_trans(*ctx, s2, s1);
            if ctx.addressable() {
                assert forall|env: Window| #[trigger] r.value(*ctx, env) == (Ext {
                    c0: binary_value(op, a.value(s0, env).c0, b.value(s0, env).c0),
                    c1: binary_value(op, a.value(s0, env).c1, b.value(s0, env).c1),
                    c2: binary_value(op, a.value(s0, env).c2, b.value(s0, env).c2),
                    c3: binary_value(op, a.value(s0, env).c3, b.value(s0, env).c3),
                }) by {
                    assert(ctx.value(env, c0.0) == s1.value(env, c0.0));
                    assert(ctx.value(env, c1.0) == s2.value(env, c1.0));
                    assert(ctx.value(env, c2.0) == s3.value(env, c2.0));
                    assert(s1.value(env, a.c1.0) == s0.value(env, a.c1.0));
                    assert(s1.value(env, b.c1.0) == s0.value(env, b.c1.0));
                    assert(s2.value(env, a.c2.0) == s0.value(env, a.c2.0));
                    assert(s2.value(env, b.c2.0) == s0.value(env, b.c2.0));
                    assert(s3.value(env, a.c3.0) == s0.value(env, a.c3.0));
                    assert(s3.value(env, b.c3.0) == s0.value(env, b.c3.0));
                }
            }
        }
        r
    }

    pub fn add(self, rhs: Self, ctx: &mut IrContext) -> (r: Self)
        requires
            old(ctx).well_formed(),
            old(ctx).addressable() ==> self.held_by(*old(ctx)) && rhs.held_by(*old(ctx)),
        ensures
            (final(ctx).tape(), r) == old(ctx).tape().each(OP_ADD, self, rhs),
            r.results(
                *final(ctx),
                *old(ctx),
                4,
                |env: Window| self.value(*old(ctx), env).plus(rhs.value(*old(ctx), env)),
            ),
    {
        Self::each(ctx, OP_ADD, self, rhs)
    }

    pub fn sub(self, rhs: Self, ctx: &mut IrContext) -> (r: Self)
        requires
            old(ctx).well_formed(),
            old(ctx).addressable() ==> self.held_by(*old(ctx)) && rhs.held_by(*old(ctx)),
        ensures
            (final(ctx).tape(), r) == old(ctx).tape().each(OP_SUB, self, rhs),
            r.results(
                *final(ctx),
                *old(ctx),
                4,
                |env: Window| ring::minus(self.value(*old(ctx), env), rhs.value(*old(ctx), env)),
            ),
    {
        let ghost s0 = *ctx;
        let r = Self::each(ctx, OP_SUB, self, rhs);
        proof {
            if ctx.addressable() {
                assert forall|env: Window| #[trigger] r.value(*ctx, env) == ring::minus(
                    self.value(s0, env),
                    rhs.value(s0, env),
                ) by {
                    lemma_minus_coordinates(self.value(s0, env), rhs.value(s0, env));
                }
            }
        }
        r
    }

    /// The product with a BabyBear value.
    pub fn mul_base(self, rhs: IrVal, ctx: &mut IrContext) -> (r: Self)
        requires
            old(ctx).well_formed(),
            old(ctx).addressable() ==> self.held_by(*old(ctx)) && old(ctx).holds(rhs.0),
        ensures
            (final(ctx).tape(), r) == old(ctx).tape().each(
                OP_MUL,
                self,
                IrExtVal { c0: rhs, c1: rhs, c2: rhs, c3: rhs },
            ),
            r.results(
                *final(ctx),
                *old(ctx),
                4,
                |env: Window|
                    self.value(*old(ctx), env).times(ext::embed(old(ctx).value(env, rhs.0))),
            ),
    {
        let ghost s0 = *ctx;
        let r = Self::each(ctx, OP_MUL, self, IrExtVal { c0: rhs, c1: rhs, c2: rhs, c3: rhs });
        proof {
            if ctx.addressable() {
                assert forall|env: Window| #[trigger] r.value(*ctx, env) == self.value(
                    s0,
                    env,
                ).times(ext::embed(s0.value(env, rhs.0))) by {
                    lemma_scale_coordinates(self.value(s0, env), s0.value(env, rhs.0));
                }
            }
        }
        r
    }

    /// The sum with a BabyBear value.
    pub fn add_base(self, rhs: IrVal, ctx: &mut IrContext) -> (r: Self)
        requires
            old(ctx).well_formed(),
            old(ctx).addressable() ==> self.held_by(*old(ctx)) && old(ctx).holds(rhs.0),
        ensures
            (final(ctx).tape(), r) == old(ctx).tape().add_base(self, rhs),
            r.results(
                *final(ctx),
                *old(ctx),
                1,
                |env: Window|
                    Ext {
                        c0: self.value(*old(ctx), env).c0.plus(old(ctx).value(env, rhs.0)),
                        ..self.value(*old(ctx), env)
                    },
            ),
    {
        let ghost s0 = *ctx;
        let c0 = self.c0.add(rhs, ctx);
        let r = IrExtVal { c0, ..self };
        proof {
            lemma_binary(c0, *ctx, s0, OP_ADD, self.c0.0, rhs.0);
            if ctx.addressable() {
                assert forall|env: Window| #[trigger] r.value(*ctx, env) == (Ext {
                    c0: self.value(s0, env).c0.plus(s0.value(env, rhs.0)),
                    ..self.value(s0, env)
                }) by {
                    assert(ctx.value(env, self.c1.0) == s0.value(env, self.c1.0));
                    assert(ctx.value(env, self.c2.0) == s0.value(env, self.c2.0));
                    assert(ctx.value(env, self.c3.0) == s0.value(env, self.c3.0));
                }
            }
        }
        r
    }
}

proof fn lemma_minus_coordinates(a: Ext, b: Ext)
    ensures
        ring::minus(a, b) == (Ext {
            c0: ring::minus(a.c0, b.c0),
            c1: ring::minus(a.c1, b.c1),
            c2: ring::minus(a.c2, b.c2),
            c3: ring::minus(a.c3, b.c3),
        }),
{
}

proof fn lemma_scale_coordinates(a: Ext, b: Felt)
    ensures
        a.times(ext::embed(b)) == (Ext {
            c0: a.c0.times(b),
            c1: a.c1.times(b),
            c2: a.c2.times(b),
            c3: a.c3.times(b),
        }),
{
    let (a0, a1, a2, a3) = (a.c0.value, a.c1.value, a.c2.value, a.c3.value);
    assert(a0 * 0 == 0 && a1 * 0 == 0 && a2 * 0 == 0 && a3 * 0 == 0) by (nonlinear_arith);
}

/// The coordinates of an extension element.
pub open spec fn coordinates(a: Ext) -> Seq<Felt> {
    seq![a.c0, a.c1, a.c2, a.c3]
}

/// The coordinates of a product after the first `n` of the sixteen products of coordinates, where
/// `X^4 = 11`.
spec fn partial_product(a: Seq<Felt>, b: Seq<Felt>, n: nat) -> Seq<Felt>
    decreases n,
{
    if n == 0 {
        seq![Felt::zero_spec(), Felt::zero_spec(), Felt::zero_spec(), Felt::zero_spec()]
    } else {
        let s = partial_product(a, b, (n - 1) as nat);
        let i = (n - 1) / 4;
        let j = (n - 1) % 4;
        let k = if i + j >= 4 {
            i + j - 4
        } else {
            i + j
        };
        s.update(k, s[k].plus(term(a, b, i, j)))
    }
}

/// The product of two coordinates.
spec fn term(a: Seq<Felt>, b: Seq<Felt>, i: int, j: int) -> Felt {
    if i + j >= 4 {
        a[i].times(Felt { value: 11 }).times(b[j])
    } else {
        a[i].times(b[j])
    }
}

/// The four products of a coordinate of the first factor add to one coordinate each.
proof fn lemma_product_row(a: Seq<Felt>, b: Seq<Felt>, i: int)
    requires
        0 <= i < 4,
    ensures
        partial_product(a, b, (4 * i) as nat).len() == 4,
        ({
            let s = partial_product(a, b, (4 * i) as nat);
            let t = partial_product(a, b, (4 * i + 4) as nat);
            &&& t.len() == 4
            &&& i == 0 ==> t[0] == s[0].plus(term(a, b, 0, 0)) && t[1] == s[1].plus(
                term(a, b, 0, 1),
            ) && t[2] == s[2].plus(term(a, b, 0, 2)) && t[3] == s[3].plus(term(a, b, 0, 3))
            &&& i == 1 ==> t[0] == s[0].plus(term(a, b, 1, 3)) && t[1] == s[1].plus(
                term(a, b, 1, 0),
            ) && t[2] == s[2].plus(term(a, b, 1, 1)) && t[3] == s[3].plus(term(a, b, 1, 2))
            &&& i == 2 ==> t[0] == s[0].plus(term(a, b, 2, 2)) && t[1] == s[1].plus(
                term(a, b, 2, 3),
            ) && t[2] == s[2].plus(term(a, b, 2, 0)) && t[3] == s[3].plus(term(a, b, 2, 1))
            &&& i == 3 ==> t[0] == s[0].plus(term(a, b, 3, 1)) && t[1] == s[1].plus(
                term(a, b, 3, 2),
            ) && t[2] == s[2].plus(term(a, b, 3, 3)) && t[3] == s[3].plus(term(a, b, 3, 0))
        }),
{
    lemma_product_len(a, b, (4 * i) as nat);
    let s = partial_product(a, b, (4 * i) as nat);
    let s1 = partial_product(a, b, (4 * i + 1) as nat);
    let s2 = partial_product(a, b, (4 * i + 2) as nat);
    let s3 = partial_product(a, b, (4 * i + 3) as nat);
    let s4 = partial_product(a, b, (4 * i + 4) as nat);
    assert((4 * i) / 4 == i && (4 * i) % 4 == 0);
    assert((4 * i + 1) / 4 == i && (4 * i + 1) % 4 == 1);
    assert((4 * i + 2) / 4 == i && (4 * i + 2) % 4 == 2);
    assert((4 * i + 3) / 4 == i && (4 * i + 3) % 4 == 3);
    let at = |j: int|
        if i + j >= 4 {
            i + j - 4
        } else {
            i + j
        };
    assert(s1 == s.update(at(0), s[at(0)].plus(term(a, b, i, 0))));
    assert(s2 == s1.update(at(1), s1[at(1)].plus(term(a, b, i, 1))));
    assert(s3 == s2.update(at(2), s2[at(2)].plus(term(a, b, i, 2))));
    assert(s4 == s3.update(at(3), s3[at(3)].plus(term(a, b, i, 3))));
}

proof fn lemma_product_len(a: Seq<Felt>, b: Seq<Felt>, n: nat)
    requires
        n <= 16,
    ensures
        partial_product(a, b, n).len() == 4,
    decreases n,
{
    if n > 0 {
        lemma_product_len(a, b, (n - 1) as nat);
    }
}

/// The number of instructions for the first `n` products.
spec fn product_cost(n: nat) -> nat
    decreases n,
{
    if n == 0 {
        0
    } else {
        product_cost((n - 1) as nat) + if (n - 1) / 4 + (n - 1) % 4 >= 4 {
            3nat
        } else {
            2nat
        }
    }
}

proof fn lemma_product_cost()
    ensures
        product_cost(16) == 38,
{
    reveal_with_fuel(product_cost, 17);
}

/// Products and sums of residues.
proof fn lemma_felt_ops(x: int, y: int)
    ensures
        babybear::felt(x).plus(babybear::felt(y)) == babybear::felt(x + y),
        babybear::felt(x).times(babybear::felt(y)) == babybear::felt(x * y),
{
    lemma_add_mod_noop(x, y, P as int);
    lemma_mul_mod_noop(x, y, P as int);
}

proof fn lemma_wrapped_term(a: Felt, b: Felt)
    ensures
        a.times(Felt { value: 11 }).times(b) == babybear::felt(11 * (a.value * b.value)),
{
    lemma_mul_mod_noop_left(a.value * 11, b.value as int, P as int);
    assert((a.value * 11) * b.value == 11 * (a.value * b.value)) by (nonlinear_arith);
}

proof fn lemma_four_terms(x: int, y: int, z: int, w: int)
    ensures
        Felt::zero_spec().plus(babybear::felt(x)).plus(babybear::felt(y)).plus(
            babybear::felt(z),
        ).plus(babybear::felt(w)) == babybear::felt(x + y + z + w),
{
    lemma_felt_ops(0, x);
    lemma_felt_ops(x, y);
    lemma_felt_ops(x + y, z);
    lemma_felt_ops(x + y + z, w);
    assert(Felt::zero_spec() == babybear::felt(0));
}

/// Each coordinate of a product is the sum of four of the sixteen products.
proof fn lemma_product_rows(a: Seq<Felt>, b: Seq<Felt>)
    ensures
        ({
            let z = Felt::zero_spec();
            let s = partial_product(a, b, 16);
            let t = |i: int, j: int| term(a, b, i, j);
            &&& s.len() == 4
            &&& s[0] == z.plus(t(0, 0)).plus(t(1, 3)).plus(t(2, 2)).plus(t(3, 1))
            &&& s[1] == z.plus(t(0, 1)).plus(t(1, 0)).plus(t(2, 3)).plus(t(3, 2))
            &&& s[2] == z.plus(t(0, 2)).plus(t(1, 1)).plus(t(2, 0)).plus(t(3, 3))
            &&& s[3] == z.plus(t(0, 3)).plus(t(1, 2)).plus(t(2, 1)).plus(t(3, 0))
        }),
{
    lemma_product_row(a, b, 0);
    lemma_product_row(a, b, 1);
    lemma_product_row(a, b, 2);
    lemma_product_row(a, b, 3);
}

#[verifier::spinoff_prover]
proof fn lemma_coordinate_0(a: Ext, b: Ext)
    ensures
        ({
            let z = Felt::zero_spec();
            let t = |i: int, j: int| term(coordinates(a), coordinates(b), i, j);
            z.plus(t(0, 0)).plus(t(1, 3)).plus(t(2, 2)).plus(t(3, 1)) == a.times(b).c0
        }),
{
    let (a0, a1, a2, a3) = (a.c0.value as int, a.c1.value as int, a.c2.value as int, a.c3.value as int);
    let (b0, b1, b2, b3) = (b.c0.value as int, b.c1.value as int, b.c2.value as int, b.c3.value as int);
    lemma_wrapped_term(a.c1, b.c3);
    lemma_wrapped_term(a.c2, b.c2);
    lemma_wrapped_term(a.c3, b.c1);
    lemma_four_terms(a0 * b0, 11 * (a1 * b3), 11 * (a2 * b2), 11 * (a3 * b1));
}

#[verifier::spinoff_prover]
proof fn lemma_coordinate_1(a: Ext, b: Ext)
    ensures
        ({
            let z = Felt::zero_spec();
            let t = |i: int, j: int| term(coordinates(a), coordinates(b), i, j);
            z.plus(t(0, 1)).plus(t(1, 0)).plus(t(2, 3)).plus(t(3, 2)) == a.times(b).c1
        }),
{
    let (a0, a1, a2, a3) = (a.c0.value as int, a.c1.value as int, a.c2.value as int, a.c3.value as int);
    let (b0, b1, b2, b3) = (b.c0.value as int, b.c1.value as int, b.c2.value as int, b.c3.value as int);
    lemma_wrapped_term(a.c2, b.c3);
    lemma_wrapped_term(a.c3, b.c2);
    lemma_four_terms(a0 * b1, a1 * b0, 11 * (a2 * b3), 11 * (a3 * b2));
}

#[verifier::spinoff_prover]
proof fn lemma_coordinate_2(a: Ext, b: Ext)
    ensures
        ({
            let z = Felt::zero_spec();
            let t = |i: int, j: int| term(coordinates(a), coordinates(b), i, j);
            z.plus(t(0, 2)).plus(t(1, 1)).plus(t(2, 0)).plus(t(3, 3)) == a.times(b).c2
        }),
{
    let (a0, a1, a2, a3) = (a.c0.value as int, a.c1.value as int, a.c2.value as int, a.c3.value as int);
    let (b0, b1, b2, b3) = (b.c0.value as int, b.c1.value as int, b.c2.value as int, b.c3.value as int);
    lemma_wrapped_term(a.c3, b.c3);
    lemma_four_terms(a0 * b2, a1 * b1, a2 * b0, 11 * (a3 * b3));
}

#[verifier::spinoff_prover]
proof fn lemma_coordinate_3(a: Ext, b: Ext)
    ensures
        ({
            let z = Felt::zero_spec();
            let t = |i: int, j: int| term(coordinates(a), coordinates(b), i, j);
            z.plus(t(0, 3)).plus(t(1, 2)).plus(t(2, 1)).plus(t(3, 0)) == a.times(b).c3
        }),
{
    let (a0, a1, a2, a3) = (a.c0.value as int, a.c1.value as int, a.c2.value as int, a.c3.value as int);
    let (b0, b1, b2, b3) = (b.c0.value as int, b.c1.value as int, b.c2.value as int, b.c3.value as int);
    lemma_four_terms(a0 * b3, a1 * b2, a2 * b1, a3 * b0);
}

/// The sixteen products make up the product.
proof fn lemma_partial_product(a: Ext, b: Ext)
    ensures
        partial_product(coordinates(a), coordinates(b), 16) == coordinates(a.times(b)),
{
    lemma_product_rows(coordinates(a), coordinates(b));
    lemma_coordinate_0(a, b);
    lemma_coordinate_1(a, b);
    lemma_coordinate_2(a, b);
    lemma_coordinate_3(a, b);
    assert(partial_product(coordinates(a), coordinates(b), 16) =~= coordinates(a.times(b)));
}

/// `acc + x y`.
fn add_product(ctx: &mut IrContext, acc: IrVal, x: IrVal, y: IrVal) -> (r: IrVal)
    requires
        old(ctx).well_formed(),
        old(ctx).addressable() ==> old(ctx).holds(acc.0) && old(ctx).holds(x.0) && old(ctx).holds(
            y.0,
        ),
    ensures
        final(ctx).continues(*old(ctx)),
        final(ctx).count() == old(ctx).count() + 2,
        final(ctx).num_loads() == old(ctx).num_loads(),
        (final(ctx).tape(), r) == ({
            let (t, p) = old(ctx).tape().record(OP_MUL, x.0, y.0);
            t.record(OP_ADD, acc.0, p.0)
        }),
        final(ctx).addressable() ==> old(ctx).addressable() && final(ctx).holds(r.0) && forall|
            env: Window,
        | #[trigger]
            final(ctx).value(env, r.0) == old(ctx).value(env, acc.0).plus(
                old(ctx).value(env, x.0).times(old(ctx).value(env, y.0)),
            ),
{
    let ghost s0 = *ctx;
    let t = x.mul(y, ctx);
    let ghost s1 = *ctx;
    proof {
        lemma_binary(t, s1, s0, OP_MUL, x.0, y.0);
    }
    let r = acc.add(t, ctx);
    proof {
        lemma_binary(r, *ctx, s1, OP_ADD, acc.0, t.0);
        lemma_continues_trans(*ctx, s1, s0);
        if ctx.addressable() {
            assert forall|env: Window| #[trigger] ctx.value(env, r.0) == s0.value(env, acc.0).plus(
                s0.value(env, x.0).times(s0.value(env, y.0)),
            ) by {
                assert(s1.value(env, acc.0) == s0.value(env, acc.0));
                assert(s1.value(env, t.0) == s0.value(env, x.0).times(s0.value(env, y.0)));
            }
        }
    }
    r
}

/// `acc + x y`, or `acc + x w y` where the power of `X` wraps around.
fn add_term(
    ctx: &mut IrContext,
    acc: IrVal,
    x: IrVal,
    y: IrVal,
    w: IrVal,
    wraps: bool,
) -> (r: IrVal)
    requires
        old(ctx).well_formed(),
        old(ctx).addressable() ==> old(ctx).holds(acc.0) && old(ctx).holds(x.0) && old(ctx).holds(
            y.0,
        ) && old(ctx).holds(w.0),
    ensures
        final(ctx).continues(*old(ctx)),
        final(ctx).count() == old(ctx).count() + if wraps {
            3int
        } else {
            2
        },
        final(ctx).num_loads() == old(ctx).num_loads(),
        (final(ctx).tape(), r) == ({
            let (t, v) = if wraps {
                old(ctx).tape().record(OP_MUL, x.0, w.0)
            } else {
                (old(ctx).tape(), x)
            };
            let (t, p) = t.record(OP_MUL, v.0, y.0);
            t.record(OP_ADD, acc.0, p.0)
        }),
        final(ctx).addressable() ==> old(ctx).addressable() && final(ctx).holds(r.0) && forall|
            env: Window,
        | #[trigger]
            final(ctx).value(env, r.0) == old(ctx).value(env, acc.0).plus(
                (if wraps {
                    old(ctx).value(env, x.0).times(old(ctx).value(env, w.0))
                } else {
                    old(ctx).value(env, x.0)
                }).times(old(ctx).value(env, y.0)),
            ),
{
    let ghost s0 = *ctx;
    let v: IrVal = if wraps {
        x.mul(w, ctx)
    } else {
        x
    };
    let ghost s1 = *ctx;
    proof {
        if wraps {
            lemma_binary(v, s1, s0, OP_MUL, x.0, w.0);
        }
    }
    let r = add_product(ctx, acc, v, y);
    proof {
        lemma_continues_trans(*ctx, s1, s0);
        if ctx.addressable() {
            assert forall|env: Window| #[trigger] ctx.value(env, r.0) == s0.value(env, acc.0).plus(
                (if wraps {
                    s0.value(env, x.0).times(s0.value(env, w.0))
                } else {
                    s0.value(env, x.0)
                }).times(s0.value(env, y.0)),
            ) by {
                assert(s1.value(env, acc.0) == s0.value(env, acc.0));
                assert(s1.value(env, y.0) == s0.value(env, y.0));
                if wraps {
                    assert(s1.value(env, v.0) == s0.value(env, x.0).times(s0.value(env, w.0)));
                }
            }
        }
    }
    r
}

impl IrExtVal {
    /// The coordinates.
    pub fn to_vec(self) -> (r: Vec<IrVal>)
        ensures
            r@ == seq![self.c0, self.c1, self.c2, self.c3],
    {
        let mut r: Vec<IrVal> = Vec::new();
        r.push(self.c0);
        r.push(self.c1);
        r.push(self.c2);
        r.push(self.c3);
        assert(r@ =~= seq![self.c0, self.c1, self.c2, self.c3]);
        r
    }

    /// The product, as the sixteen products of coordinates.
    pub fn mul(self, rhs: Self, ctx: &mut IrContext) -> (r: Self)
        requires
            old(ctx).well_formed(),
            old(ctx).addressable() ==> self.held_by(*old(ctx)) && rhs.held_by(*old(ctx)),
        ensures
            (final(ctx).tape(), r) == old(ctx).tape().product(self, rhs),
            r.results(
                *final(ctx),
                *old(ctx),
                43,
                |env: Window| self.value(*old(ctx), env).times(rhs.value(*old(ctx), env)),
            ),
    {
        let ghost s0 = *ctx;
        let w = IrVal::from_f(ctx, Felt { value: 11 });
        let ghost s1 = *ctx;
        proof {
            lemma_constant(w, s1, s0, 11);
        }
        let zeros = Self::from_f(ctx, Ext::from_base(Felt { value: 0 }));
        let ghost t1 = ctx.tape();
        let mut res: Vec<IrVal> = zeros.to_vec();
        let a: Vec<IrVal> = self.to_vec();
        let b: Vec<IrVal> = rhs.to_vec();
        proof {
            lemma_continues_trans(*ctx, s1, s0);
            if ctx.addressable() {
                assert forall|env: Window, k: int| 0 <= k < 4 implies #[trigger] ctx.value(
                    env,
                    res@[k].0,
                ) == partial_product(
                    coordinates(self.value(s0, env)),
                    coordinates(rhs.value(s0, env)),
                    0,
                )[k] by {
                    assert(zeros.value(*ctx, env) == ring::reduced(ext::embed(Felt { value: 0 })));
                }
                assert forall|env: Window| #[trigger] ctx.value(env, w.0) == (Felt { value: 11 }) by {
                    assert(ctx.value(env, w.0) == s1.value(env, w.0));
                }
            }
        }
        let mut n: usize = 0;
        while n < 16
            invariant
                n <= 16,
                ctx.continues(s0),
                ctx.count() == s0.count() + 5 + product_cost(n as nat),
                ctx.num_loads() == s0.num_loads(),
                (ctx.tape(), res@) == t1.products(a@, b@, w, zeros.registers(), n as nat),
                ctx.addressable() ==> s0.addressable(),
                s0.addressable() ==> self.held_by(s0) && rhs.held_by(s0),
                a@ == seq![self.c0, self.c1, self.c2, self.c3],
                b@ == seq![rhs.c0, rhs.c1, rhs.c2, rhs.c3],
                res@.len() == 4,
                ctx.addressable() ==> ctx.holds(w.0) && forall|env: Window| #[trigger]
                    ctx.value(env, w.0) == (Felt { value: 11 }),
                ctx.addressable() ==> forall|k: int|
                    0 <= k < 4 ==> ctx.holds((#[trigger] res@[k]).0),
                ctx.addressable() ==> forall|env: Window, k: int|
                    0 <= k < 4 ==> #[trigger] ctx.value(env, res@[k].0) == partial_product(
                        coordinates(self.value(s0, env)),
                        coordinates(rhs.value(s0, env)),
                        n as nat,
                    )[k],
            decreases 16 - n,
        {
            let i: usize = n / 4;
            let j: usize = n % 4;
            let wraps: bool = i + j >= 4;
            let k: usize = if wraps {
                i + j - 4
            } else {
                i + j
            };
            let ghost s2 = *ctx;
            let ghost res0 = res@;
            let sum: IrVal = add_term(ctx, res[k], a[i], b[j], w, wraps);
            res.set(k, sum);
            n = n + 1;
            proof {
                lemma_continues_trans(*ctx, s2, s0);
                if ctx.addressable() {
                    assert forall|env: Window| #[trigger] ctx.value(env, w.0) == (Felt {
                        value: 11,
                    }) by {
                        assert(ctx.value(env, w.0) == s2.value(env, w.0));
                    }
                    assert forall|q: int| 0 <= q < 4 implies ctx.holds(
                        (#[trigger] res@[q]).0,
                    ) by {
                        if q != k {
                            assert(res@[q] == res0[q]);
                        }
                    }
                    assert forall|env: Window, q: int| 0 <= q < 4 implies #[trigger] ctx.value(
                        env,
                        res@[q].0,
                    ) == partial_product(
                        coordinates(self.value(s0, env)),
                        coordinates(rhs.value(s0, env)),
                        n as nat,
                    )[q] by {
                        let (f, g) = (
                            coordinates(self.value(s0, env)),
                            coordinates(rhs.value(s0, env)),
                        );
                        lemma_product_len(f, g, (n - 1) as nat);
                        assert(s2.value(env, a@[i as int].0) == s0.value(env, a@[i as int].0));
                        assert(s2.value(env, b@[j as int].0) == s0.value(env, b@[j as int].0));
                        assert(f[i as int] == s0.value(env, a@[i as int].0));
                        assert(g[j as int] == s0.value(env, b@[j as int].0));
                        if q == k {
                            assert(s2.value(env, w.0) == (Felt { value: 11 }));
                            assert(res@[q] == sum);
                        } else {
                            assert(res@[q] == res0[q]);
                            assert(ctx.value(env, res0[q].0) == s2.value(env, res0[q].0));
                        }
                    }
                }
            }
        }
        let r = IrExtVal { c0: res[0], c1: res[1], c2: res[2], c3: res[3] };
        proof {
            lemma_product_cost();
            if ctx.addressable() {
                assert(ctx.holds(res@[0].0) && ctx.holds(res@[1].0));
                assert(ctx.holds(res@[2].0) && ctx.holds(res@[3].0));
                assert forall|env: Window| #[trigger] r.value(*ctx, env) == self.value(
                    s0,
                    env,
                ).times(rhs.value(s0, env)) by {
                    lemma_partial_product(self.value(s0, env), rhs.value(s0, env));
                    assert(ctx.value(env, res@[0].0) == coordinates(r.value(*ctx, env))[0]);
                    assert(ctx.value(env, res@[1].0) == coordinates(r.value(*ctx, env))[1]);
                    assert(ctx.value(env, res@[2].0) == coordinates(r.value(*ctx, env))[2]);
                    assert(ctx.value(env, res@[3].0) == coordinates(r.value(*ctx, env))[3]);
                    let p = coordinates(self.value(s0, env).times(rhs.value(s0, env)));
                    assert(p[0] == coordinates(r.value(*ctx, env))[0]);
                    assert(p[1] == coordinates(r.value(*ctx, env))[1]);
                    assert(p[2] == coordinates(r.value(*ctx, env))[2]);
                    assert(p[3] == coordinates(r.value(*ctx, env))[3]);
                }
            }
        }
        r
    }
}

/// The sum of two lists of values in a row is that of the first plus that of the second, and the product
/// that of the first times that of the second; of one value, both are the value.
pub proof fn law_sums_and_products(xs: Seq<Felt>, ys: Seq<Felt>)
    ensures
        sum_of(xs + ys, (xs + ys).len()) == sum_of(xs, xs.len()).plus(sum_of(ys, ys.len())),
        product_of(xs + ys, (xs + ys).len()) == product_of(xs, xs.len()).times(
            product_of(ys, ys.len()),
        ),
        xs.len() == 1 ==> sum_of(xs, 1) == ring::reduced(xs[0]) && product_of(xs, 1)
            == ring::reduced(xs[0]),
        xs.len() == 0 ==> sum_of(xs, 0) == Felt::zero_spec() && product_of(xs, 0)
            == Felt::one_spec(),
    decreases ys.len(),
{
    reveal_with_fuel(sum_of, 2);
    reveal_with_fuel(product_of, 2);
    Felt::law_constants();
    lemma_totals_reduced(xs, xs.len());
    let (s, p) = (sum_of(xs, xs.len()), product_of(xs, xs.len()));
    if xs.len() == 1 {
        ring::lemma_zero_left(xs[0]);
        Felt::law_mul_comm(Felt::one_spec(), xs[0]);
        ring::lemma_mul_one(xs[0]);
    }
    if ys.len() == 0 {
        assert(xs + ys =~= xs);
        Felt::law_add_comm(s, Felt::zero_spec());
        ring::lemma_zero_left(s);
        ring::lemma_mul_one(p);
    } else {
        let rest = ys.drop_last();
        let y = ys.last();
        law_sums_and_products(xs, rest);
        lemma_totals_prefix(xs + ys, xs + rest, (xs + rest).len());
        lemma_totals_prefix(ys, rest, rest.len());
        assert((xs + ys).last() == y);
        Felt::law_add_assoc(s, sum_of(rest, rest.len()), y);
        Felt::law_mul_assoc(p, product_of(rest, rest.len()), y);
    }
}

proof fn lemma_totals_reduced(xs: Seq<Felt>, n: nat)
    requires
        n <= xs.len(),
    ensures
        ring::reduced(sum_of(xs, n)) == sum_of(xs, n),
        ring::reduced(product_of(xs, n)) == product_of(xs, n),
{
    Felt::law_constants();
    if n > 0 {
        ring::lemma_add_reduced(sum_of(xs, (n - 1) as nat), xs[n - 1]);
        ring::lemma_mul_reduced(product_of(xs, (n - 1) as nat), xs[n - 1]);
    }
}

proof fn lemma_totals_prefix(xs: Seq<Felt>, ys: Seq<Felt>, n: nat)
    requires
        n <= xs.len(),
        n <= ys.len(),
        forall|i: int| 0 <= i < n ==> xs[i] == ys[i],
    ensures
        sum_of(xs, n) == sum_of(ys, n),
        product_of(xs, n) == product_of(ys, n),
    decreases n,
{
    if n > 0 {
        lemma_totals_prefix(xs, ys, (n - 1) as nat);
    }
}

} // verus!
