//! What a recording of constraints consists of, instruction by instruction.

use vstd::prelude::*;
use crate::babybear::Felt;
use crate::builder::SepticDigest;
use crate::constraints;
use crate::ext::Ext;
use crate::ir;
use crate::ir::{IrExtVal, IrVal, Tape};
use crate::lookup::{Interaction, InteractionScope, PairCol, VirtualPairCol};
use crate::permutation;
use crate::program::{
    OP_ADD, OP_LOAD_MAIN_LOCAL, OP_LOAD_MAIN_NEXT, OP_LOAD_PERM_LOCAL, OP_LOAD_PERM_NEXT,
    OP_LOAD_PREP_LOCAL, OP_LOAD_PREP_NEXT, OP_LOAD_SELECTOR, OP_MUL, OP_NEG, OP_SUB, SEL_IS_FIRST_ROW,
    SEL_IS_LAST_ROW, SEL_IS_TRANSITION,
};
use crate::ring;
use crate::ring::Ring;

verus! {

/// The registers that a recording starts with, row by row.
#[verifier::ext_equal]
pub struct Registers {
    pub prep: Seq<IrVal>,
    pub prep_width: usize,
    pub main: Seq<IrVal>,
    pub main_width: usize,
    pub perm: Seq<IrExtVal>,
    pub perm_width: usize,
    pub first_row: IrVal,
    pub last_row: IrVal,
    pub transition: IrVal,
    pub challenges: Seq<IrExtVal>,
    pub local_sum: IrExtVal,
    pub alpha: IrExtVal,
}

/// A recording: the instructions, the registers of the accumulator and those of the start.
#[verifier::ext_equal]
pub struct Recording {
    pub tape: Tape,
    pub accumulator: IrExtVal,
    pub registers: Registers,
}

/// A recording without constraints: the loads of the rows and selectors, the constants, and an
/// accumulator that is zero.
pub open spec fn start(
    prep_width: usize,
    main_width: usize,
    perm_width: usize,
    challenges: Seq<Ext>,
    local_sum: Ext,
    alpha: Ext,
) -> Recording {
    let t0 = Tape { words: Seq::empty(), next: 0 };
    let (t1, prep) = t0.rows(OP_LOAD_PREP_LOCAL, OP_LOAD_PREP_NEXT, prep_width as nat);
    let (t2, main) = t1.rows(OP_LOAD_MAIN_LOCAL, OP_LOAD_MAIN_NEXT, main_width as nat);
    let (t3, perm) = t2.rows(OP_LOAD_PERM_LOCAL, OP_LOAD_PERM_NEXT, 4 * perm_width as nat);
    let (t4, first_row) = t3.record(OP_LOAD_SELECTOR, SEL_IS_FIRST_ROW, 0);
    let (t5, last_row) = t4.record(OP_LOAD_SELECTOR, SEL_IS_LAST_ROW, 0);
    let (t6, transition) = t5.record(OP_LOAD_SELECTOR, SEL_IS_TRANSITION, 0);
    let (t7, alpha) = t6.constants(alpha);
    let (t8, challenges) = t7.all_constants(challenges, challenges.len());
    let (t9, local_sum) = t8.constants(local_sum);
    let (tape, accumulator) = t9.from_felt(Felt { value: 0 });
    let registers = Registers {
        prep,
        prep_width,
        main,
        main_width,
        perm: ir::in_fours(perm, 2 * perm_width as nat),
        perm_width,
        first_row,
        last_row,
        transition,
        challenges,
        local_sum,
        alpha,
    };
    Recording { tape, accumulator, registers }
}

impl Recording {
    /// The registers of the accumulator.
    pub open spec fn accs(self) -> Seq<u32> {
        seq![self.accumulator.c0.0, self.accumulator.c1.0, self.accumulator.c2.0, self.accumulator.c3.0]
    }

    /// The number of instructions.
    pub open spec fn count(self) -> nat {
        self.tape.words.len() / 4
    }

    pub open spec fn main_local(self, i: int) -> IrVal {
        self.registers.main[i]
    }

    pub open spec fn main_next(self, i: int) -> IrVal {
        self.registers.main[self.registers.main_width + i]
    }

    pub open spec fn prep_local(self, i: int) -> IrVal {
        self.registers.prep[i]
    }

    pub open spec fn prep_next(self, i: int) -> IrVal {
        self.registers.prep[self.registers.prep_width + i]
    }

    pub open spec fn perm_local(self, i: int) -> IrExtVal {
        self.registers.perm[i]
    }

    pub open spec fn perm_next(self, i: int) -> IrExtVal {
        self.registers.perm[self.registers.perm_width + i]
    }

    pub open spec fn first_row(self) -> IrVal {
        self.registers.first_row
    }

    pub open spec fn last_row(self) -> IrVal {
        self.registers.last_row
    }

    pub open spec fn transition(self) -> IrVal {
        self.registers.transition
    }

    pub open spec fn challenge(self, i: int) -> IrExtVal {
        self.registers.challenges[i]
    }

    pub open spec fn local_sum(self) -> IrExtVal {
        self.registers.local_sum
    }

    pub open spec fn on(self, tape: Tape) -> Recording {
        Recording { tape, ..self }
    }

    #[verifier::opaque]
    pub open spec fn constant(self, c: Felt) -> (Recording, IrVal) {
        let (t, r) = self.tape.constant(c);
        (self.on(t), r)
    }

    #[verifier::opaque]
    pub open spec fn add(self, a: IrVal, b: IrVal) -> (Recording, IrVal) {
        let (t, r) = self.tape.record(OP_ADD, a.0, b.0);
        (self.on(t), r)
    }

    #[verifier::opaque]
    pub open spec fn sub(self, a: IrVal, b: IrVal) -> (Recording, IrVal) {
        let (t, r) = self.tape.record(OP_SUB, a.0, b.0);
        (self.on(t), r)
    }

    #[verifier::opaque]
    pub open spec fn mul(self, a: IrVal, b: IrVal) -> (Recording, IrVal) {
        let (t, r) = self.tape.record(OP_MUL, a.0, b.0);
        (self.on(t), r)
    }

    #[verifier::opaque]
    pub open spec fn neg(self, a: IrVal) -> (Recording, IrVal) {
        let (t, r) = self.tape.record(OP_NEG, a.0, 0);
        (self.on(t), r)
    }

    #[verifier::opaque]
    pub open spec fn constant_ef(self, c: Felt) -> (Recording, IrExtVal) {
        let (t, r) = self.tape.from_felt(c);
        (self.on(t), r)
    }

    #[verifier::opaque]
    pub open spec fn from_base(self, a: IrVal) -> (Recording, IrExtVal) {
        let (t, r) = self.tape.from_base(a);
        (self.on(t), r)
    }

    #[verifier::opaque]
    pub open spec fn add_ef(self, a: IrExtVal, b: IrExtVal) -> (Recording, IrExtVal) {
        let (t, r) = self.tape.each(OP_ADD, a, b);
        (self.on(t), r)
    }

    #[verifier::opaque]
    pub open spec fn sub_ef(self, a: IrExtVal, b: IrExtVal) -> (Recording, IrExtVal) {
        let (t, r) = self.tape.each(OP_SUB, a, b);
        (self.on(t), r)
    }

    #[verifier::opaque]
    pub open spec fn mul_ef(self, a: IrExtVal, b: IrExtVal) -> (Recording, IrExtVal) {
        let (t, r) = self.tape.product(a, b);
        (self.on(t), r)
    }

    #[verifier::opaque]
    pub open spec fn mul_ef_base(self, a: IrExtVal, b: IrVal) -> (Recording, IrExtVal) {
        let (t, r) = self.tape.each(OP_MUL, a, IrExtVal { c0: b, c1: b, c2: b, c3: b });
        (self.on(t), r)
    }

    /// The accumulator times `alpha`, plus a BabyBear value.
    #[verifier::opaque]
    pub open spec fn assert_zero(self, a: IrVal) -> Recording {
        let (t, scaled) = self.tape.product(self.accumulator, self.registers.alpha);
        let (tape, accumulator) = t.add_base(scaled, a);
        Recording { tape, accumulator, ..self }
    }

    /// The accumulator times `alpha`, plus an extension value.
    #[verifier::opaque]
    pub open spec fn assert_zero_ext(self, a: IrExtVal) -> Recording {
        let (t, scaled) = self.tape.product(self.accumulator, self.registers.alpha);
        let (tape, accumulator) = t.each(OP_ADD, scaled, a);
        Recording { tape, accumulator, ..self }
    }

    /// A column of the local row.
    pub open spec fn column(self, col: PairCol) -> IrVal {
        match col {
            PairCol::Preprocessed(i) => self.prep_local(i as int),
            PairCol::Main(i) => self.main_local(i as int),
        }
    }

    /// The constant of an affine function, and its first `n` weighted columns added one by one; a
    /// column of weight one is added as it is.
    pub open spec fn apply(self, col: VirtualPairCol, n: nat) -> (Recording, IrVal)
        decreases n,
    {
        if n == 0 {
            self.constant(col.constant)
        } else {
            let (s0, sum) = self.apply(col, (n - 1) as nat);
            let (pair, weight) = col.column_weights@[n - 1];
            if ring::reduced(weight) == Felt::one_spec() {
                s0.add(sum, s0.column(pair))
            } else {
                let (s1, w) = s0.constant(weight);
                let (s2, p) = s1.mul(s0.column(pair), w);
                s2.add(sum, p)
            }
        }
    }

    /// The first `n` powers of the second challenge, and the one after them.
    pub open spec fn powers(self, n: nat) -> (Recording, Seq<IrExtVal>, IrExtVal)
        decreases n,
    {
        if n == 0 {
            let (s, one) = self.constant_ef(Felt::one_spec());
            (s, Seq::empty(), one)
        } else {
            let (s0, r, current) = self.powers((n - 1) as nat);
            let (s1, next) = s0.mul_ef(current, self.challenge(1));
            (s1, r.push(current), next)
        }
    }

    /// The combination of an interaction's kind and its first `n` values.
    pub open spec fn rlc(
        self,
        msg: Interaction,
        first: IrExtVal,
        powers: Seq<IrExtVal>,
        n: nat,
    ) -> (Recording, IrExtVal)
        decreases n,
    {
        if n == 0 {
            let (s0, c) = self.constant_ef(Felt { value: msg.argument_index as u32 });
            let (s1, t) = s0.mul_ef(powers[0], c);
            s1.add_ef(first, t)
        } else {
            let (s0, r) = self.rlc(msg, first, powers, (n - 1) as nat);
            let col = msg.values@[n - 1];
            let (s1, x) = s0.apply(col, col.column_weights@.len());
            let (s2, t) = s1.mul_ef_base(powers[n as int], x);
            s2.add_ef(r, t)
        }
    }

    /// How often an interaction occurs, negative for a receive.
    pub open spec fn signed(self, msg: Interaction, is_send: bool) -> (Recording, IrVal) {
        let (s0, m) = self.apply(msg.multiplicity, msg.multiplicity.column_weights@.len());
        let (s1, c) = s0.constant(
            if is_send {
                Felt::one_spec()
            } else {
                Felt::one_spec().negated()
            },
        );
        s1.mul(m, c)
    }

    /// The combinations and multiplicities of `n` interactions from number `start` on.
    pub open spec fn batch_parts(
        self,
        sends: Seq<&Interaction>,
        receives: Seq<&Interaction>,
        start: int,
        first: IrExtVal,
        powers: Seq<IrExtVal>,
        n: nat,
    ) -> (Recording, Seq<IrExtVal>, Seq<IrVal>)
        decreases n,
    {
        if n == 0 {
            (self, Seq::empty(), Seq::empty())
        } else {
            let (s0, ds, ms) = self.batch_parts(
                sends,
                receives,
                start,
                first,
                powers,
                (n - 1) as nat,
            );
            let (msg, is_send) = permutation::nth(sends, receives, start + n - 1);
            let (s1, d) = s0.rlc(msg, first, powers, msg.values@.len());
            let (s2, m) = s1.signed(msg, is_send);
            (s2, ds.push(d), ms.push(m))
        }
    }

    /// The products of the first one, two, .. `n` values, and the last of them.
    pub open spec fn prefixes(self, ds: Seq<IrExtVal>, n: nat) -> (
        Recording,
        Seq<IrExtVal>,
        IrExtVal,
    )
        decreases n,
    {
        if n == 0 {
            let (s, one) = self.constant_ef(Felt::one_spec());
            (s, Seq::empty(), one)
        } else {
            let (s0, r, product) = self.prefixes(ds, (n - 1) as nat);
            let (s1, next) = s0.mul_ef(product, ds[n - 1]);
            (s1, r.push(next), next)
        }
    }

    /// The products of the last one, two, .. `n` values, each in the place of its first factor,
    /// and the last product.
    pub open spec fn suffixes(self, ds: Seq<IrExtVal>, n: nat) -> (
        Recording,
        Seq<IrExtVal>,
        IrExtVal,
    )
        decreases n,
    {
        if n == 0 {
            let (s0, unit) = self.constant_ef(Felt::one_spec());
            let (s1, one) = s0.constant_ef(Felt::one_spec());
            (s1, Seq::new(ds.len(), |i: int| unit), one)
        } else {
            let (s0, r, product) = self.suffixes(ds, (n - 1) as nat);
            let i = ds.len() - n;
            let (s1, next) = s0.mul_ef(product, ds[i]);
            (s1, r.update(i, next), next)
        }
    }

    /// The first `n` multiplicities, each times the products before and after it, added up.
    pub open spec fn cross_sum(
        self,
        prefix: Seq<IrExtVal>,
        suffix: Seq<IrExtVal>,
        ms: Seq<IrVal>,
        n: nat,
    ) -> (Recording, IrExtVal)
        decreases n,
    {
        if n == 0 {
            self.constant_ef(Felt::zero_spec())
        } else {
            let (s0, r) = self.cross_sum(prefix, suffix, ms, (n - 1) as nat);
            let i = n - 1;
            let (s1, others) = if i == 0 {
                (s0, suffix[1])
            } else if i + 1 == ms.len() {
                (s0, prefix[i - 1])
            } else {
                s0.mul_ef(prefix[i - 1], suffix[i + 1])
            };
            let (s2, m) = s1.from_base(ms[i]);
            let (s3, t) = s2.mul_ef(m, others);
            s3.add_ef(r, t)
        }
    }

    /// The product of the combinations, and the numerator over it.
    pub open spec fn ratio(self, ds: Seq<IrExtVal>, ms: Seq<IrVal>) -> (
        Recording,
        IrExtVal,
        IrExtVal,
    ) {
        if ds.len() == 1 {
            let (s, num) = self.from_base(ms[0]);
            (s, ds[0], num)
        } else if ds.len() == 2 {
            let (s0, product) = self.mul_ef(ds[0], ds[1]);
            let (s1, m0) = s0.from_base(ms[0]);
            let (s2, t0) = s1.mul_ef(m0, ds[1]);
            let (s3, m1) = s2.from_base(ms[1]);
            let (s4, t1) = s3.mul_ef(m1, ds[0]);
            let (s5, num) = s4.add_ef(t0, t1);
            (s5, product, num)
        } else {
            let (s0, prefix, product) = self.prefixes(ds, ds.len());
            let (s1, suffix, all) = s0.suffixes(ds, ds.len());
            let (s2, num) = s1.cross_sum(prefix, suffix, ms, ms.len());
            (s2, product, num)
        }
    }

    /// The constraint of batch `c`.
    pub open spec fn assert_batch(
        self,
        sends: Seq<&Interaction>,
        receives: Seq<&Interaction>,
        batch_size: nat,
        c: int,
        first: IrExtVal,
        powers: Seq<IrExtVal>,
    ) -> Recording {
        let (s0, ds, ms) = self.batch_parts(
            sends,
            receives,
            c * batch_size,
            first,
            powers,
            permutation::batch_len(sends.len() + receives.len(), batch_size, c),
        );
        let (s1, product, numerator) = s0.ratio(ds, ms);
        let (s2, scaled) = s1.mul_ef(product, s1.perm_local(c));
        let (s3, diff) = s2.sub_ef(scaled, numerator);
        s3.assert_zero_ext(diff)
    }

    /// The constraints of the first `n` batches.
    pub open spec fn assert_batches(
        self,
        sends: Seq<&Interaction>,
        receives: Seq<&Interaction>,
        batch_size: nat,
        first: IrExtVal,
        powers: Seq<IrExtVal>,
        n: nat,
    ) -> Recording
        decreases n,
    {
        if n == 0 {
            self
        } else {
            self.assert_batches(
                sends,
                receives,
                batch_size,
                first,
                powers,
                (n - 1) as nat,
            ).assert_batch(sends, receives, batch_size, n - 1, first, powers)
        }
    }

    /// The sum of the first `n` entries of the local or the next row.
    pub open spec fn row_sum(self, next: bool, n: nat) -> (Recording, IrExtVal)
        decreases n,
    {
        if n == 0 {
            self.constant_ef(Felt::zero_spec())
        } else {
            let (s, r) = self.row_sum(next, (n - 1) as nat);
            s.add_ef(
                r,
                if next {
                    s.perm_next(n - 1)
                } else {
                    s.perm_local(n - 1)
                },
            )
        }
    }

    /// That two values are equal on the rows that a selector picks.
    pub open spec fn assert_eq_when(self, x: IrExtVal, y: IrExtVal, cond: IrVal) -> Recording {
        let (s0, diff) = self.sub_ef(x, y);
        let (s1, c) = s0.mul_ef_base(diff, cond);
        s1.assert_zero_ext(c)
    }

    /// That the running sum starts, goes on and ends as it should.
    pub open spec fn assert_sums(self, batches: nat) -> Recording {
        let (s0, sum_local) = self.row_sum(false, batches);
        let (s1, sum_next) = s0.row_sum(true, batches);
        let phi_local = s1.perm_local(batches as int);
        let phi_next = s1.perm_next(batches as int);
        let s2 = s1.assert_eq_when(phi_local, sum_local, s1.first_row());
        let (s3, step) = s2.sub_ef(phi_next, phi_local);
        let s4 = s3.assert_eq_when(step, sum_next, s3.transition());
        s4.assert_eq_when(phi_local, s4.local_sum(), s4.last_row())
    }

    /// That a column of the main trace holds a constant on the last row.
    pub open spec fn assert_last(self, col: int, value: Felt) -> Recording {
        let (s0, y) = self.constant(value);
        let (s1, d) = s0.sub(self.main_local(col), y);
        let (s2, c) = s1.mul(self.last_row(), d);
        s2.assert_zero(c)
    }

    /// That the last columns hold the first `n` pairs of coordinates of a digest on the last row.
    pub open spec fn assert_global(self, main_width: nat, digest: SepticDigest, n: nat) -> Recording
        decreases n,
    {
        if n == 0 {
            self
        } else {
            self.assert_global(main_width, digest, (n - 1) as nat).assert_last(
                main_width - 14 + (n - 1),
                digest.x@[n - 1],
            ).assert_last(main_width - 7 + (n - 1), digest.y@[n - 1])
        }
    }

    /// The constraints of the permutation argument.
    pub open spec fn assert_permutation(
        self,
        sends: Seq<&Interaction>,
        receives: Seq<&Interaction>,
        batch_size: nat,
        scope: InteractionScope,
        main_width: nat,
        digest: SepticDigest,
    ) -> Recording {
        let total = sends.len() + receives.len();
        let batches = permutation::ceil_div(total, batch_size);
        let s = if total == 0 {
            self
        } else {
            let (s0, powers, next) = self.powers(constraints::most_values(sends, receives) + 1);
            s0.assert_batches(
                sends,
                receives,
                batch_size,
                self.challenge(0),
                powers,
                batches,
            ).assert_sums(batches)
        };
        match scope {
            InteractionScope::Global => s.assert_global(main_width, digest, 7),
            InteractionScope::Local => s,
        }
    }
}

} // verus!
