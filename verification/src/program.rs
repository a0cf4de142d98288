//! Compiled constraint programs and the compaction of their registers.

use vstd::prelude::*;
use crate::babybear;
use crate::babybear::Felt;
use crate::ring::Ring;

verus! {

/// Load a Montgomery-form constant into dst.
pub const OP_CONST: u32 = 0;

/// dst = main_trace[row, arg0]
pub const OP_LOAD_MAIN_LOCAL: u32 = 1;

/// dst = main_trace[row + next_step, arg0]
pub const OP_LOAD_MAIN_NEXT: u32 = 2;

/// dst = prep_trace[row, arg0]
pub const OP_LOAD_PREP_LOCAL: u32 = 3;

/// dst = prep_trace[row + next_step, arg0]
pub const OP_LOAD_PREP_NEXT: u32 = 4;

/// dst = perm_trace[row, arg0]; each extension element has four columns.
pub const OP_LOAD_PERM_LOCAL: u32 = 5;

/// dst = perm_trace[row + next_step, arg0]
pub const OP_LOAD_PERM_NEXT: u32 = 6;

/// dst = selectors[row, arg0]
pub const OP_LOAD_SELECTOR: u32 = 7;

/// dst = regs[arg0] + regs[arg1]
pub const OP_ADD: u32 = 8;

/// dst = regs[arg0] - regs[arg1]
pub const OP_SUB: u32 = 9;

/// dst = regs[arg0] * regs[arg1]
pub const OP_MUL: u32 = 10;

/// dst = -regs[arg0]
pub const OP_NEG: u32 = 11;

/// Selector index of the first row.
pub const SEL_IS_FIRST_ROW: u32 = 0;

/// Selector index of the last row.
pub const SEL_IS_LAST_ROW: u32 = 1;

/// Selector index of the transition rows.
pub const SEL_IS_TRANSITION: u32 = 2;

/// The values that a program reads: the local and the next row of each trace, and the selectors.
#[verifier::ext_equal]
pub struct Window {
    pub prep_local: Seq<Felt>,
    pub prep_next: Seq<Felt>,
    pub main_local: Seq<Felt>,
    pub main_next: Seq<Felt>,
    /// Four entries per extension element.
    pub perm_local: Seq<Felt>,
    pub perm_next: Seq<Felt>,
    pub selectors: Seq<Felt>,
}

/// The inverse of `2^32`.
pub const MONTY_INVERSE: u32 = 943718400;

/// The element whose Montgomery form is `w`.
pub open spec fn from_monty(w: u32) -> Felt {
    babybear::felt(w * (MONTY_INVERSE as int))
}

pub open spec fn op_at(words: Seq<u32>, i: int) -> u32 {
    words[4 * i]
}

pub open spec fn dst_at(words: Seq<u32>, i: int) -> u32 {
    words[4 * i + 1]
}

pub open spec fn arg0_at(words: Seq<u32>, i: int) -> u32 {
    words[4 * i + 2]
}

pub open spec fn arg1_at(words: Seq<u32>, i: int) -> u32 {
    words[4 * i + 3]
}

/// Operations on two registers.
pub open spec fn is_binary(op: u32) -> bool {
    op == OP_ADD || op == OP_SUB || op == OP_MUL
}

/// Operations that read a row or the selectors.
pub open spec fn is_load(op: u32) -> bool {
    OP_LOAD_MAIN_LOCAL <= op <= OP_LOAD_SELECTOR
}

/// The number of loads among the first `n` instructions.
pub open spec fn count_loads(words: Seq<u32>, n: nat) -> nat
    decreases n,
{
    if n == 0 {
        0
    } else {
        count_loads(words, (n - 1) as nat) + if is_load(op_at(words, n - 1)) {
            1nat
        } else {
            0nat
        }
    }
}

/// Whether `n` instructions from number `start` on load the first columns, one after the other.
pub open spec fn load_run(words: Seq<u32>, start: int, op: u32, n: int) -> bool {
    forall|c: int|
        0 <= c < n ==> #[trigger] op_at(words, start + c) == op && arg0_at(words, start + c)
            == c as u32
}

/// The number of loads of two rows of each trace and the selectors.
pub open spec fn load_count(prep: int, main: int, perm: int) -> int {
    2 * prep + 2 * main + 2 * perm + 3
}

/// Whether the first instructions load the local and the next row of the preprocessed, the main
/// and the permutation trace, and the three selectors.
pub open spec fn loads_first(words: Seq<u32>, prep: int, main: int, perm: int) -> bool {
    &&& 4 * load_count(prep, main, perm) <= words.len()
    &&& load_run(words, 0, OP_LOAD_PREP_LOCAL, prep)
    &&& load_run(words, prep, OP_LOAD_PREP_NEXT, prep)
    &&& load_run(words, 2 * prep, OP_LOAD_MAIN_LOCAL, main)
    &&& load_run(words, 2 * prep + main, OP_LOAD_MAIN_NEXT, main)
    &&& load_run(words, 2 * prep + 2 * main, OP_LOAD_PERM_LOCAL, perm)
    &&& load_run(words, 2 * prep + 2 * main + perm, OP_LOAD_PERM_NEXT, perm)
    &&& load_run(words, 2 * prep + 2 * main + 2 * perm, OP_LOAD_SELECTOR, 3)
}

/// Whether no load occurs from instruction `start` on.
pub open spec fn no_loads_from(words: Seq<u32>, start: int) -> bool {
    forall|i: int| start <= i < words.len() / 4 ==> !is_load(#[trigger] op_at(words, i))
}

pub proof fn lemma_load_run(a: Seq<u32>, b: Seq<u32>, start: int, op: u32, n: int)
    requires
        load_run(a, start, op, n),
        0 <= start,
        4 * (start + n) <= a.len(),
        a.len() <= b.len(),
        forall|i: int| 0 <= i < a.len() / 4 ==> #[trigger] op_at(b, i) == op_at(a, i),
        forall|i: int| 0 <= i < a.len() / 4 && is_load(op_at(a, i)) ==> #[trigger] arg0_at(b, i) == arg0_at(a, i),
        is_load(op),
    ensures
        load_run(b, start, op, n),
{
    assert forall|c: int| 0 <= c < n implies #[trigger] op_at(b, start + c) == op && arg0_at(
        b,
        start + c,
    ) == c as u32 by {
        assert(op_at(a, start + c) == op);
        assert(arg0_at(b, start + c) == arg0_at(a, start + c));
    }
}

/// Loads keep their operation and column where a program is renamed.
pub proof fn lemma_loads_kept(a: Seq<u32>, b: Seq<u32>, prep: int, main: int, perm: int)
    requires
        loads_first(a, prep, main, perm),
        0 <= prep,
        0 <= main,
        0 <= perm,
        a.len() <= b.len(),
        forall|i: int| 0 <= i < a.len() / 4 ==> #[trigger] op_at(b, i) == op_at(a, i),
        forall|i: int| 0 <= i < a.len() / 4 && is_load(op_at(a, i)) ==> #[trigger] arg0_at(b, i) == arg0_at(a, i),
    ensures
        loads_first(b, prep, main, perm),
{
    lemma_load_run(a, b, 0, OP_LOAD_PREP_LOCAL, prep);
    lemma_load_run(a, b, prep, OP_LOAD_PREP_NEXT, prep);
    lemma_load_run(a, b, 2 * prep, OP_LOAD_MAIN_LOCAL, main);
    lemma_load_run(a, b, 2 * prep + main, OP_LOAD_MAIN_NEXT, main);
    lemma_load_run(a, b, 2 * prep + 2 * main, OP_LOAD_PERM_LOCAL, perm);
    lemma_load_run(a, b, 2 * prep + 2 * main + perm, OP_LOAD_PERM_NEXT, perm);
    lemma_load_run(a, b, 2 * prep + 2 * main + 2 * perm, OP_LOAD_SELECTOR, 3);
}

/// The first instructions stay the first.
pub proof fn lemma_loads_first(a: Seq<u32>, b: Seq<u32>, prep: int, main: int, perm: int)
    requires
        loads_first(a, prep, main, perm),
        0 <= prep,
        0 <= main,
        0 <= perm,
        a.is_prefix_of(b),
    ensures
        loads_first(b, prep, main, perm),
{
    assert(a == b.subrange(0, a.len() as int));
    assert forall|i: int| 0 <= i < a.len() implies #[trigger] b[i] == a[i] by {
        assert(b.subrange(0, a.len() as int)[i] == b[i]);
    }
    lemma_loads_kept(a, b, prep, main, perm);
}

proof fn lemma_loads_among(words: Seq<u32>, prep: int, main: int, perm: int, i: int)
    requires
        loads_first(words, prep, main, perm),
        0 <= prep,
        0 <= main,
        0 <= perm,
        0 <= i < load_count(prep, main, perm),
    ensures
        is_load(op_at(words, i)),
{
    if i < prep {
        assert(op_at(words, 0 + i) == OP_LOAD_PREP_LOCAL);
    } else if i < 2 * prep {
        assert(op_at(words, prep + (i - prep)) == OP_LOAD_PREP_NEXT);
    } else if i < 2 * prep + main {
        assert(op_at(words, 2 * prep + (i - 2 * prep)) == OP_LOAD_MAIN_LOCAL);
    } else if i < 2 * prep + 2 * main {
        assert(op_at(words, 2 * prep + main + (i - 2 * prep - main)) == OP_LOAD_MAIN_NEXT);
    } else if i < 2 * prep + 2 * main + perm {
        assert(op_at(words, 2 * prep + 2 * main + (i - 2 * prep - 2 * main)) == OP_LOAD_PERM_LOCAL);
    } else if i < 2 * prep + 2 * main + 2 * perm {
        assert(op_at(words, 2 * prep + 2 * main + perm + (i - 2 * prep - 2 * main - perm))
            == OP_LOAD_PERM_NEXT);
    } else {
        assert(op_at(words, 2 * prep + 2 * main + 2 * perm + (i - 2 * prep - 2 * main - 2 * perm))
            == OP_LOAD_SELECTOR);
    }
}

proof fn lemma_all_loads(words: Seq<u32>, n: nat)
    requires
        forall|i: int| 0 <= i < n ==> is_load(#[trigger] op_at(words, i)),
    ensures
        count_loads(words, n) == n,
    decreases n,
{
    if n > 0 {
        lemma_all_loads(words, (n - 1) as nat);
        assert(is_load(op_at(words, n - 1)));
    }
}

proof fn lemma_loads_grow(words: Seq<u32>, m: nat, n: nat, i: int)
    requires
        m <= i < n,
    ensures
        count_loads(words, n) >= count_loads(words, m) + if is_load(op_at(words, i)) {
            1nat
        } else {
            0nat
        },
    decreases n,
{
    if n - 1 > i {
        lemma_loads_grow(words, m, (n - 1) as nat, i);
    } else {
        lemma_loads_more(words, m, (n - 1) as nat);
    }
}

proof fn lemma_loads_more(words: Seq<u32>, m: nat, n: nat)
    requires
        m <= n,
    ensures
        count_loads(words, n) >= count_loads(words, m),
    decreases n,
{
    if m < n {
        lemma_loads_more(words, m, (n - 1) as nat);
    }
}

/// Where as many loads are recorded as the first instructions hold, there are no others.
pub proof fn lemma_no_other_loads(words: Seq<u32>, prep: int, main: int, perm: int)
    requires
        loads_first(words, prep, main, perm),
        0 <= prep,
        0 <= main,
        0 <= perm,
        count_loads(words, words.len() / 4) == load_count(prep, main, perm),
    ensures
        no_loads_from(words, load_count(prep, main, perm)),
{
    let k = load_count(prep, main, perm) as nat;
    assert forall|i: int| 0 <= i < k implies is_load(#[trigger] op_at(words, i)) by {
        lemma_loads_among(words, prep, main, perm, i);
    }
    lemma_all_loads(words, k);
    assert forall|i: int| k <= i < words.len() / 4 implies !is_load(
        #[trigger] op_at(words, i),
    ) by {
        lemma_loads_grow(words, k, words.len() / 4, i);
    }
}

/// Whether instruction `i` reads register `r`.
pub open spec fn reads(words: Seq<u32>, i: int, r: u32) -> bool {
    ||| is_binary(op_at(words, i)) && (arg0_at(words, i) == r || arg1_at(words, i) == r)
    ||| op_at(words, i) == OP_NEG && arg0_at(words, i) == r
}

/// What an instruction computes.
pub open spec fn instr_value(
    op: u32,
    arg0: u32,
    arg1: u32,
    regs: Map<u32, Felt>,
    env: Window,
) -> Felt {
    if op == OP_CONST {
        from_monty(arg0)
    } else if op == OP_LOAD_MAIN_LOCAL {
        env.main_local[arg0 as int]
    } else if op == OP_LOAD_MAIN_NEXT {
        env.main_next[arg0 as int]
    } else if op == OP_LOAD_PREP_LOCAL {
        env.prep_local[arg0 as int]
    } else if op == OP_LOAD_PREP_NEXT {
        env.prep_next[arg0 as int]
    } else if op == OP_LOAD_PERM_LOCAL {
        env.perm_local[arg0 as int]
    } else if op == OP_LOAD_PERM_NEXT {
        env.perm_next[arg0 as int]
    } else if op == OP_LOAD_SELECTOR {
        env.selectors[arg0 as int]
    } else if op == OP_ADD {
        regs[arg0].plus(regs[arg1])
    } else if op == OP_SUB {
        crate::ring::minus(regs[arg0], regs[arg1])
    } else if op == OP_MUL {
        regs[arg0].times(regs[arg1])
    } else if op == OP_NEG {
        regs[arg0].negated()
    } else {
        Felt::zero_spec()
    }
}

/// The registers after the first `n` instructions.
pub open spec fn run(words: Seq<u32>, env: Window, n: nat) -> Map<u32, Felt>
    decreases n,
{
    if n == 0 {
        Map::empty()
    } else {
        let i = n - 1;
        let regs = run(words, env, (n - 1) as nat);
        regs.insert(
            dst_at(words, i),
            instr_value(op_at(words, i), arg0_at(words, i), arg1_at(words, i), regs, env),
        )
    }
}

/// A compiled constraint program.
#[derive(Debug)]
pub struct ConstraintProgram {
    /// Flat instruction words: `[op, dst, arg0, arg1]` for each instruction.
    pub words: Vec<u32>,
    /// The number of registers used.
    pub num_regs: u32,
    /// The registers that hold the coordinates of the final accumulator.
    pub accumulator_regs: [u32; 4],
    pub main_width: usize,
    pub prep_width: usize,
    /// The width of the permutation trace: four columns per extension element.
    pub perm_u32_width: usize,
}

/// The last of the first `n` instructions that reads register `r`, or zero.
pub open spec fn last_read(words: Seq<u32>, r: u32, n: nat) -> nat
    decreases n,
{
    if n == 0 {
        0
    } else if reads(words, n - 1, r) {
        (n - 1) as nat
    } else {
        last_read(words, r, (n - 1) as nat)
    }
}

pub open spec fn is_acc(accs: Seq<u32>, r: u32) -> bool {
    r == accs[0] || r == accs[1] || r == accs[2] || r == accs[3]
}

/// The last use of register `r`; the accumulator's registers are used at the end.
pub open spec fn last_use(words: Seq<u32>, accs: Seq<u32>, r: u32, n: nat) -> nat {
    if is_acc(accs, r) {
        n
    } else {
        last_read(words, r, n)
    }
}

/// The state of the register assignment.
#[verifier::ext_equal]
pub struct Assignment {
    /// The new register of each old one.
    pub remap: Seq<u32>,
    /// The new registers that can be taken again, the next one last.
    pub free: Seq<u32>,
    /// The number of new registers.
    pub next: nat,
}

/// The assignment with a new register for `dst`: a free one, or else one more.
pub open spec fn assign(s: Assignment, dst: u32) -> Assignment {
    if s.free.len() > 0 {
        Assignment {
            remap: s.remap.update(dst as int, s.free.last()),
            free: s.free.drop_last(),
            next: s.next,
        }
    } else {
        Assignment {
            remap: s.remap.update(dst as int, s.next as u32),
            free: s.free,
            next: s.next + 1,
        }
    }
}

/// The assignment with the new register of `r` free again, if `dies` holds.
pub open spec fn release(s: Assignment, r: u32, dies: bool) -> Assignment {
    if dies {
        Assignment { remap: s.remap, free: s.free.push(s.remap[r as int]), next: s.next }
    } else {
        s
    }
}

/// The assignment after the first `i` of `n` instructions: each takes a register for its result,
/// and then gives back those of its operands that it is the last to use.
pub open spec fn assignment(words: Seq<u32>, accs: Seq<u32>, num_regs: nat, n: nat, i: nat) -> Assignment
    decreases i,
{
    if i == 0 {
        Assignment { remap: Seq::new(num_regs, |r: int| 0u32), free: Seq::empty(), next: 0 }
    } else {
        let k = i - 1;
        let dst = dst_at(words, k);
        let a0 = arg0_at(words, k);
        let a1 = arg1_at(words, k);
        let s = assign(assignment(words, accs, num_regs, n, k as nat), dst);
        if is_binary(op_at(words, k)) {
            let t = release(s, a0, last_use(words, accs, a0, n) == k && a0 != dst);
            release(t, a1, last_use(words, accs, a1, n) == k && a1 != dst && a1 != a0)
        } else if op_at(words, k) == OP_NEG {
            release(s, a0, last_use(words, accs, a0, n) == k && a0 != dst)
        } else {
            s
        }
    }
}

/// The words with every register replaced by its new one.
pub open spec fn renamed(words: Seq<u32>, remap: Seq<u32>, n: nat) -> Seq<u32> {
    Seq::new(
        words.len(),
        |p: int|
            {
                let i = p / 4;
                if i >= n {
                    words[p]
                } else if p % 4 == 1 {
                    remap[words[p] as int]
                } else if p % 4 == 2 && (is_binary(op_at(words, i)) || op_at(words, i) == OP_NEG) {
                    remap[words[p] as int]
                } else if p % 4 == 3 && is_binary(op_at(words, i)) {
                    remap[words[p] as int]
                } else {
                    words[p]
                }
            },
    )
}

/// Every register that the program names is below the number of registers.
pub open spec fn regs_bounded(words: Seq<u32>, accs: Seq<u32>, num_regs: nat, n: nat) -> bool {
    &&& forall|i: int| 0 <= i < n ==> (#[trigger] dst_at(words, i)) < num_regs
    &&& forall|i: int|
        0 <= i < n && (is_binary(op_at(words, i)) || op_at(words, i) == OP_NEG) ==> (
        #[trigger] arg0_at(words, i)) < num_regs
    &&& forall|i: int|
        0 <= i < n && is_binary(op_at(words, i)) ==> (#[trigger] arg1_at(words, i)) < num_regs
    &&& forall|k: int| 0 <= k < 4 ==> (#[trigger] accs[k]) < num_regs
}

impl ConstraintProgram {
    pub open spec fn instructions(&self) -> nat {
        self.words@.len() / 4
    }

    /// Every register that the program names exists.
    pub open spec fn well_formed(&self) -> bool {
        regs_bounded(
            self.words@,
            self.accumulator_regs@,
            self.num_regs as nat,
            self.instructions(),
        )
    }

    /// Whether the instructions are those of `words`, whose result is in the registers `accs`,
    /// with the registers compacted.
    pub open spec fn compacts_words(&self, words: Seq<u32>, num_regs: nat, accs: Seq<u32>) -> bool {
        let n = words.len() / 4;
        let s = assignment(words, accs, num_regs, n, n);
        &&& self.words@ == renamed(words, s.remap, n)
        &&& self.num_regs == s.next
        &&& forall|k: int|
            0 <= k < 4 ==> #[trigger] self.accumulator_regs@[k] == s.remap[accs[k] as int]
    }

    /// What compaction makes of the program `before`.
    pub open spec fn compacts(&self, before: ConstraintProgram) -> bool {
        &&& self.compacts_words(
            before.words@,
            before.num_regs as nat,
            before.accumulator_regs@,
        )
        &&& self.main_width == before.main_width
        &&& self.prep_width == before.prep_width
        &&& self.perm_u32_width == before.perm_u32_width
    }

    /// The coordinates of the accumulator after the program has run.
    pub open spec fn result(&self, env: Window) -> Seq<Felt> {
        let regs = run(self.words@, env, self.instructions());
        Seq::new(4, |k: int| regs[self.accumulator_regs@[k]])
    }

    /// Whether every register is written once, and only read after that.
    pub open spec fn ssa(&self) -> bool {
        is_ssa(self.words@, self.accumulator_regs@, self.instructions())
    }

    /// The number of instructions.
    pub fn num_instructions(&self) -> (r: usize)
        ensures
            r == self.instructions(),
    {
        self.words.len() / 4
    }

    /// The last use of each register.
    fn last_uses(&self) -> (r: Vec<usize>)
        requires
            self.well_formed(),
        ensures
            r@.len() == self.num_regs,
            forall|k: int|
                0 <= k < r@.len() ==> #[trigger] r@[k] == last_use(
                    self.words@,
                    self.accumulator_regs@,
                    k as u32,
                    self.instructions(),
                ),
    {
        let len: usize = self.words.len();
        let n: usize = len / 4;
        let nr: usize = self.num_regs as usize;
        let ghost words = self.words@;
        let mut last: Vec<usize> = Vec::new();
        let mut k: usize = 0;
        while k < nr
            invariant
                k <= nr,
                last@.len() == k,
                forall|e: int| 0 <= e < k ==> #[trigger] last@[e] == 0,
            decreases nr - k,
        {
            last.push(0);
            k = k + 1;
        }
        let mut i: usize = 0;
        while i < n
            invariant
                i <= n,
                len == self.words@.len(),
                n == len / 4,
                words == self.words@,
                self.well_formed(),
                nr == self.num_regs,
                last@.len() == nr,
                forall|e: int|
                    0 <= e < nr ==> #[trigger] last@[e] == last_read(words, e as u32, i as nat),
            decreases n - i,
        {
            let base: usize = i * 4;
            let op: u32 = self.words[base];
            let ghost before = last@;
            assert(op == op_at(words, i as int));
            if op == OP_ADD || op == OP_SUB || op == OP_MUL {
                assert(arg0_at(words, i as int) < nr);
                assert(arg1_at(words, i as int) < nr);
                let a0: usize = self.words[base + 2] as usize;
                let a1: usize = self.words[base + 3] as usize;
                last.set(a0, i);
                last.set(a1, i);
            } else if op == OP_NEG {
                assert(arg0_at(words, i as int) < nr);
                let a0: usize = self.words[base + 2] as usize;
                last.set(a0, i);
            }
            i = i + 1;
            assert forall|e: int| 0 <= e < nr implies #[trigger] last@[e] == last_read(
                words,
                e as u32,
                i as nat,
            ) by {
                assert(before[e] == last_read(words, e as u32, (i - 1) as nat));
            }
        }
        let ghost accs = self.accumulator_regs@;
        let ghost reads_only = last@;
        let mut c: usize = 0;
        while c < 4
            invariant
                c <= 4,
                self.well_formed(),
                accs == self.accumulator_regs@,
                nr == self.num_regs,
                last@.len() == nr,
                reads_only.len() == nr,
                forall|e: int|
                    0 <= e < nr ==> #[trigger] last@[e] == if exists|k: int|
                        0 <= k < c && (#[trigger] accs[k]) == e as u32 {
                        n as int
                    } else {
                        reads_only[e] as int
                    },
            decreases 4 - c,
        {
            assert(accs[c as int] < nr);
            let r: usize = self.accumulator_regs[c] as usize;
            last.set(r, n);
            c = c + 1;
        }
        assert forall|e: int| 0 <= e < last@.len() implies #[trigger] last@[e] == last_use(
            words,
            accs,
            e as u32,
            n as nat,
        ) by {
            if is_acc(accs, e as u32) {
                assert(exists|k: int| 0 <= k < 4 && (#[trigger] accs[k]) == e as u32);
            }
        }
        last
    }

    /// The new register of each old one, and the number of new registers.
    fn assign_registers(&self, last: &Vec<usize>) -> (r: (Vec<u32>, u32))
        requires
            self.well_formed(),
            self.instructions() <= u32::MAX,
            last@.len() == self.num_regs,
            forall|k: int|
                0 <= k < last@.len() ==> #[trigger] last@[k] == last_use(
                    self.words@,
                    self.accumulator_regs@,
                    k as u32,
                    self.instructions(),
                ),
        ensures
            ({
                let s = assignment(
                    self.words@,
                    self.accumulator_regs@,
                    self.num_regs as nat,
                    self.instructions(),
                    self.instructions(),
                );
                r.0@ == s.remap && r.1 == s.next
            }),
    {
        let len: usize = self.words.len();
        let n: usize = len / 4;
        let nr: usize = self.num_regs as usize;
        let ghost words = self.words@;
        let ghost accs = self.accumulator_regs@;
        let mut remap: Vec<u32> = Vec::new();
        let mut k: usize = 0;
        while k < nr
            invariant
                k <= nr,
                remap@ == Seq::new(k as nat, |r: int| 0u32),
            decreases nr - k,
        {
            remap.push(0);
            k = k + 1;
            assert(remap@ =~= Seq::new(k as nat, |r: int| 0u32));
        }
        let mut free: Vec<u32> = Vec::new();
        let mut next: u32 = 0;
        let mut i: usize = 0;
        assert(free@ =~= Seq::<u32>::empty());
        while i < n
            invariant
                i <= n,
                len == self.words@.len(),
                n == len / 4,
                n <= u32::MAX,
                words == self.words@,
                accs == self.accumulator_regs@,
                self.well_formed(),
                nr == self.num_regs,
                last@.len() == nr,
                forall|k: int|
                    0 <= k < last@.len() ==> #[trigger] last@[k] == last_use(
                        words,
                        accs,
                        k as u32,
                        n as nat,
                    ),
                remap@.len() == nr,
                next <= i,
                (Assignment { remap: remap@, free: free@, next: next as nat }) == assignment(
                    words,
                    accs,
                    nr as nat,
                    n as nat,
                    i as nat,
                ),
            decreases n - i,
        {
            let base: usize = i * 4;
            let ghost before = Assignment { remap: remap@, free: free@, next: next as nat };
            assert(dst_at(words, i as int) < nr);
            let dst: usize = self.words[base + 1] as usize;
            let new_dst: u32 = match free.pop() {
                Some(r) => r,
                None => {
                    let r: u32 = next;
                    next = next + 1;
                    r
                },
            };
            remap.set(dst, new_dst);
            let ghost assigned = assign(before, dst as u32);
            assert(assigned =~= (Assignment { remap: remap@, free: free@, next: next as nat }));
            let op: u32 = self.words[base];
            assert(op == op_at(words, i as int));
            if op == OP_ADD || op == OP_SUB || op == OP_MUL {
                assert(arg0_at(words, i as int) < nr);
                assert(arg1_at(words, i as int) < nr);
                let a0: usize = self.words[base + 2] as usize;
                let a1: usize = self.words[base + 3] as usize;
                if last[a0] == i && a0 != dst {
                    free.push(remap[a0]);
                }
                if last[a1] == i && a1 != dst && a1 != a0 {
                    free.push(remap[a1]);
                }
            } else if op == OP_NEG {
                assert(arg0_at(words, i as int) < nr);
                let a0: usize = self.words[base + 2] as usize;
                if last[a0] == i && a0 != dst {
                    free.push(remap[a0]);
                }
            }
            i = i + 1;
            assert((Assignment { remap: remap@, free: free@, next: next as nat }) =~= assignment(
                words,
                accs,
                nr as nat,
                n as nat,
                i as nat,
            ));
        }
        (remap, next)
    }

    /// Reassigns the registers so that one that holds a dead value is taken again: each instruction
    /// takes the register that was given back last, or a new one, and gives back the registers of
    /// the operands that it is the last to use.
    pub fn compact_registers(&mut self)
        requires
            old(self).well_formed(),
            old(self).instructions() <= u32::MAX,
        ensures
            final(self).compacts(*old(self)),
    {
        let last: Vec<usize> = self.last_uses();
        let (remap, next) = self.assign_registers(&last);
        let len: usize = self.words.len();
        let n: usize = len / 4;
        let ghost words = self.words@;
        let ghost nr = self.num_regs as nat;
        let ghost accs = self.accumulator_regs@;
        proof {
            lemma_remap_len(words, accs, nr, n as nat, n as nat);
        }
        let mut i: usize = 0;
        while i < n
            invariant
                i <= n,
                len == words.len(),
                n == len / 4,
                regs_bounded(words, accs, nr, n as nat),
                remap@.len() == nr,
                self.words@.len() == len,
                self.accumulator_regs@ == accs,
                self.main_width == old(self).main_width,
                self.prep_width == old(self).prep_width,
                self.perm_u32_width == old(self).perm_u32_width,
                forall|p: int|
                    0 <= p < 4 * i ==> #[trigger] self.words@[p] == renamed(
                        words,
                        remap@,
                        n as nat,
                    )[p],
                forall|p: int| 4 * i <= p < len ==> #[trigger] self.words@[p] == words[p],
            decreases n - i,
        {
            let base: usize = i * 4;
            let ghost before = self.words@;
            assert(dst_at(words, i as int) < nr);
            let op: u32 = self.words[base];
            assert(op == op_at(words, i as int));
            let dst: u32 = self.words[base + 1];
            self.words.set(base + 1, remap[dst as usize]);
            if op == OP_ADD || op == OP_SUB || op == OP_MUL {
                assert(arg0_at(words, i as int) < nr);
                assert(arg1_at(words, i as int) < nr);
                let a0: u32 = self.words[base + 2];
                let a1: u32 = self.words[base + 3];
                self.words.set(base + 2, remap[a0 as usize]);
                self.words.set(base + 3, remap[a1 as usize]);
            } else if op == OP_NEG {
                assert(arg0_at(words, i as int) < nr);
                let a0: u32 = self.words[base + 2];
                self.words.set(base + 2, remap[a0 as usize]);
            }
            assert forall|p: int| 0 <= p < 4 * (i + 1) implies #[trigger] self.words@[p] == renamed(
                words,
                remap@,
                n as nat,
            )[p] by {
                if p < 4 * i {
                    assert(before[p] == renamed(words, remap@, n as nat)[p]);
                } else {
                    assert(p / 4 == i);
                    assert(before[p] == words[p]);
                }
            }
            assert forall|p: int| 4 * (i + 1) <= p < len implies #[trigger] self.words@[p]
                == words[p] by {
                assert(before[p] == words[p]);
            }
            i = i + 1;
        }
        assert forall|p: int| 4 * n <= p < len implies #[trigger] self.words@[p] == renamed(
            words,
            remap@,
            n as nat,
        )[p] by {
            assert(p / 4 >= n);
        }
        assert(self.words@ =~= renamed(words, remap@, n as nat));
        assert(accs[0] < nr && accs[1] < nr && accs[2] < nr && accs[3] < nr);
        let acc: [u32; 4] = self.accumulator_regs;
        self.accumulator_regs = [
            remap[acc[0] as usize],
            remap[acc[1] as usize],
            remap[acc[2] as usize],
            remap[acc[3] as usize],
        ];
        self.num_regs = next;
    }
}

proof fn lemma_remap_len(words: Seq<u32>, accs: Seq<u32>, num_regs: nat, n: nat, i: nat)
    requires
        regs_bounded(words, accs, num_regs, n),
        i <= n,
    ensures
        assignment(words, accs, num_regs, n, i).remap.len() == num_regs,
    decreases i,
{
    if i > 0 {
        lemma_remap_len(words, accs, num_regs, n, (i - 1) as nat);
        assert(dst_at(words, i - 1) < num_regs);
    }
}

/// Whether register `r` is the result of one of the first `i` instructions.
pub open spec fn defined(words: Seq<u32>, r: u32, i: int) -> bool {
    exists|d: int| 0 <= d < i && (#[trigger] dst_at(words, d)) == r
}

/// Whether every register is written once, and only read after that.
pub open spec fn is_ssa(words: Seq<u32>, accs: Seq<u32>, n: nat) -> bool {
    &&& forall|i: int, j: int|
        0 <= i < j < n ==> (#[trigger] dst_at(words, i)) != (#[trigger] dst_at(words, j))
    &&& forall|i: int, r: u32|
        0 <= i < n && #[trigger] reads(words, i, r) ==> defined(words, r, i)
    &&& forall|k: int| 0 <= k < 4 ==> defined(words, #[trigger] accs[k], n as int)
}

/// Whether register `r` has been written and not yet given back, before instruction `i`.
spec fn held(words: Seq<u32>, accs: Seq<u32>, r: u32, n: nat, i: int) -> bool {
    let u = last_use(words, accs, r, n);
    defined(words, r, i) && !(u < i && reads(words, u as int, r))
}

proof fn lemma_last_read(words: Seq<u32>, r: u32, n: nat)
    ensures
        last_read(words, r, n) < n || n == 0,
        forall|i: int| 0 <= i < n && #[trigger] reads(words, i, r) ==> i <= last_read(words, r, n),
        n > 0 && last_read(words, r, n) > 0 ==> reads(words, last_read(words, r, n) as int, r),
    decreases n,
{
    if n > 0 {
        lemma_last_read(words, r, (n - 1) as nat);
    }
}

/// What holds of the assignment of a program in which every register is written once: the
/// registers in use are different from each other and from the free ones.
spec fn assignment_ok(words: Seq<u32>, accs: Seq<u32>, num_regs: nat, n: nat, i: nat) -> bool {
    let s = assignment(words, accs, num_regs, n, i);
    &&& s.next <= i
    &&& forall|r: u32| #[trigger]
        held(words, accs, r, n, i as int) ==> s.remap[r as int] < s.next
    &&& forall|f: int| 0 <= f < s.free.len() ==> (#[trigger] s.free[f]) < s.next
    &&& forall|r: u32, q: u32|
        #![trigger held(words, accs, r, n, i as int), held(words, accs, q, n, i as int)]
        held(words, accs, r, n, i as int) && held(words, accs, q, n, i as int) && r != q
            ==> s.remap[r as int] != s.remap[q as int]
    &&& forall|r: u32, f: int|
        #![trigger held(words, accs, r, n, i as int), s.free[f]]
        held(words, accs, r, n, i as int) && 0 <= f < s.free.len() ==> s.remap[r as int]
            != s.free[f]
    &&& forall|f: int, g: int|
        0 <= f < g < s.free.len() ==> (#[trigger] s.free[f]) != (#[trigger] s.free[g])
}

/// Before instruction `k`, which registers are held changes as follows: its result is new, its
/// operands are held, and afterwards those that it is the last to use are not.
proof fn lemma_held_step(words: Seq<u32>, accs: Seq<u32>, n: nat, k: int, r: u32)
    requires
        0 <= k < n,
        is_ssa(words, accs, n),
    ensures
        !defined(words, dst_at(words, k), k),
        reads(words, k, r) ==> held(words, accs, r, n, k) && r != dst_at(words, k),
        held(words, accs, dst_at(words, k), n, k + 1),
        r != dst_at(words, k) ==> (held(words, accs, r, n, k + 1) <==> held(words, accs, r, n, k)
            && !(last_use(words, accs, r, n) == k && reads(words, k, r))),
{
    let dst = dst_at(words, k);
    assert(!defined(words, dst, k)) by {
        if defined(words, dst, k) {
            let d = choose|d: int| 0 <= d < k && (#[trigger] dst_at(words, d)) == dst;
            assert(dst_at(words, d) != dst_at(words, k));
        }
    }
    if reads(words, k, r) {
        assert(defined(words, r, k));
        lemma_last_read(words, r, n);
    }
    // the result is not read before it is written
    assert(held(words, accs, dst, n, k + 1)) by {
        assert(dst_at(words, k) == dst);
        let u = last_use(words, accs, dst, n) as int;
        if u < k + 1 && reads(words, u, dst) {
            assert(defined(words, dst, u));
            let d = choose|d: int| 0 <= d < u && (#[trigger] dst_at(words, d)) == dst;
            assert(dst_at(words, d) != dst_at(words, k));
        }
    }
    if r != dst {
        assert(defined(words, r, k + 1) <==> defined(words, r, k)) by {
            if defined(words, r, k + 1) {
                let d = choose|d: int| 0 <= d < k + 1 && (#[trigger] dst_at(words, d)) == r;
                assert(d != k);
                assert(dst_at(words, d) == r);
            }
            if defined(words, r, k) {
                let d = choose|d: int| 0 <= d < k && (#[trigger] dst_at(words, d)) == r;
                assert(dst_at(words, d) == r);
            }
        }
    }
}

proof fn lemma_assignment_ok(words: Seq<u32>, accs: Seq<u32>, num_regs: nat, n: nat, i: nat)
    requires
        i <= n <= u32::MAX,
        regs_bounded(words, accs, num_regs, n),
        is_ssa(words, accs, n),
    ensures
        assignment_ok(words, accs, num_regs, n, i),
    decreases i,
{
    if i == 0 {
    } else {
        let k = i - 1;
        lemma_assignment_ok(words, accs, num_regs, n, k as nat);
        lemma_remap_len(words, accs, num_regs, n, k as nat);
        lemma_remap_len(words, accs, num_regs, n, i);
        lemma_assignment_step(words, accs, num_regs, n, i);
    }
}

/// The effect of instruction `i - 1` on the assignment, register by register.
proof fn lemma_assignment_step(words: Seq<u32>, accs: Seq<u32>, num_regs: nat, n: nat, i: nat)
    requires
        0 < i <= n <= u32::MAX,
        regs_bounded(words, accs, num_regs, n),
        is_ssa(words, accs, n),
        assignment_ok(words, accs, num_regs, n, (i - 1) as nat),
        assignment(words, accs, num_regs, n, (i - 1) as nat).remap.len() == num_regs,
        assignment(words, accs, num_regs, n, i).remap.len() == num_regs,
    ensures
        assignment_ok(words, accs, num_regs, n, i),
        ({
            let s = assignment(words, accs, num_regs, n, (i - 1) as nat);
            let t = assignment(words, accs, num_regs, n, i);
            let dst = dst_at(words, i - 1);
            &&& forall|r: u32|
                r != dst && r < num_regs ==> #[trigger] t.remap[r as int] == s.remap[r as int]
            &&& forall|r: u32| #[trigger]
                held(words, accs, r, n, i - 1) ==> s.remap[r as int] != t.remap[dst as int]
        }),
{
    let k = i - 1;
    let s = assignment(words, accs, num_regs, n, k as nat);
    let t = assignment(words, accs, num_regs, n, i);
    let dst = dst_at(words, k);
    let a0 = arg0_at(words, k);
    let a1 = arg1_at(words, k);
    let op = op_at(words, k);
    assert(dst < num_regs);
    lemma_held_step(words, accs, n, k, a0);
    lemma_held_step(words, accs, n, k, a1);
    lemma_held_step(words, accs, n, k, dst);
    let m = assign(s, dst);
    assert(m.remap.len() == num_regs);
    assert(s.next <= k);
    assert(t.remap == m.remap);
    assert(t.next == m.next);
    // the register of the result
    let id = m.remap[dst as int];
    assert(id < m.next);
    assert forall|r: u32| #[trigger] held(words, accs, r, n, k) implies s.remap[r as int] != id
        && m.remap[r as int] == s.remap[r as int] && r != dst && r < num_regs by {
        let d = choose|d: int| 0 <= d < k && (#[trigger] dst_at(words, d)) == r;
        assert(dst_at(words, d) < num_regs);
        if s.free.len() > 0 {
            assert(s.free[s.free.len() - 1] == id);
        }
    }
    assert forall|f: int| 0 <= f < m.free.len() implies (#[trigger] m.free[f]) != id && m.free[f]
        == s.free[f] && m.free[f] < m.next by {
        if s.free.len() > 0 {
            assert(s.free[f] != s.free[s.free.len() - 1]);
        }
    }
    let binary = is_binary(op);
    let dies0 = (binary || op == OP_NEG) && last_use(words, accs, a0, n) == k && a0 != dst;
    let dies1 = binary && last_use(words, accs, a1, n) == k && a1 != dst && a1 != a0;
    let t0 = release(m, a0, dies0);
    assert(t == release(t0, a1, dies1));
    assert(dies0 ==> held(words, accs, a0, n, k) && reads(words, k, a0));
    assert(dies1 ==> held(words, accs, a1, n, k) && reads(words, k, a1));
    // what is held afterwards
    assert forall|r: u32| #[trigger] held(words, accs, r, n, i as int) implies r == dst || (held(
        words,
        accs,
        r,
        n,
        k,
    ) && !(dies0 && r == a0) && !(dies1 && r == a1)) by {
        lemma_held_step(words, accs, n, k, r);
    }
    // the free registers afterwards
    assert forall|f: int| 0 <= f < t.free.len() implies {
        ||| f < m.free.len() && (#[trigger] t.free[f]) == m.free[f]
        ||| dies0 && f == m.free.len() && t.free[f] == s.remap[a0 as int]
        ||| dies1 && f == t.free.len() - 1 && t.free[f] == s.remap[a1 as int]
    } by {}
    assert forall|r: u32, f: int|
        #![trigger held(words, accs, r, n, i as int), t.free[f]]
        held(words, accs, r, n, i as int) && 0 <= f < t.free.len() implies t.remap[r as int]
        != t.free[f] by {
        if r == dst {
            if f < m.free.len() {
                assert(m.free[f] != id);
            } else {
                assert(held(words, accs, a0, n, k) || held(words, accs, a1, n, k));
            }
        } else {
            assert(held(words, accs, r, n, k));
            if f < m.free.len() {
                assert(m.free[f] == s.free[f]);
                assert(s.free[f] == t.free[f]);
            }
        }
    }
    assert forall|f: int, g: int| 0 <= f < g < t.free.len() implies (#[trigger] t.free[f]) != (
    #[trigger] t.free[g]) by {
        if g < m.free.len() {
            assert(m.free[f] == s.free[f]);
            assert(m.free[g] == s.free[g]);
        } else if f < m.free.len() {
            assert(m.free[f] == s.free[f]);
            assert(s.free[f] == t.free[f]);
        } else {
            assert(dies0 && dies1);
        }
    }
}

/// The register of a value stays the same once it is assigned.
proof fn lemma_remap_stable(
    words: Seq<u32>,
    accs: Seq<u32>,
    num_regs: nat,
    n: nat,
    i: nat,
    j: nat,
    r: u32,
)
    requires
        i <= j <= n <= u32::MAX,
        regs_bounded(words, accs, num_regs, n),
        is_ssa(words, accs, n),
        defined(words, r, i as int),
    ensures
        r < num_regs,
        assignment(words, accs, num_regs, n, j).remap[r as int] == assignment(
            words,
            accs,
            num_regs,
            n,
            i,
        ).remap[r as int],
        assignment(words, accs, num_regs, n, i).next <= assignment(words, accs, num_regs, n, j).next,
    decreases j - i,
{
    let d = choose|d: int| 0 <= d < i && (#[trigger] dst_at(words, d)) == r;
    assert(dst_at(words, d) < num_regs);
    if i < j {
        let k = (j - 1) as nat;
        lemma_remap_stable(words, accs, num_regs, n, i, k, r);
        lemma_remap_len(words, accs, num_regs, n, k);
        lemma_remap_len(words, accs, num_regs, n, j);
        lemma_assignment_ok(words, accs, num_regs, n, k);
        lemma_assignment_step(words, accs, num_regs, n, j);
        assert(dst_at(words, d) != dst_at(words, j - 1));
    }
}

/// The words of instruction `k` after renaming.
proof fn lemma_renamed_at(words: Seq<u32>, remap: Seq<u32>, n: nat, k: int)
    requires
        0 <= k < n,
        n == words.len() / 4,
    ensures
        op_at(renamed(words, remap, n), k) == op_at(words, k),
        dst_at(renamed(words, remap, n), k) == remap[dst_at(words, k) as int],
        arg0_at(renamed(words, remap, n), k) == if is_binary(op_at(words, k)) || op_at(words, k)
            == OP_NEG {
            remap[arg0_at(words, k) as int]
        } else {
            arg0_at(words, k)
        },
        arg1_at(renamed(words, remap, n), k) == if is_binary(op_at(words, k)) {
            remap[arg1_at(words, k) as int]
        } else {
            arg1_at(words, k)
        },
{
    assert((4 * k) / 4 == k && (4 * k) % 4 == 0);
    assert((4 * k + 1) / 4 == k && (4 * k + 1) % 4 == 1);
    assert((4 * k + 2) / 4 == k && (4 * k + 2) % 4 == 2);
    assert((4 * k + 3) / 4 == k && (4 * k + 3) % 4 == 3);
}

/// Before each instruction, a held register has the same value in both programs.
proof fn lemma_run_renamed(
    words: Seq<u32>,
    accs: Seq<u32>,
    num_regs: nat,
    n: nat,
    env: Window,
    i: nat,
)
    requires
        i <= n <= u32::MAX,
        n == words.len() / 4,
        regs_bounded(words, accs, num_regs, n),
        is_ssa(words, accs, n),
    ensures
        ({
            let remap = assignment(words, accs, num_regs, n, n).remap;
            forall|r: u32| #[trigger]
                held(words, accs, r, n, i as int) ==> run(renamed(words, remap, n), env, i)[remap[r as int]]
                    == run(words, env, i)[r]
        }),
    decreases i,
{
    let remap = assignment(words, accs, num_regs, n, n).remap;
    let other = renamed(words, remap, n);
    if i > 0 {
        let k = i - 1;
        lemma_run_renamed(words, accs, num_regs, n, env, k as nat);
        lemma_renamed_at(words, remap, n, k);
        let op = op_at(words, k);
        let dst = dst_at(words, k);
        let (a0, a1) = (arg0_at(words, k), arg1_at(words, k));
        let regs = run(words, env, k as nat);
        let other_regs = run(other, env, k as nat);
        lemma_held_step(words, accs, n, k, a0);
        lemma_held_step(words, accs, n, k, a1);
        assert(is_binary(op) ==> reads(words, k, a0) && reads(words, k, a1));
        assert(op == OP_NEG ==> reads(words, k, a0));
        assert(instr_value(op, arg0_at(other, k), arg1_at(other, k), other_regs, env)
            == instr_value(op, a0, a1, regs, env));
        lemma_remap_len(words, accs, num_regs, n, k as nat);
        lemma_remap_len(words, accs, num_regs, n, i);
        lemma_assignment_ok(words, accs, num_regs, n, k as nat);
        lemma_assignment_step(words, accs, num_regs, n, i);
        assert(dst_at(words, k) == dst);
        assert(defined(words, dst, i as int));
        lemma_remap_stable(words, accs, num_regs, n, i, n, dst);
        assert forall|r: u32| #[trigger] held(words, accs, r, n, i as int) implies run(
            other,
            env,
            i,
        )[remap[r as int]] == run(words, env, i)[r] by {
            if r != dst {
                lemma_held_step(words, accs, n, k, r);
                assert(held(words, accs, r, n, k));
                lemma_remap_stable(words, accs, num_regs, n, k as nat, n, r);
                lemma_remap_stable(words, accs, num_regs, n, i, n, r);
                assert(remap[r as int] != remap[dst as int]);
            }
        }
    }
}

/// Every assigned register is below the number of registers.
proof fn lemma_remap_bound(words: Seq<u32>, accs: Seq<u32>, num_regs: nat, n: nat, r: u32)
    requires
        n <= u32::MAX,
        regs_bounded(words, accs, num_regs, n),
        is_ssa(words, accs, n),
        defined(words, r, n as int),
    ensures
        assignment(words, accs, num_regs, n, n).remap[r as int] < assignment(
            words,
            accs,
            num_regs,
            n,
            n,
        ).next,
{
    let d = choose|d: int| 0 <= d < n && (#[trigger] dst_at(words, d)) == r;
    let i = (d + 1) as nat;
    lemma_held_step(words, accs, n, d, r);
    lemma_assignment_ok(words, accs, num_regs, n, i);
    assert(dst_at(words, d) == r);
    assert(defined(words, r, i as int));
    lemma_remap_stable(words, accs, num_regs, n, i, n, r);
}

/// Compaction keeps what a program computes: in a program whose registers are written once and
/// then read, the accumulator has the same value before and after, whatever the program reads.
pub proof fn law_compaction_preserves_result(
    before: ConstraintProgram,
    after: ConstraintProgram,
    env: Window,
)
    requires
        before.well_formed(),
        before.instructions() <= u32::MAX,
        before.ssa(),
        after.compacts(before),
    ensures
        after.result(env) == before.result(env),
        after.instructions() == before.instructions(),
{
    let words = before.words@;
    let accs = before.accumulator_regs@;
    let n = before.instructions();
    lemma_run_renamed(words, accs, before.num_regs as nat, n, env, n);
    assert forall|k: int| 0 <= k < 4 implies #[trigger] after.result(env)[k] == before.result(
        env,
    )[k] by {
        let r = accs[k];
        assert(defined(words, accs[k], n as int));
        assert(is_acc(accs, r));
        assert(held(words, accs, r, n, n as int));
    }
    assert(after.result(env) =~= before.result(env));
}

/// Compaction of a program whose registers are written once and then read needs no more registers
/// than there are instructions, and the program that it gives names no others.
pub proof fn law_compaction_bounds_registers(before: ConstraintProgram, after: ConstraintProgram)
    requires
        before.well_formed(),
        before.instructions() <= u32::MAX,
        before.ssa(),
        after.compacts(before),
    ensures
        after.num_regs <= before.instructions(),
        after.well_formed(),
{
    let words = before.words@;
    let accs = before.accumulator_regs@;
    let n = before.instructions();
    let nr = before.num_regs as nat;
    let remap = assignment(words, accs, nr, n, n).remap;
    lemma_assignment_ok(words, accs, nr, n, n);
    assert forall|i: int| 0 <= i < n implies (#[trigger] dst_at(after.words@, i)) < after.num_regs by {
        lemma_renamed_at(words, remap, n, i);
        assert(dst_at(words, i) == dst_at(words, i));
        assert(defined(words, dst_at(words, i), n as int));
        lemma_remap_bound(words, accs, nr, n, dst_at(words, i));
    }
    assert forall|i: int|
        0 <= i < n && (is_binary(op_at(after.words@, i)) || op_at(after.words@, i)
            == OP_NEG) implies (#[trigger] arg0_at(after.words@, i)) < after.num_regs by {
        lemma_renamed_at(words, remap, n, i);
        lemma_operand_bound(words, accs, nr, n, i, arg0_at(words, i));
    }
    assert forall|i: int| 0 <= i < n && is_binary(op_at(after.words@, i)) implies (
    #[trigger] arg1_at(after.words@, i)) < after.num_regs by {
        lemma_renamed_at(words, remap, n, i);
        lemma_operand_bound(words, accs, nr, n, i, arg1_at(words, i));
    }
    assert forall|k: int| 0 <= k < 4 implies (#[trigger] after.accumulator_regs@[k])
        < after.num_regs by {
        assert(defined(words, accs[k], n as int));
        lemma_remap_bound(words, accs, nr, n, accs[k]);
    }
}

/// Whether every register that an instruction reads, and those of the accumulator, are written by
/// an earlier instruction.
pub open spec fn written_first(words: Seq<u32>, accs: Seq<u32>, n: nat) -> bool {
    &&& forall|i: int, r: u32|
        0 <= i < n && #[trigger] reads(words, i, r) ==> defined(words, r, i)
    &&& forall|k: int| 0 <= k < 4 ==> defined(words, #[trigger] accs[k], n as int)
}

/// Compaction leaves the operations in their order: a program whose registers are written before
/// they are read stays one, and the loads keep their columns.
pub proof fn law_compaction_keeps_order(before: ConstraintProgram, after: ConstraintProgram)
    requires
        before.well_formed(),
        before.ssa(),
        after.compacts(before),
    ensures
        after.words@.len() == before.words@.len(),
        written_first(after.words@, after.accumulator_regs@, after.instructions()),
        forall|i: int|
            0 <= i < before.instructions() ==> #[trigger] op_at(after.words@, i) == op_at(
                before.words@,
                i,
            ),
        forall|i: int|
            0 <= i < before.instructions() && is_load(op_at(before.words@, i))
                ==> #[trigger] arg0_at(after.words@, i) == arg0_at(before.words@, i),
{
    let words = before.words@;
    let accs = before.accumulator_regs@;
    let n = before.instructions();
    let remap = assignment(words, accs, before.num_regs as nat, n, n).remap;
    assert forall|i: int| 0 <= i < n implies #[trigger] op_at(after.words@, i) == op_at(words, i) by {
        lemma_renamed_at(words, remap, n, i);
    }
    assert forall|i: int| 0 <= i < n && is_load(op_at(words, i)) implies #[trigger] arg0_at(
        after.words@,
        i,
    ) == arg0_at(words, i) by {
        lemma_renamed_at(words, remap, n, i);
    }
    assert forall|i: int, r: u32|
        0 <= i < n && #[trigger] reads(after.words@, i, r) implies defined(after.words@, r, i) by {
        lemma_renamed_at(words, remap, n, i);
        let old = if arg0_at(after.words@, i) == r {
            arg0_at(words, i)
        } else {
            arg1_at(words, i)
        };
        assert(reads(words, i, old));
        assert(defined(words, old, i));
        let d = choose|d: int| 0 <= d < i && (#[trigger] dst_at(words, d)) == old;
        lemma_renamed_at(words, remap, n, d);
        assert(dst_at(after.words@, d) == r);
    }
    assert forall|k: int| 0 <= k < 4 implies defined(
        after.words@,
        #[trigger] after.accumulator_regs@[k],
        n as int,
    ) by {
        assert(defined(words, accs[k], n as int));
        let d = choose|d: int| 0 <= d < n && (#[trigger] dst_at(words, d)) == accs[k];
        lemma_renamed_at(words, remap, n, d);
        assert(dst_at(after.words@, d) == after.accumulator_regs@[k]);
    }
}

/// Two programs that compaction makes of the same instructions are the same.
pub proof fn law_compaction_is_unique(
    a: ConstraintProgram,
    b: ConstraintProgram,
    words: Seq<u32>,
    num_regs: nat,
    accs: Seq<u32>,
)
    requires
        a.compacts_words(words, num_regs, accs),
        b.compacts_words(words, num_regs, accs),
    ensures
        a.words@ == b.words@,
        a.num_regs == b.num_regs,
        a.accumulator_regs@ == b.accumulator_regs@,
{
    assert(a.accumulator_regs@ =~= b.accumulator_regs@);
}

proof fn lemma_operand_bound(words: Seq<u32>, accs: Seq<u32>, num_regs: nat, n: nat, i: int, r: u32)
    requires
        n <= u32::MAX,
        0 <= i < n,
        regs_bounded(words, accs, num_regs, n),
        is_ssa(words, accs, n),
        reads(words, i, r),
    ensures
        assignment(words, accs, num_regs, n, n).remap[r as int] < assignment(
            words,
            accs,
            num_regs,
            n,
            n,
        ).next,
{
    assert(defined(words, r, i));
    let d = choose|d: int| 0 <= d < i && (#[trigger] dst_at(words, d)) == r;
    assert(dst_at(words, d) == r);
    assert(defined(words, r, n as int));
    lemma_remap_bound(words, accs, num_regs, n, r);
}

/// Whether the result of instruction `d` still counts before instruction `i`: it is part of the result
/// of the program, or is read from there on, or is never read at all.
pub open spec fn still_used(words: Seq<u32>, accs: Seq<u32>, n: nat, d: int, i: int) -> bool {
    let r = dst_at(words, d);
    ||| r == accs[0] || r == accs[1] || r == accs[2] || r == accs[3]
    ||| exists|k: int| i <= k < n && #[trigger] reads(words, k, r)
    ||| forall|k: int| 0 <= k < n ==> !#[trigger] reads(words, k, r)
}

/// How many of the results of the first `m` instructions still count before instruction `i`.
pub open spec fn in_use(words: Seq<u32>, accs: Seq<u32>, n: nat, i: int, m: nat) -> nat
    decreases m,
{
    if m == 0 {
        0
    } else {
        in_use(words, accs, n, i, (m - 1) as nat) + if still_used(words, accs, n, m - 1, i) {
            1nat
        } else {
            0nat
        }
    }
}

proof fn lemma_still_used_is_held(words: Seq<u32>, accs: Seq<u32>, n: nat, d: int, i: int)
    requires
        0 <= d < i <= n,
        is_ssa(words, accs, n),
    ensures
        still_used(words, accs, n, d, i) <==> held(words, accs, dst_at(words, d), n, i),
{
    let r = dst_at(words, d);
    lemma_last_read(words, r, n);
    assert(defined(words, r, i));
    if !is_acc(accs, r) {
        let u = last_read(words, r, n) as int;
        if reads(words, 0, r) {
            assert(defined(words, r, 0));
        }
        if exists|k: int| 0 <= k < n && #[trigger] reads(words, k, r) {
            let k = choose|k: int| 0 <= k < n && #[trigger] reads(words, k, r);
            assert(k <= u);
            assert(reads(words, u, r));
        }
        if held(words, accs, r, n, i) && reads(words, u, r) {
            assert(i <= u < n);
        }
    }
}

proof fn lemma_in_use_step(words: Seq<u32>, accs: Seq<u32>, n: nat, k: int, m: nat, a: u32, b: u32)
    requires
        0 <= k < n,
        m <= k,
        is_ssa(words, accs, n),
        a != b,
        forall|r: u32| #[trigger]
            reads(words, k, r) && last_use(words, accs, r, n) == k ==> r == a || r == b,
    ensures
        in_use(words, accs, n, k + 1, m) + (if reads(words, k, a) && last_use(words, accs, a, n)
            == k && defined(words, a, m as int) {
            1nat
        } else {
            0nat
        }) + (if reads(words, k, b) && last_use(words, accs, b, n) == k && defined(
            words,
            b,
            m as int,
        ) {
            1nat
        } else {
            0nat
        }) == in_use(words, accs, n, k, m),
    decreases m,
{
    if m > 0 {
        let d = m - 1;
        let r = dst_at(words, d);
        lemma_in_use_step(words, accs, n, k, d as nat, a, b);
        lemma_held_step(words, accs, n, k, r);
        lemma_still_used_is_held(words, accs, n, d, k);
        lemma_still_used_is_held(words, accs, n, d, k + 1);
        assert(r != dst_at(words, k));
        lemma_defined_step(words, accs, n, a, d);
        lemma_defined_step(words, accs, n, b, d);
    }
}

proof fn lemma_defined_step(words: Seq<u32>, accs: Seq<u32>, n: nat, r: u32, d: int)
    requires
        0 <= d < n,
        is_ssa(words, accs, n),
    ensures
        defined(words, r, d + 1) <==> defined(words, r, d) || dst_at(words, d) == r,
        !(defined(words, r, d) && dst_at(words, d) == r),
{
    if defined(words, r, d + 1) {
        let e = choose|e: int| 0 <= e < d + 1 && (#[trigger] dst_at(words, e)) == r;
        if e < d {
            assert(dst_at(words, e) == r);
        }
    }
    if defined(words, r, d) {
        let e = choose|e: int| 0 <= e < d && (#[trigger] dst_at(words, e)) == r;
        assert(dst_at(words, e) != dst_at(words, d));
    }
    if dst_at(words, d) == r {
        assert(0 <= d < d + 1 && dst_at(words, d) == r);
    }
}

/// Whether the number of registers is the most that the results in use and one more come to.
spec fn is_peak(words: Seq<u32>, accs: Seq<u32>, n: nat, i: nat, registers: nat) -> bool {
    &&& forall|k: nat| k < i ==> (#[trigger] in_use(words, accs, n, k as int, k)) + 1 <= registers
    &&& i > 0 ==> exists|k: nat|
        k < i && (#[trigger] in_use(words, accs, n, k as int, k)) + 1 == registers
    &&& i == 0 ==> registers == 0
}

proof fn lemma_assignment_peak(words: Seq<u32>, accs: Seq<u32>, num_regs: nat, n: nat, i: nat)
    requires
        i <= n <= u32::MAX,
        regs_bounded(words, accs, num_regs, n),
        is_ssa(words, accs, n),
    ensures
        ({
            let s = assignment(words, accs, num_regs, n, i);
            &&& in_use(words, accs, n, i as int, i) + s.free.len() == s.next
            &&& is_peak(words, accs, n, i, s.next)
        }),
    decreases i,
{
    if i > 0 {
        let k = i - 1;
        lemma_assignment_peak(words, accs, num_regs, n, k as nat);
        let s = assignment(words, accs, num_regs, n, k as nat);
        let t = assignment(words, accs, num_regs, n, i);
        let (dst, a0, a1) = (dst_at(words, k), arg0_at(words, k), arg1_at(words, k));
        let op = op_at(words, k);
        lemma_held_step(words, accs, n, k, a0);
        lemma_held_step(words, accs, n, k, a1);
        lemma_held_step(words, accs, n, k, dst);
        lemma_still_used_is_held(words, accs, n, k, i as int);
        // another register than the first operand's, where there is no second one
        let b: u32 = if is_binary(op) && a1 != a0 {
            a1
        } else if a0 == 0 {
            1
        } else {
            0
        };
        lemma_in_use_step(words, accs, n, k, k as nat, a0, b);
        let used = in_use(words, accs, n, k, k as nat);
        assert(in_use(words, accs, n, i as int, i) == in_use(words, accs, n, i as int, k as nat)
            + 1);
        assert(used + 1 <= t.next);
        assert forall|j: nat| j < i implies (#[trigger] in_use(words, accs, n, j as int, j)) + 1
            <= t.next by {
            if j < k {
                assert(in_use(words, accs, n, j as int, j) + 1 <= s.next);
            } else {
                assert(j == k);
            }
        }
        if s.free.len() == 0 {
            assert(in_use(words, accs, n, k as nat as int, k as nat) + 1 == t.next);
        } else {
            assert(k > 0);
            let j = choose|j: nat|
                j < k && (#[trigger] in_use(words, accs, n, j as int, j)) + 1 == s.next;
            assert(in_use(words, accs, n, j as int, j) + 1 == t.next);
        }
    }
}

/// Compaction takes as few registers as its order of instructions needs: before each instruction there
/// is one for each result that still counts, and one more for its own, and at some instruction there are
/// no others.
pub proof fn law_compaction_takes_no_more(before: ConstraintProgram, after: ConstraintProgram)
    requires
        before.well_formed(),
        before.instructions() <= u32::MAX,
        before.ssa(),
        after.compacts(before),
    ensures
        ({
            let (words, accs) = (before.words@, before.accumulator_regs@);
            let n = before.instructions();
            &&& forall|k: nat|
                k < n ==> (#[trigger] in_use(words, accs, n, k as int, k)) + 1 <= after.num_regs
            &&& n > 0 ==> exists|k: nat|
                k < n && (#[trigger] in_use(words, accs, n, k as int, k)) + 1 == after.num_regs
        }),
{
    let (words, accs) = (before.words@, before.accumulator_regs@);
    let n = before.instructions();
    lemma_assignment_peak(words, accs, before.num_regs as nat, n, n);
    let next = assignment(words, accs, before.num_regs as nat, n, n).next;
    assert(after.num_regs == next);
    assert forall|k: nat| k < n implies (#[trigger] in_use(words, accs, n, k as int, k)) + 1
        <= after.num_regs by {}
    if n > 0 {
        let k = choose|k: nat| k < n && (#[trigger] in_use(words, accs, n, k as int, k)) + 1 == next;
        assert(in_use(words, accs, n, k as int, k) + 1 == after.num_regs);
    }
}

/// What an instruction does: the number of its operation says what its result is. Constants come in
/// Montgomery form; loads read a column of a row, local ones of the row itself and others of the next;
/// the rest computes with registers. All other registers stay as they are.
pub proof fn law_instruction_meaning(words: Seq<u32>, env: Window, i: nat)
    ensures
        ({
            let regs = run(words, env, i);
            let after = run(words, env, i + 1);
            let (op, dst, a, b) = (
                words[4 * i as int],
                words[4 * i as int + 1],
                words[4 * i as int + 2],
                words[4 * i as int + 3],
            );
            &&& after.contains_key(dst)
            &&& op == 0 ==> after[dst] == from_monty(a)
            &&& op == 1 ==> after[dst] == env.main_local[a as int]
            &&& op == 2 ==> after[dst] == env.main_next[a as int]
            &&& op == 3 ==> after[dst] == env.prep_local[a as int]
            &&& op == 4 ==> after[dst] == env.prep_next[a as int]
            &&& op == 5 ==> after[dst] == env.perm_local[a as int]
            &&& op == 6 ==> after[dst] == env.perm_next[a as int]
            &&& op == 7 ==> after[dst] == env.selectors[a as int]
            &&& op == 8 ==> after[dst] == regs[a].plus(regs[b])
            &&& op == 9 ==> after[dst] == regs[a].plus(regs[b].negated())
            &&& op == 10 ==> after[dst] == regs[a].times(regs[b])
            &&& op == 11 ==> after[dst] == regs[a].negated()
            &&& forall|r: u32| r != dst && regs.contains_key(r) ==> #[trigger] after[r] == regs[r]
        }),
{
    reveal_with_fuel(run, 2);
}

/// Whether instruction `i` is the last that needs register `r`: it reads it, none after it does, and it is
/// not part of the result.
pub open spec fn needs_last(words: Seq<u32>, accs: Seq<u32>, n: nat, i: int, r: u32) -> bool {
    &&& reads(words, i, r)
    &&& forall|k: int| i < k < n ==> !#[trigger] reads(words, k, r)
    &&& r != accs[0] && r != accs[1] && r != accs[2] && r != accs[3]
}

/// A register that was given back last is taken next: where an instruction is the last to need its second
/// operand, the next instruction's result takes the place of that operand; else, where it is the last to
/// need its first, of that one.
pub proof fn law_freed_register_is_taken_next(
    before: ConstraintProgram,
    after: ConstraintProgram,
    i: int,
)
    requires
        before.well_formed(),
        before.instructions() <= u32::MAX,
        before.ssa(),
        after.compacts(before),
        0 <= i,
        i + 1 < before.instructions(),
    ensures
        ({
            let (words, accs) = (before.words@, before.accumulator_regs@);
            let n = before.instructions();
            let (a, b) = (arg0_at(words, i), arg1_at(words, i));
            let binary = is_binary(op_at(words, i));
            &&& binary && a != b && needs_last(words, accs, n, i, b) ==> dst_at(after.words@, i + 1)
                == arg1_at(after.words@, i)
            &&& (binary && (a == b || !needs_last(words, accs, n, i, b)) || op_at(words, i)
                == OP_NEG) && needs_last(words, accs, n, i, a) ==> dst_at(after.words@, i + 1)
                == arg0_at(after.words@, i)
        }),
{
    let (words, accs) = (before.words@, before.accumulator_regs@);
    let n = before.instructions();
    let nr = before.num_regs as nat;
    let remap = assignment(words, accs, nr, n, n).remap;
    let (a, b, op) = (arg0_at(words, i), arg1_at(words, i), op_at(words, i));
    let next = dst_at(words, i + 1);
    let k = (i + 1) as nat;
    lemma_renamed_at(words, remap, n, i);
    lemma_renamed_at(words, remap, n, i + 1);
    lemma_remap_len(words, accs, nr, n, k);
    lemma_remap_len(words, accs, nr, n, k + 1);
    lemma_held_step(words, accs, n, i, a);
    lemma_held_step(words, accs, n, i, b);
    assert(dst_at(words, i + 1) == next);
    assert(defined(words, next, i + 2));
    lemma_remap_stable(words, accs, nr, n, k + 1, n, next);
    let s = assignment(words, accs, nr, n, k);
    let t = assignment(words, accs, nr, n, k + 1);
    assert(next < nr);
    if needs_last(words, accs, n, i, a) {
        lemma_needs_last(words, accs, n, i, a);
        lemma_defined_later(words, a, i, k as int);
        lemma_remap_stable(words, accs, nr, n, k, n, a);
    }
    if needs_last(words, accs, n, i, b) {
        lemma_needs_last(words, accs, n, i, b);
        lemma_defined_later(words, b, i, k as int);
        lemma_remap_stable(words, accs, nr, n, k, n, b);
    }
    if is_binary(op) && a != b && needs_last(words, accs, n, i, b) {
        assert(s.free.len() > 0 && s.free.last() == s.remap[b as int]);
        assert(t.remap[next as int] == s.free.last());
    }
    if (is_binary(op) && (a == b || !needs_last(words, accs, n, i, b)) || op == OP_NEG)
        && needs_last(words, accs, n, i, a) {
        if is_binary(op) && a != b && last_use(words, accs, b, n) == i {
            lemma_last_use_is_needed_last(words, accs, n, i, b);
        }
        assert(s.free.len() > 0 && s.free.last() == s.remap[a as int]);
        assert(t.remap[next as int] == s.free.last());
    }
}

proof fn lemma_needs_last(words: Seq<u32>, accs: Seq<u32>, n: nat, i: int, r: u32)
    requires
        0 <= i < n,
        needs_last(words, accs, n, i, r),
    ensures
        last_use(words, accs, r, n) == i,
{
    lemma_last_read(words, r, n);
    let u = last_read(words, r, n) as int;
    assert(i <= u);
    if u > i {
        assert(reads(words, u, r));
    }
}

proof fn lemma_last_use_is_needed_last(words: Seq<u32>, accs: Seq<u32>, n: nat, i: int, r: u32)
    requires
        0 <= i < n,
        reads(words, i, r),
        last_use(words, accs, r, n) == i,
    ensures
        needs_last(words, accs, n, i, r),
{
    lemma_last_read(words, r, n);
}

proof fn lemma_defined_later(words: Seq<u32>, r: u32, i: int, k: int)
    requires
        defined(words, r, i),
        i <= k,
    ensures
        defined(words, r, k),
{
    let d = choose|d: int| 0 <= d < i && (#[trigger] dst_at(words, d)) == r;
    assert(dst_at(words, d) == r);
}

} // verus!
