//! The plan of a quotient computation in which each row runs the compiled constraint program.

use vstd::prelude::*;
use vstd::arithmetic::div_mod::*;
use vstd::arithmetic::power2::*;
use crate::babybear::{Felt, P};
use crate::bits;
use crate::builder::SepticDigest;
use crate::chip::{Air, Chip};
use crate::compile;
use crate::ext::Ext;
use crate::ir;
use crate::lde::Coset;
use crate::lookup::InteractionScope;
use crate::matrix::Matrix;
use crate::program;
use crate::program::{ConstraintProgram, Window};
use crate::quotient;
use crate::quotient::Selectors;
use crate::recording::Recording;
use crate::ring;
use crate::ring::Ring;

verus! {

/// Smaller domains are not worth a dispatch.
pub const MIN_DISPATCH_SIZE: usize = 8192;

/// Programs with more registers than this cannot be dispatched.
pub const MAX_DISPATCH_REGS: u32 = 4096;

/// The Montgomery form of an element, as it is held in memory.
pub open spec fn raw(a: Felt) -> u32 {
    ((a.value * 0x1_0000_0000) % (P as int)) as u32
}

/// The Montgomery forms of elements.
pub open spec fn raw_all(xs: Seq<Felt>) -> Seq<u32> {
    Seq::new(xs.len(), |i: int| raw(xs[i]))
}

/// The element that a Montgomery form stands for.
pub fn from_raw(w: u32) -> (r: Felt)
    ensures
        r == program::from_monty(w),
{
    assert(0 <= w * program::MONTY_INVERSE <= 0xffff_ffff * 0xffff_ffff) by (nonlinear_arith)
        requires
            0 <= w <= 0xffff_ffff,
            0 <= program::MONTY_INVERSE <= 0xffff_ffff,
    ;
    Felt { value: ((w as u64 * program::MONTY_INVERSE as u64) % (P as u64)) as u32 }
}

pub fn to_raw_all(xs: &Vec<Felt>) -> (r: Vec<u32>)
    ensures
        r@ == raw_all(xs@),
{
    let mut r: Vec<u32> = Vec::new();
    let mut i: usize = 0;
    while i < xs.len()
        invariant
            i <= xs@.len(),
            r@ == raw_all(xs@).take(i as int),
        decreases xs@.len() - i,
    {
        r.push(ir::to_monty(xs[i].value));
        i = i + 1;
        assert(r@ =~= raw_all(xs@).take(i as int));
    }
    assert(raw_all(xs@).take(i as int) =~= raw_all(xs@));
    r
}

/// The selectors of a point, in the order in which the program's host reads them.
pub open spec fn selector_at(sels: Selectors, i: int, k: int) -> Felt {
    if k == 0 {
        sels.is_first_row@[i]
    } else if k == 1 {
        sels.is_last_row@[i]
    } else if k == 2 {
        sels.is_transition@[i]
    } else {
        sels.inv_zeroifier@[i]
    }
}

/// The selectors of all points, in Montgomery form.
pub open spec fn packed(sels: Selectors, n: nat) -> Seq<u32> {
    Seq::new(4 * n, |p: int| raw(selector_at(sels, p / 4, p % 4)))
}

/// Packs selectors, four words for each point.
pub fn pack_selectors(sels: &Selectors) -> (r: Vec<u32>)
    requires
        sels.has_size(sels.is_first_row@.len()),
    ensures
        r@ == packed(*sels, sels.is_first_row@.len()),
{
    let n: usize = sels.is_first_row.len();
    let mut r: Vec<u32> = Vec::new();
    let mut i: usize = 0;
    while i < n
        invariant
            i <= n,
            n == sels.is_first_row@.len(),
            sels.has_size(n as nat),
            r@ == packed(*sels, i as nat),
        decreases n - i,
    {
        let ghost before = r@;
        r.push(ir::to_monty(sels.is_first_row[i].value));
        r.push(ir::to_monty(sels.is_last_row[i].value));
        r.push(ir::to_monty(sels.is_transition[i].value));
        r.push(ir::to_monty(sels.inv_zeroifier[i].value));
        proof {
            let after = packed(*sels, (i + 1) as nat);
            assert forall|p: int| 0 <= p < after.len() implies r@[p] == after[p] by {
                if p < 4 * i {
                    assert(r@[p] == before[p]);
                } else {
                    assert(p / 4 == i);
                    assert(p % 4 == p - 4 * i);
                }
            }
            assert(r@ =~= after);
        }
        i = i + 1;
    }
    r
}

/// The selectors of the trace domain on the quotient domain, packed.
pub fn compute_selector_data(trace_domain: Coset, quotient_domain: Coset) -> (r: Vec<u32>)
    requires
        quotient::selectable(trace_domain, quotient_domain),
    ensures
        r@.len() == 4 * pow2(quotient_domain.log_n as nat),
        exists|sels: Selectors|
            {
                &&& sels.has_size(pow2(quotient_domain.log_n as nat))
                &&& forall|i: int|
                    0 <= i < pow2(quotient_domain.log_n as nat) ==> quotient::selects(
                        sels,
                        trace_domain,
                        #[trigger] quotient::point(quotient_domain, i),
                        i,
                    )
                &&& r@ == #[trigger] packed(sels, pow2(quotient_domain.log_n as nat))
            },
{
    let sels: Selectors = quotient::selectors_on_coset(trace_domain, quotient_domain);
    let r = pack_selectors(&sels);
    proof {
        let n = pow2(quotient_domain.log_n as nat);
        assert forall|i: int| 0 <= i < n implies quotient::selects(
            sels,
            trace_domain,
            #[trigger] quotient::point(quotient_domain, i),
            i,
        ) by {
            assert(sels.is_first_row@[i] == sels.is_first_row@[i]);
            assert(sels.is_last_row@[i] == sels.is_last_row@[i]);
            assert(sels.is_transition@[i] == sels.is_transition@[i]);
            assert(sels.inv_zeroifier@[i] == sels.inv_zeroifier@[i]);
        }
        assert(r@ == packed(sels, n));
    }
    r
}

/// The size of the register file that a program is run with.
pub open spec fn tier_of(num_regs: u32) -> u32 {
    if num_regs <= 256 {
        256
    } else if num_regs <= 512 {
        512
    } else if num_regs <= 1024 {
        1024
    } else if num_regs <= 2048 {
        2048
    } else {
        4096
    }
}

pub fn register_tier(num_regs: u32) -> (r: u32)
    ensures
        r == tier_of(num_regs),
        num_regs <= MAX_DISPATCH_REGS ==> num_regs <= r,
{
    if num_regs <= 256 {
        256
    } else if num_regs <= 512 {
        512
    } else if num_regs <= 1024 {
        1024
    } else if num_regs <= 2048 {
        2048
    } else {
        4096
    }
}

/// What a host needs to run a chip's constraint program over all rows of the quotient domain.
#[derive(Debug)]
pub struct ChipDispatch {
    pub program: ConstraintProgram,
    pub main: Vec<u32>,
    pub main_width: u32,
    pub prep: Vec<u32>,
    pub prep_width: u32,
    pub perm: Vec<u32>,
    pub perm_width: u32,
    pub selectors: Vec<u32>,
    pub quotient_size: u32,
    pub next_step: u32,
    /// Whether the rows of the traces are in bit-reversed order.
    pub bit_reversed: bool,
}

/// Whether a program computes the folded constraints of a chip.
pub open spec fn computes<A: Air>(
    program: ConstraintProgram,
    chip: Chip<A>,
    prep_width: usize,
    main_width: usize,
    scope: InteractionScope,
    local_sum: Ext,
    digest: SepticDigest,
    challenges: Seq<Ext>,
    alpha: Ext,
    public_values: Seq<Felt>,
) -> bool {
    &&& program.compiles(
        recorded(
            chip,
            prep_width,
            main_width,
            scope,
            local_sum,
            digest,
            challenges,
            alpha,
            public_values,
        ),
    )
    &&& program.orderly()
    &&& program.well_formed()
    &&& program.main_width == compile::at_least_one(main_width)
    &&& program.prep_width == compile::at_least_one(prep_width)
    &&& program.perm_u32_width == 4 * chip.perm_width()
    &&& forall|env: Window| #[trigger]
        program.result(env) == ir::coordinates(
            compile::folded_constraints(
                chip,
                scope,
                compile::reduced_all(challenges),
                ring::reduced(local_sum),
                digest,
                ring::reduced(alpha),
                compile::at_least_one(main_width) as nat,
                public_values,
                env,
            ),
        )
}

/// What is recorded for a chip; a width of zero counts as one.
pub open spec fn recorded<A: Air>(
    chip: Chip<A>,
    prep_width: usize,
    main_width: usize,
    scope: InteractionScope,
    local_sum: Ext,
    digest: SepticDigest,
    challenges: Seq<Ext>,
    alpha: Ext,
    public_values: Seq<Felt>,
) -> Recording {
    compile::recording(
        chip,
        compile::at_least_one(prep_width),
        compile::at_least_one(main_width),
        scope,
        local_sum,
        digest,
        challenges,
        alpha,
        public_values,
    )
}

/// Whether the registers of a recording can be numbered, and no more than a dispatch may have are
/// left when they are compacted.
pub open spec fn few_registers(s: Recording) -> bool {
    let n = s.count();
    &&& n <= u32::MAX
    &&& program::assignment(s.tape.words, s.accs(), s.tape.next as nat, n, n).next
        <= MAX_DISPATCH_REGS
}

/// Plans a dispatch of a compiled program, unless it needs too many registers.
pub fn plan_dispatch(
    program: ConstraintProgram,
    preprocessed: &Option<Matrix<Felt>>,
    main: &Matrix<Felt>,
    perm: &Matrix<Felt>,
    selectors: Vec<u32>,
    quotient_size: u32,
    next_step: u32,
) -> (r: Option<ChipDispatch>)
    ensures
        r is Some <==> program.num_regs <= MAX_DISPATCH_REGS,
        r matches Some(d) ==> {
            &&& d.program == program
            &&& d.main@ == raw_all(main.values@)
            &&& d.main_width == main.width as u32
            &&& d.prep@ == match *preprocessed {
                Some(m) => raw_all(m.values@),
                None => Seq::empty(),
            }
            &&& d.prep_width == match *preprocessed {
                Some(m) => m.width as u32,
                None => 1u32,
            }
            &&& d.perm@ == raw_all(perm.values@)
            &&& d.perm_width == perm.width as u32
            &&& d.selectors == selectors
            &&& d.quotient_size == quotient_size
            &&& d.next_step == next_step
            &&& !d.bit_reversed
        },
{
    if program.num_regs > MAX_DISPATCH_REGS {
        return None;
    }
    let (prep, prep_width): (Vec<u32>, u32) = match preprocessed {
        Some(m) => (to_raw_all(&m.values), m.width as u32),
        None => (Vec::new(), 1),
    };
    Some(
        ChipDispatch {
            program,
            main: to_raw_all(&main.values),
            main_width: main.width as u32,
            prep,
            prep_width,
            perm: to_raw_all(&perm.values),
            perm_width: perm.width as u32,
            selectors,
            quotient_size,
            next_step,
            bit_reversed: false,
        },
    )
}

/// The size of a domain and the distance between rows of the trace on it.
fn domain_steps(trace_domain: Coset, quotient_domain: Coset) -> (r: (usize, usize))
    requires
        trace_domain.log_n <= quotient_domain.log_n <= 27,
    ensures
        r.0 == pow2(quotient_domain.log_n as nat),
        r.1 == quotient::step(trace_domain, quotient_domain),
        r.0 <= 0x800_0000,
        r.1 <= 0x800_0000,
{
    let qdb: usize = quotient_domain.log_n - trace_domain.log_n;
    proof {
        bits::lemma_pow2_fits(quotient_domain.log_n as nat);
        bits::lemma_pow2_fits(qdb as nat);
        vstd::bits::lemma_usize_shl_is_mul(1, quotient_domain.log_n);
        vstd::bits::lemma_usize_shl_is_mul(1, qdb);
        if quotient_domain.log_n < 27 {
            lemma_pow2_strictly_increases(quotient_domain.log_n as nat, 27);
        }
        if qdb < 27 {
            lemma_pow2_strictly_increases(qdb as nat, 27);
        }
        lemma2_to64();
    }
    (1 << quotient_domain.log_n, 1 << qdb)
}

/// What both ways to prepare a dispatch promise.
pub open spec fn dispatches<A: Air>(
    d: ChipDispatch,
    chip: Chip<A>,
    prep_width: usize,
    main_width: usize,
    scope: InteractionScope,
    local_sum: Ext,
    digest: SepticDigest,
    challenges: Seq<Ext>,
    alpha: Ext,
    public_values: Seq<Felt>,
    trace_domain: Coset,
    quotient_domain: Coset,
) -> bool {
    &&& computes(
        d.program,
        chip,
        prep_width,
        main_width,
        scope,
        local_sum,
        digest,
        challenges,
        alpha,
        public_values,
    )
    &&& d.program.num_regs <= MAX_DISPATCH_REGS
    &&& d.quotient_size == pow2(quotient_domain.log_n as nat)
    &&& d.next_step == quotient::step(trace_domain, quotient_domain)
    &&& d.quotient_size >= MIN_DISPATCH_SIZE
}

/// Whether packed selectors are those of the trace domain on the quotient domain.
pub open spec fn are_selectors(data: Seq<u32>, trace_domain: Coset, quotient_domain: Coset) -> bool {
    exists|sels: Selectors|
        {
            &&& sels.has_size(pow2(quotient_domain.log_n as nat))
            &&& forall|i: int|
                0 <= i < pow2(quotient_domain.log_n as nat) ==> quotient::selects(
                    sels,
                    trace_domain,
                    #[trigger] quotient::point(quotient_domain, i),
                    i,
                )
            &&& data == #[trigger] packed(sels, pow2(quotient_domain.log_n as nat))
        }
}

/// Prepares the dispatch of a chip: nothing if the domain is small, or the program too large.
pub fn prepare_quotient_dispatch<A: Air>(
    chip: &Chip<A>,
    prep_width: usize,
    main_width_from_air: usize,
    commit_scope: InteractionScope,
    local_cumulative_sum: Ext,
    global_cumulative_sum: SepticDigest,
    trace_domain: Coset,
    quotient_domain: Coset,
    preprocessed_trace_on_quotient_domain: &Option<Matrix<Felt>>,
    main_trace_on_quotient_domain: &Matrix<Felt>,
    permutation_trace_on_quotient_domain: &Matrix<Felt>,
    perm_challenges: &Vec<Ext>,
    alpha: Ext,
    public_values: &Vec<Felt>,
) -> (r: Option<ChipDispatch>)
    requires
        quotient::selectable(trace_domain, quotient_domain),
        compile::compilable(
            *chip,
            compile::at_least_one(prep_width) as nat,
            compile::at_least_one(main_width_from_air) as nat,
            commit_scope,
            perm_challenges@.len(),
            public_values@.len(),
        ),
    ensures
        r is Some <==> pow2(quotient_domain.log_n as nat) >= MIN_DISPATCH_SIZE && few_registers(
            recorded(
                *chip,
                prep_width,
                main_width_from_air,
                commit_scope,
                local_cumulative_sum,
                global_cumulative_sum,
                perm_challenges@,
                alpha,
                public_values@,
            ),
        ),
        r matches Some(d) ==> {
            &&& dispatches(
                d,
                *chip,
                prep_width,
                main_width_from_air,
                commit_scope,
                local_cumulative_sum,
                global_cumulative_sum,
                perm_challenges@,
                alpha,
                public_values@,
                trace_domain,
                quotient_domain,
            )
            &&& d.main@ == raw_all(main_trace_on_quotient_domain.values@)
            &&& d.main_width == main_trace_on_quotient_domain.width as u32
            &&& d.prep@ == match *preprocessed_trace_on_quotient_domain {
                Some(m) => raw_all(m.values@),
                None => Seq::empty(),
            }
            &&& d.prep_width == match *preprocessed_trace_on_quotient_domain {
                Some(m) => m.width as u32,
                None => 1u32,
            }
            &&& d.perm@ == raw_all(permutation_trace_on_quotient_domain.values@)
            &&& d.perm_width == permutation_trace_on_quotient_domain.width as u32
            &&& are_selectors(d.selectors@, trace_domain, quotient_domain)
            &&& !d.bit_reversed
        },
{
    let (quotient_size, next_step) = domain_steps(trace_domain, quotient_domain);
    if quotient_size < MIN_DISPATCH_SIZE {
        return None;
    }
    let compiled = compile::compile_constraints(
        chip,
        prep_width,
        main_width_from_air,
        commit_scope,
        local_cumulative_sum,
        global_cumulative_sum,
        perm_challenges,
        alpha,
        public_values,
    );
    match compiled {
        Some(program) => {
            assert(computes(
                program,
                *chip,
                prep_width,
                main_width_from_air,
                commit_scope,
                local_cumulative_sum,
                global_cumulative_sum,
                perm_challenges@,
                alpha,
                public_values@,
            ));
            if program.num_regs > MAX_DISPATCH_REGS {
                return None;
            }
            let selectors = compute_selector_data(trace_domain, quotient_domain);
            plan_dispatch(
                program,
                preprocessed_trace_on_quotient_domain,
                main_trace_on_quotient_domain,
                permutation_trace_on_quotient_domain,
                selectors,
                quotient_size as u32,
                next_step as u32,
            )
        },
        None => None,
    }
}

fn copy_words(xs: &Vec<u32>) -> (r: Vec<u32>)
    ensures
        r@ == xs@,
{
    let mut r: Vec<u32> = Vec::new();
    let mut i: usize = 0;
    while i < xs.len()
        invariant
            i <= xs@.len(),
            r@ == xs@.take(i as int),
        decreases xs@.len() - i,
    {
        r.push(xs[i]);
        i = i + 1;
        assert(r@ =~= xs@.take(i as int));
    }
    assert(xs@.take(i as int) =~= xs@);
    r
}

/// Plans a dispatch of a compiled program over extensions whose rows are in bit-reversed order:
/// nothing if it needs too many registers, or if an extension does not have a row for each point.
pub fn plan_dispatch_bitrev(
    program: ConstraintProgram,
    preprocessed: Option<&Matrix<Felt>>,
    prep_lde_width: usize,
    main: &Matrix<Felt>,
    perm: &Matrix<Felt>,
    selectors: Vec<u32>,
    quotient_size: usize,
    next_step: usize,
) -> (r: Option<ChipDispatch>)
    requires
        main.width > 0,
        perm.width > 0,
        preprocessed matches Some(m) ==> m.width > 0 && m.width == prep_lde_width,
    ensures
        r is Some <==> program.num_regs <= MAX_DISPATCH_REGS && main.rows() == quotient_size
            && perm.rows() == quotient_size && (preprocessed matches Some(m) ==> m.rows()
            == quotient_size),
        r matches Some(d) ==> {
            &&& d.program == program
            &&& d.main@ == raw_all(main.values@)
            &&& d.main_width == main.width as u32
            &&& d.prep@ == match preprocessed {
                Some(m) => raw_all(m.values@),
                None => Seq::empty(),
            }
            &&& d.prep_width == compile::at_least_one(prep_lde_width) as u32
            &&& d.perm@ == raw_all(perm.values@)
            &&& d.perm_width == perm.width as u32
            &&& d.selectors == selectors
            &&& d.quotient_size == quotient_size as u32
            &&& d.next_step == next_step as u32
            &&& d.bit_reversed
        },
{
    if program.num_regs > MAX_DISPATCH_REGS {
        return None;
    }
    if main.height() != quotient_size || perm.height() != quotient_size {
        return None;
    }
    let prep: Vec<u32> = match preprocessed {
        Some(m) => {
            if m.height() != quotient_size {
                return None;
            }
            to_raw_all(&m.values)
        },
        None => Vec::new(),
    };
    let prep_width: usize = if prep_lde_width == 0 {
        1
    } else {
        prep_lde_width
    };
    Some(
        ChipDispatch {
            program,
            main: to_raw_all(&main.values),
            main_width: main.width as u32,
            prep,
            prep_width: prep_width as u32,
            perm: to_raw_all(&perm.values),
            perm_width: perm.width as u32,
            selectors,
            quotient_size: quotient_size as u32,
            next_step: next_step as u32,
            bit_reversed: true,
        },
    )
}

/// Prepares the dispatch of a chip over extensions whose rows are in bit-reversed order; the
/// selectors are taken from the cache where they are given.
pub fn prepare_quotient_dispatch_bitrev<A: Air>(
    chip: &Chip<A>,
    prep_width: usize,
    main_width_from_air: usize,
    commit_scope: InteractionScope,
    local_cumulative_sum: Ext,
    global_cumulative_sum: SepticDigest,
    trace_domain: Coset,
    quotient_domain: Coset,
    main_lde: &Matrix<Felt>,
    prep_lde: Option<&Matrix<Felt>>,
    prep_lde_width: usize,
    perm_lde: &Matrix<Felt>,
    perm_challenges: &Vec<Ext>,
    alpha: Ext,
    public_values: &Vec<Felt>,
    cached_selectors: Option<&Vec<u32>>,
) -> (r: Option<ChipDispatch>)
    requires
        quotient::selectable(trace_domain, quotient_domain),
        main_lde.width > 0,
        perm_lde.width > 0,
        prep_lde matches Some(m) ==> m.width > 0 && m.width == prep_lde_width,
        compile::compilable(
            *chip,
            compile::at_least_one(prep_width) as nat,
            compile::at_least_one(main_width_from_air) as nat,
            commit_scope,
            perm_challenges@.len(),
            public_values@.len(),
        ),
    ensures
        r is Some <==> {
            &&& pow2(quotient_domain.log_n as nat) >= MIN_DISPATCH_SIZE
            &&& few_registers(
                recorded(
                    *chip,
                    prep_width,
                    main_width_from_air,
                    commit_scope,
                    local_cumulative_sum,
                    global_cumulative_sum,
                    perm_challenges@,
                    alpha,
                    public_values@,
                ),
            )
            &&& main_lde.rows() == pow2(quotient_domain.log_n as nat)
            &&& perm_lde.rows() == pow2(quotient_domain.log_n as nat)
            &&& prep_lde matches Some(m) ==> m.rows() == pow2(quotient_domain.log_n as nat)
        },
        r matches Some(d) ==> {
            &&& dispatches(
                d,
                *chip,
                prep_width,
                main_width_from_air,
                commit_scope,
                local_cumulative_sum,
                global_cumulative_sum,
                perm_challenges@,
                alpha,
                public_values@,
                trace_domain,
                quotient_domain,
            )
            &&& d.main@ == raw_all(main_lde.values@)
            &&& d.main_width == main_lde.width as u32
            &&& d.prep@ == match prep_lde {
                Some(m) => raw_all(m.values@),
                None => Seq::empty(),
            }
            &&& d.prep_width == compile::at_least_one(prep_lde_width) as u32
            &&& d.perm@ == raw_all(perm_lde.values@)
            &&& d.perm_width == perm_lde.width as u32
            &&& match cached_selectors {
                Some(cached) => d.selectors@ == cached@,
                None => are_selectors(d.selectors@, trace_domain, quotient_domain),
            }
            &&& d.bit_reversed
        },
{
    let (quotient_size, next_step) = domain_steps(trace_domain, quotient_domain);
    if quotient_size < MIN_DISPATCH_SIZE {
        return None;
    }
    let compiled = compile::compile_constraints(
        chip,
        prep_width,
        main_width_from_air,
        commit_scope,
        local_cumulative_sum,
        global_cumulative_sum,
        perm_challenges,
        alpha,
        public_values,
    );
    match compiled {
        Some(program) => {
            assert(computes(
                program,
                *chip,
                prep_width,
                main_width_from_air,
                commit_scope,
                local_cumulative_sum,
                global_cumulative_sum,
                perm_challenges@,
                alpha,
                public_values@,
            ));
            let selectors: Vec<u32> = match cached_selectors {
                Some(cached) => copy_words(cached),
                None => compute_selector_data(trace_domain, quotient_domain),
            };
            plan_dispatch_bitrev(
                program,
                prep_lde,
                prep_lde_width,
                main_lde,
                perm_lde,
                selectors,
                quotient_size,
                next_step,
            )
        },
        None => None,
    }
}

/// The quotient values in the words that running a dispatch leaves, four for each point.
pub fn dispatch_to_quotient_values(results: &Vec<u32>) -> (r: Vec<Ext>)
    ensures
        r@.len() == results@.len() / 4,
        forall|i: int|
            0 <= i < r@.len() ==> #[trigger] r@[i] == (Ext {
                c0: program::from_monty(results@[4 * i]),
                c1: program::from_monty(results@[4 * i + 1]),
                c2: program::from_monty(results@[4 * i + 2]),
                c3: program::from_monty(results@[4 * i + 3]),
            }),
{
    let len: usize = results.len();
    let n: usize = len / 4;
    let mut r: Vec<Ext> = Vec::new();
    let mut i: usize = 0;
    while i < n
        invariant
            i <= n,
            n == len / 4,
            len == results@.len(),
            r@.len() == i,
            forall|k: int|
                0 <= k < i ==> #[trigger] r@[k] == (Ext {
                    c0: program::from_monty(results@[4 * k]),
                    c1: program::from_monty(results@[4 * k + 1]),
                    c2: program::from_monty(results@[4 * k + 2]),
                    c3: program::from_monty(results@[4 * k + 3]),
                }),
        decreases n - i,
    {
        assert(4 * i + 3 < len);
        r.push(
            Ext {
                c0: from_raw(results[4 * i]),
                c1: from_raw(results[4 * i + 1]),
                c2: from_raw(results[4 * i + 2]),
                c3: from_raw(results[4 * i + 3]),
            },
        );
        i = i + 1;
    }
    r
}

/// Running the program of a dispatch on the rows of a point gives the quotient there, up to the
/// inverse of the vanishing polynomial.
pub proof fn law_dispatch_agrees<A: Air>(
    d: ChipDispatch,
    values: Seq<Ext>,
    chip: Chip<A>,
    prep_width: usize,
    scope: InteractionScope,
    local_sum: Ext,
    digest: SepticDigest,
    challenges: Seq<Ext>,
    alpha: Ext,
    public_values: Seq<Felt>,
    trace_domain: Coset,
    quotient_domain: Coset,
    preprocessed: Option<Matrix<Felt>>,
    main: Matrix<Felt>,
    perm: Matrix<Felt>,
    sels: Selectors,
    i: int,
)
    requires
        dispatches(
            d,
            chip,
            prep_width,
            main.width,
            scope,
            local_sum,
            digest,
            challenges,
            alpha,
            public_values,
            trace_domain,
            quotient_domain,
        ),
        quotient::is_quotient(
            values,
            chip,
            scope,
            local_sum,
            digest,
            trace_domain,
            quotient_domain,
            preprocessed,
            main,
            perm,
            challenges,
            alpha,
            public_values,
            sels,
        ),
        main.width > 0,
        ring::reduced(local_sum) == local_sum,
        ring::reduced(alpha) == alpha,
        compile::reduced_all(challenges) == challenges,
        0 <= i < pow2(quotient_domain.log_n as nat),
    ensures
        ({
            let out = d.program.result(
                quotient::quotient_window(
                    preprocessed,
                    main,
                    perm,
                    sels,
                    d.quotient_size as int,
                    d.next_step as int,
                    i,
                ),
            );
            values[i] == (Ext { c0: out[0], c1: out[1], c2: out[2], c3: out[3] }).times(
                crate::ext::embed(sels.inv_zeroifier@[i]),
            )
        }),
{
    let env = quotient::quotient_window(
        preprocessed,
        main,
        perm,
        sels,
        d.quotient_size as int,
        d.next_step as int,
        i,
    );
    let x = compile::folded_constraints(
        chip,
        scope,
        challenges,
        local_sum,
        digest,
        alpha,
        main.width as nat,
        public_values,
        env,
    );
    assert(d.program.result(env) == ir::coordinates(x));
    assert(values[i] == x.times(crate::ext::embed(sels.inv_zeroifier@[i])));
}

/// Selectors that were computed before, by the logarithms of the sizes of the two domains. The
/// shifts of the domains are the same for all of them.
pub struct SelectorCache {
    pub trace_shift: Felt,
    pub quotient_shift: Felt,
    pub entries: Vec<((usize, usize), Vec<u32>)>,
}

impl SelectorCache {
    /// Every entry holds the selectors of its domains.
    pub open spec fn well_formed(&self) -> bool {
        forall|i: int|
            0 <= i < self.entries@.len() ==> are_selectors(
                (#[trigger] self.entries@[i]).1@,
                Coset { log_n: self.entries@[i].0.0, shift: self.trace_shift },
                Coset { log_n: self.entries@[i].0.1, shift: self.quotient_shift },
            )
    }

    pub fn new(trace_shift: Felt, quotient_shift: Felt) -> (r: Self)
        ensures
            r.well_formed(),
            r.trace_shift == trace_shift,
            r.quotient_shift == quotient_shift,
            r.entries@.len() == 0,
    {
        SelectorCache { trace_shift, quotient_shift, entries: Vec::new() }
    }

    /// The place of the selectors of two domains; they are computed where they are not there yet.
    pub fn lookup(&mut self, trace_domain: Coset, quotient_domain: Coset) -> (r: usize)
        requires
            old(self).well_formed(),
            trace_domain.shift == old(self).trace_shift,
            quotient_domain.shift == old(self).quotient_shift,
            quotient::selectable(trace_domain, quotient_domain),
        ensures
            final(self).well_formed(),
            final(self).trace_shift == old(self).trace_shift,
            final(self).quotient_shift == old(self).quotient_shift,
            r < final(self).entries@.len(),
            final(self).entries@[r as int].0 == (trace_domain.log_n, quotient_domain.log_n),
            are_selectors(final(self).entries@[r as int].1@, trace_domain, quotient_domain),
            old(self).entries@.is_prefix_of(final(self).entries@),
            final(self).entries@.len() == old(self).entries@.len() + if exists|i: int|
                0 <= i < old(self).entries@.len() && (#[trigger] old(self).entries@[i]).0 == (
                    trace_domain.log_n,
                    quotient_domain.log_n,
                ) {
                0int
            } else {
                1
            },
    {
        let mut i: usize = 0;
        while i < self.entries.len()
            invariant
                i <= self.entries@.len(),
                *self == *old(self),
                self.well_formed(),
                trace_domain.shift == self.trace_shift,
                quotient_domain.shift == self.quotient_shift,
                forall|k: int|
                    0 <= k < i ==> (#[trigger] self.entries@[k]).0 != (
                        trace_domain.log_n,
                        quotient_domain.log_n,
                    ),
            decreases self.entries@.len() - i,
        {
            let (log_trace, log_quotient) = self.entries[i].0;
            if log_trace == trace_domain.log_n && log_quotient == quotient_domain.log_n {
                assert(self.entries@[i as int].0 == (trace_domain.log_n, quotient_domain.log_n));
                return i;
            }
            i = i + 1;
        }
        let ghost before = self.entries@;
        let data = compute_selector_data(trace_domain, quotient_domain);
        self.entries.push(((trace_domain.log_n, quotient_domain.log_n), data));
        assert forall|k: int| 0 <= k < self.entries@.len() implies are_selectors(
            (#[trigger] self.entries@[k]).1@,
            Coset { log_n: self.entries@[k].0.0, shift: self.trace_shift },
            Coset { log_n: self.entries@[k].0.1, shift: self.quotient_shift },
        ) by {
            if k < i {
                assert(self.entries@[k] == before[k]);
            }
        }
        i
    }
}

/// A word in Montgomery form is the element that it stands for, times `2^32`: the form of an element
/// stands for it, and what a word stands for has that form.
pub proof fn law_montgomery_form(a: Felt, w: u32)
    ensures
        raw(a) < P,
        program::from_monty(raw(a)) == ring::reduced(a),
        (program::from_monty(w).value * 0x1_0000_0000) % (P as int) == w % P,
{
    let p = P as int;
    let v = program::MONTY_INVERSE as int;
    ir::lemma_monty_round_trip(a.value as int);
    lemma_mod_bound(a.value * 0x1_0000_0000, p);
    lemma_mul_mod_noop_left(w * v, 0x1_0000_0000, p);
    vstd::arithmetic::mul::lemma_mul_is_associative(w as int, v, 0x1_0000_0000);
    assert((v * 0x1_0000_0000) % p == 1);
    lemma_mul_mod_noop_right(w as int, v * 0x1_0000_0000, p);
    ring::lemma_mul_one(a);
}

/// The register file of a program is the smallest one that it fits in: two hundred and fifty-six
/// registers, or twice as many as long as they are too few, up to four thousand and ninety-six.
pub proof fn law_tier_is_smallest(num_regs: u32)
    ensures
        exists|k: nat| k <= 4 && tier_of(num_regs) == 256 * #[trigger] pow2(k),
        num_regs <= 4096 ==> num_regs <= tier_of(num_regs),
        tier_of(num_regs) > 256 ==> 2 * num_regs > tier_of(num_regs),
{
    lemma2_to64();
    let k: nat = if num_regs <= 256 {
        0
    } else if num_regs <= 512 {
        1
    } else if num_regs <= 1024 {
        2
    } else if num_regs <= 2048 {
        3
    } else {
        4
    };
    assert(tier_of(num_regs) == 256 * pow2(k));
}

/// The packed selectors of a point are four words in a row: those of the first row, the last row, the
/// transition and the inverse of the vanishing polynomial.
pub proof fn law_packed_selectors(sels: Selectors, n: nat, i: int)
    requires
        0 <= i < n,
        sels.has_size(n),
    ensures
        packed(sels, n).len() == 4 * n,
        program::from_monty(packed(sels, n)[4 * i]) == ring::reduced(sels.is_first_row@[i]),
        program::from_monty(packed(sels, n)[4 * i + 1]) == ring::reduced(sels.is_last_row@[i]),
        program::from_monty(packed(sels, n)[4 * i + 2]) == ring::reduced(sels.is_transition@[i]),
        program::from_monty(packed(sels, n)[4 * i + 3]) == ring::reduced(sels.inv_zeroifier@[i]),
{
    law_montgomery_form(sels.is_first_row@[i], 0);
    law_montgomery_form(sels.is_last_row@[i], 0);
    law_montgomery_form(sels.is_transition@[i], 0);
    law_montgomery_form(sels.inv_zeroifier@[i], 0);
    assert((4 * i) / 4 == i && (4 * i) % 4 == 0);
    assert((4 * i + 1) / 4 == i && (4 * i + 1) % 4 == 1);
    assert((4 * i + 2) / 4 == i && (4 * i + 2) % 4 == 2);
    assert((4 * i + 3) / 4 == i && (4 * i + 3) % 4 == 3);
}

/// When a recording can be dispatched: the compacted program has at most four thousand and ninety-six
/// registers.
pub proof fn law_few_registers_are_dispatched(s: Recording, program: ConstraintProgram)
    requires
        s.tape.words.len() / 4 == s.count(),
        program.compacts_words(s.tape.words, s.tape.next as nat, s.accs()),
    ensures
        few_registers(s) <==> s.count() <= u32::MAX && program.num_regs <= 4096,
{
}

} // verus!
