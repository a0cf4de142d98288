use metalspone::babybear::Felt;
use metalspone::builder::SepticDigest;
use metalspone::chip::Chip;
use metalspone::compile::compile_constraints;
use metalspone::constraints::eval_permutation_constraints;
use metalspone::dispatch::{
    compute_selector_data, dispatch_to_quotient_values, from_raw, plan_dispatch,
    plan_dispatch_bitrev, prepare_quotient_dispatch, prepare_quotient_dispatch_bitrev,
    register_tier, to_raw_all, SelectorCache, MIN_DISPATCH_SIZE,
};
use metalspone::domain::TwoAdic;
use metalspone::ext::Ext;
use metalspone::field::{exp_u64, Field};
use metalspone::folder::ConstraintFolder;
use metalspone::ir::to_monty;
use metalspone::lde::Coset;
use metalspone::lookup::{
    scoped_interactions, Interaction, InteractionScope, PairCol, VirtualPairCol,
};
use metalspone::matrix::Matrix;
use metalspone::pcs::{FriConfig, TwoAdicFriPcs};
use metalspone::permutation::{
    generate_permutation_trace, generate_permutation_trace_prescoped,
    local_permutation_trace_width, populate_local_permutation_row,
};
use metalspone::poseidon2::{Poseidon2Chip, IS_REAL_COL, NUM_POSEIDON2_COLS};
use metalspone::program::{
    ConstraintProgram, OP_ADD, OP_CONST, OP_LOAD_MAIN_LOCAL, OP_LOAD_MAIN_NEXT,
    OP_LOAD_PERM_LOCAL, OP_LOAD_PERM_NEXT, OP_LOAD_PREP_LOCAL, OP_LOAD_PREP_NEXT,
    OP_LOAD_SELECTOR, OP_MUL, OP_NEG, OP_SUB,
};
use metalspone::prover::flatten_to_base;
use metalspone::quotient::quotient_values;

fn felt(n: u32) -> Felt {
    Felt { value: n }
}

fn ext(a: u32, b: u32, c: u32, d: u32) -> Ext {
    Ext { c0: felt(a), c1: felt(b), c2: felt(c), c3: felt(d) }
}

fn col(i: usize) -> VirtualPairCol {
    VirtualPairCol { column_weights: vec![(PairCol::Main(i), felt(1))], constant: felt(0) }
}

fn message(values: Vec<usize>, multiplicity: usize) -> Interaction {
    Interaction {
        values: values.into_iter().map(col).collect(),
        multiplicity: col(multiplicity),
        argument_index: 5,
        scope: InteractionScope::Local,
    }
}

fn challenges() -> Vec<Ext> {
    vec![ext(11, 22, 33, 44), ext(7, 0, 5, 3)]
}

fn digest(n: u32) -> SepticDigest {
    SepticDigest { x: [1, 2, 3, 4, 5, 6, 7].map(|i| felt(n + i)), y: [1, 2, 3, 4, 5, 6, 7].map(|i| felt(n + 10 + i)) }
}

/// What is sent in columns 0 and 1 is received from columns 2 and 3.
fn main_trace(rows: usize) -> Matrix<Felt> {
    let mut values = vec![felt(0); rows * NUM_POSEIDON2_COLS];
    for r in 0..rows {
        let row = &mut values[r * NUM_POSEIDON2_COLS..(r + 1) * NUM_POSEIDON2_COLS];
        let from = (r + 1) % rows;
        row[0] = felt(100 + 3 * r as u32);
        row[1] = felt(1 + r as u32);
        row[2] = felt(100 + 3 * from as u32);
        row[3] = felt(1 + from as u32);
        row[4] = felt(17 * r as u32);
        row[IS_REAL_COL] = felt(1 - (r as u32) % 2);
    }
    Matrix { values, width: NUM_POSEIDON2_COLS }
}

fn chip(batch_size: usize) -> Chip<Poseidon2Chip> {
    Chip {
        air: Poseidon2Chip,
        local_sends: vec![message(vec![0], 1), message(vec![4, 4], 570)],
        local_receives: vec![message(vec![2], 3)],
        logup_batch_size: batch_size,
    }
}

struct Rows<'a> {
    prep: [&'a [Felt]; 2],
    main: [&'a [Felt]; 2],
    perm: [&'a [Felt]; 2],
    selectors: [Felt; 3],
}

/// Runs a program on two rows.
fn run(program: &ConstraintProgram, rows: &Rows) -> Ext {
    let mut regs = vec![felt(0); program.num_regs as usize];
    for w in program.words.chunks(4) {
        let (op, dst, a, b) = (w[0], w[1] as usize, w[2] as usize, w[3] as usize);
        regs[dst] = match op {
            OP_CONST => from_raw(w[2]),
            OP_LOAD_MAIN_LOCAL => rows.main[0][a],
            OP_LOAD_MAIN_NEXT => rows.main[1][a],
            OP_LOAD_PREP_LOCAL => rows.prep[0][a],
            OP_LOAD_PREP_NEXT => rows.prep[1][a],
            OP_LOAD_PERM_LOCAL => rows.perm[0][a],
            OP_LOAD_PERM_NEXT => rows.perm[1][a],
            OP_LOAD_SELECTOR => rows.selectors[a],
            OP_ADD => regs[a].add(regs[b]),
            OP_SUB => regs[a].sub(regs[b]),
            OP_MUL => regs[a].mul(regs[b]),
            OP_NEG => regs[a].neg(),
            _ => panic!("no such operation"),
        };
    }
    let acc = program.accumulator_regs.map(|r| regs[r as usize]);
    Ext { c0: acc[0], c1: acc[1], c2: acc[2], c3: acc[3] }
}

fn row(mat: &Matrix<Felt>, r: usize) -> &[Felt] {
    &mat.values[r * mat.width..(r + 1) * mat.width]
}

fn compiled(chip: &Chip<Poseidon2Chip>, scope: InteractionScope, sum: Ext, digest: SepticDigest) -> ConstraintProgram {
    compile_constraints(
        chip,
        0,
        NUM_POSEIDON2_COLS,
        scope,
        sum,
        digest,
        &challenges(),
        ext(3, 1, 4, 1),
        &vec![],
    )
    .unwrap()
}

/// The folded constraints on every row of a trace.
fn residues(program: &ConstraintProgram, main: &Matrix<Felt>, perm: &Matrix<Felt>) -> Vec<Ext> {
    let n = main.height();
    let zero = [felt(0)];
    (0..n)
        .map(|r| {
            let next = (r + 1) % n;
            let flag = |b: bool| felt(u32::from(b));
            run(
                program,
                &Rows {
                    prep: [&zero, &zero],
                    main: [row(main, r), row(main, next)],
                    perm: [row(perm, r), row(perm, next)],
                    selectors: [flag(r == 0), flag(r == n - 1), flag(r < n - 1)],
                },
            )
        })
        .collect()
}

#[test]
fn what_is_sent_and_received_cancels() {
    let main = main_trace(4);
    for batch_size in [1, 2, 3] {
        let chip = chip(batch_size);
        let (trace, sum) = chip.generate_permutation_trace(None, &main, &challenges());
        assert_eq!(sum, Ext::zero());
        assert_eq!(trace.width, chip.permutation_width());
        assert_eq!(trace.width, [4, 3, 2][batch_size - 1]);
        assert_eq!(trace.height(), 4);
        assert_eq!(trace.get(3, trace.width - 1), sum);
    }
}

#[test]
fn the_sum_does_not_depend_on_the_batches() {
    let main = main_trace(4);
    let a = message(vec![0], 1);
    let b = message(vec![4, 1], 3);
    let c = message(vec![2], 4);
    let sum = |sends: Vec<&Interaction>, receives: Vec<&Interaction>, batch_size: usize| {
        generate_permutation_trace_prescoped(&sends, &receives, None, &main, &challenges(), batch_size).1
    };
    let one = sum(vec![&a, &b], vec![&c], 1);
    assert_ne!(one, Ext::zero());
    for batch_size in [2, 3, 4] {
        assert_eq!(sum(vec![&a, &b], vec![&c], batch_size), one);
    }
    // What is received counts against what is sent.
    assert_eq!(sum(vec![&c], vec![&a, &b], 2), one.neg());
    assert_eq!(sum(vec![&a, &b, &c], vec![&a, &b, &c], 2), Ext::zero());
}

#[test]
fn compiling_twice_gives_the_same_program() {
    let first = compiled(&chip(2), InteractionScope::Local, ext(1, 2, 3, 4), digest(0));
    let second = compiled(&chip(2), InteractionScope::Local, ext(1, 2, 3, 4), digest(0));
    assert_eq!(first.words, second.words);
    assert_eq!(first.num_regs, second.num_regs);
    assert_eq!(first.accumulator_regs, second.accumulator_regs);
}

#[test]
fn a_program_loads_first_and_reads_what_was_written() {
    let program = compiled(&chip(2), InteractionScope::Local, ext(1, 2, 3, 4), digest(0));
    assert_eq!(program.words.len() % 4, 0);
    let loads = [
        OP_LOAD_MAIN_LOCAL, OP_LOAD_MAIN_NEXT, OP_LOAD_PREP_LOCAL, OP_LOAD_PREP_NEXT,
        OP_LOAD_PERM_LOCAL, OP_LOAD_PERM_NEXT, OP_LOAD_SELECTOR,
    ];
    let ops: Vec<u32> = program.words.chunks(4).map(|w| w[0]).collect();
    let count = ops.iter().filter(|op| loads.contains(op)).count();
    // Both rows of the main and permutation traces and of the one zero column, and the selectors.
    assert_eq!(count, 2 * NUM_POSEIDON2_COLS + 2 * 12 + 2 + 3);
    assert!(ops[..count].iter().all(|op| loads.contains(op)));

    let mut written = vec![false; program.num_regs as usize];
    for w in program.words.chunks(4) {
        let reads: Vec<u32> = match w[0] {
            OP_ADD | OP_SUB | OP_MUL => vec![w[2], w[3]],
            OP_NEG => vec![w[2]],
            _ => vec![],
        };
        assert!(reads.iter().all(|r| written[*r as usize]));
        written[w[1] as usize] = true;
    }
    assert!(program.accumulator_regs.iter().all(|r| written[*r as usize]));
}

#[test]
fn a_weight_of_one_is_not_multiplied_by() {
    let products = |weight: u32| {
        let mut chip = chip(2);
        chip.local_sends[0].values[0].column_weights[0].1 = felt(weight);
        let program = compiled(&chip, InteractionScope::Local, Ext::zero(), digest(0));
        program.words.chunks(4).filter(|w| w[0] == OP_MUL).count()
    };
    assert_eq!(products(2), products(1) + 1);
}

#[test]
fn an_entry_is_the_multiplicity_over_the_combination() {
    let main = main_trace(2);
    let send = message(vec![0], 1);
    let (trace, sum) = generate_permutation_trace_prescoped(
        &vec![&send],
        &vec![],
        None,
        &main,
        &challenges(),
        1,
    );
    let (alpha, beta) = (challenges()[0], challenges()[1]);
    let mut running = Ext::zero();
    for r in 0..2 {
        let d = alpha.add(ext(5, 0, 0, 0)).add(beta.mul(Ext::from_base(main.get(r, 0))));
        let expected = Ext::from_base(main.get(r, 1)).mul(d.inverse());
        assert_eq!(trace.get(r, 0), expected);
        running = running.add(expected);
        assert_eq!(trace.get(r, 1), running);
    }
    assert_eq!(sum, running);

    let mut cells = vec![Ext::zero()];
    populate_local_permutation_row(
        &mut cells,
        &[],
        row(&main, 1),
        &vec![&send],
        &vec![],
        alpha,
        &vec![Ext::one(), beta],
        1,
    );
    assert_eq!(cells[0], trace.get(1, 0));
}

#[test]
fn only_local_interactions_take_part() {
    let main = main_trace(2);
    let local = message(vec![0], 1);
    let mut global = message(vec![4], 3);
    global.scope = InteractionScope::Global;
    let (sends, receives) = scoped_interactions(&vec![&global, &local], &vec![&global]);
    assert_eq!(sends.get(InteractionScope::Local).unwrap().len(), 1);
    assert_eq!(sends.get(InteractionScope::Global).unwrap().len(), 1);
    assert!(receives.get(InteractionScope::Local).is_none());
    let all = generate_permutation_trace(&vec![&global, &local], &vec![&global], None, &main, &challenges(), 2);
    let some = generate_permutation_trace_prescoped(&vec![&local], &vec![], None, &main, &challenges(), 2);
    assert_eq!(all.0.values, some.0.values);
    assert_eq!(all.1, some.1);
    let none = generate_permutation_trace(&vec![&global], &vec![], None, &main, &challenges(), 2);
    assert_eq!((none.0.width, none.0.values.len(), none.1), (0, 0, Ext::zero()));
}

#[test]
fn the_width_counts_batches_and_the_running_sum() {
    assert_eq!(local_permutation_trace_width(0, 0), 0);
    assert_eq!(local_permutation_trace_width(1, 4), 2);
    assert_eq!(local_permutation_trace_width(8, 4), 3);
    assert_eq!(local_permutation_trace_width(9, 4), 4);
}

#[test]
fn the_constraints_vanish_on_a_valid_trace() {
    let main = main_trace(4);
    for batch_size in [1, 2, 3] {
        let chip = chip(batch_size);
        let (trace, sum) = chip.generate_permutation_trace(None, &main, &challenges());
        let perm = flatten_to_base(trace);
        let program = compiled(&chip, InteractionScope::Local, sum, digest(0));
        assert_eq!(program.perm_u32_width, perm.width);
        assert_eq!(residues(&program, &main, &perm), vec![Ext::zero(); 4]);
    }
}

#[test]
fn the_constraints_do_not_vanish_on_other_traces() {
    let chip = chip(2);
    let main = main_trace(4);
    let (trace, sum) = chip.generate_permutation_trace(None, &main, &challenges());
    let program = compiled(&chip, InteractionScope::Local, sum, digest(0));
    let mut perm = flatten_to_base(trace);
    perm.values[2] = perm.values[2].add(felt(1));
    assert_ne!(residues(&program, &main, &perm)[0], Ext::zero());

    // A flag that is no bit, and two real rows in a row.
    let mut other = main_trace(4);
    let (trace, _) = chip.generate_permutation_trace(None, &other, &challenges());
    let perm = flatten_to_base(trace);
    other.values[IS_REAL_COL] = felt(2);
    assert_ne!(residues(&program, &other, &perm)[0], Ext::zero());
    other.values[IS_REAL_COL] = felt(1);
    other.values[NUM_POSEIDON2_COLS + IS_REAL_COL] = felt(1);
    let r = residues(&program, &other, &perm);
    assert_ne!(r[0], Ext::zero());
    assert_eq!(r[3], Ext::zero());

    // Another sum than that of the trace.
    let wrong = compiled(&chip, InteractionScope::Local, ext(1, 0, 0, 0), digest(0));
    let r = residues(&wrong, &main, &perm);
    assert_eq!(r[2], Ext::zero());
    assert_ne!(r[3], Ext::zero());
}

#[test]
fn the_last_row_of_a_global_chip_holds_the_digest() {
    let chip = chip(2);
    let d = digest(50);
    let mut main = main_trace(4);
    let end = main.values.len();
    for i in 0..7 {
        main.values[end - 14 + i] = d.x[i];
        main.values[end - 7 + i] = d.y[i];
    }
    // The flag is the last column, and has to stay a bit.
    let mut d = d;
    d.y[6] = felt(0);
    main.values[end - 1] = felt(0);
    let (trace, sum) = chip.generate_permutation_trace(None, &main, &challenges());
    let perm = flatten_to_base(trace);
    let program = compiled(&chip, InteractionScope::Global, sum, d);
    assert_eq!(residues(&program, &main, &perm), vec![Ext::zero(); 4]);
    let other = compiled(&chip, InteractionScope::Global, sum, digest(51));
    assert_ne!(residues(&other, &main, &perm)[3], Ext::zero());
}

#[test]
fn recording_and_folding_agree() {
    let main = main_trace(4);
    let send = message(vec![0, 4], 1);
    let receive = message(vec![2], 3);
    let perm = [ext(1, 2, 3, 4), ext(5, 6, 7, 8)];
    let next = [ext(9, 10, 11, 12), ext(13, 14, 15, 16)];
    let challenges = challenges();
    let alpha = ext(3, 1, 4, 1);
    let mut folder = ConstraintFolder {
        preprocessed_local: &[],
        preprocessed_next: &[],
        main_local: row(&main, 1),
        main_next: row(&main, 2),
        perm_local: &perm,
        perm_next: &next,
        perm_challenges: &challenges,
        local_cumulative_sum: ext(1, 1, 1, 1),
        global_cumulative_sum: digest(0),
        is_first_row: felt(4),
        is_last_row: felt(5),
        is_transition: felt(6),
        alpha,
        accumulator: Ext::zero(),
    };
    eval_permutation_constraints(&vec![&send], &vec![&receive], 2, InteractionScope::Local, &mut folder);
    // The batch, then the first row, the transitions and the last row.
    let (a, b) = (challenges[0], challenges[1]);
    let base = |i: usize| Ext::from_base(main.get(1, i));
    let d0 = a.add(ext(5, 0, 0, 0)).add(b.mul(base(0))).add(b.mul(b).mul(base(4)));
    let d1 = a.add(ext(5, 0, 0, 0)).add(b.mul(base(2)));
    let batch = d0.mul(d1).mul(perm[0]).sub(base(1).mul(d1).sub(base(3).mul(d0)));
    let first = perm[1].sub(perm[0]).mul(ext(4, 0, 0, 0));
    let step = next[1].sub(perm[1]).sub(next[0]).mul(ext(6, 0, 0, 0));
    let last = perm[1].sub(ext(1, 1, 1, 1)).mul(ext(5, 0, 0, 0));
    let expected = batch.mul(alpha).add(first).mul(alpha).add(step).mul(alpha).add(last);
    assert_eq!(folder.accumulator, expected);
}

fn subgroup(log_n: usize) -> Coset {
    Coset { log_n, shift: Felt::one() }
}

fn quotient_coset(log_n: usize) -> Coset {
    Coset { log_n, shift: felt(31) }
}

/// The point, the vanishing polynomial, and the three selectors at point `i` of a coset.
fn selectors(trace: Coset, coset: Coset, i: u64) -> (Felt, [Felt; 3]) {
    let x = coset.shift.mul(exp_u64(Felt::two_adic_generator(coset.log_n), i));
    let z = exp_u64(x, 1 << trace.log_n).sub(Felt::one());
    let last = Felt::two_adic_generator(trace.log_n).inverse();
    let first = z.mul(x.sub(Felt::one()).inverse());
    (z, [first, z.mul(x.sub(last).inverse()), x.sub(last)])
}

#[test]
fn the_quotient_times_the_vanishing_polynomial_are_the_constraints() {
    let pcs = TwoAdicFriPcs {
        log_n: 5,
        fri: FriConfig { log_blowup: 1, num_queries: 1, proof_of_work_bits: 0 },
    };
    let chip = chip(2);
    let main = main_trace(4);
    let (trace, sum) = chip.generate_permutation_trace(None, &main, &challenges());
    let ldes = pcs.commit(vec![(subgroup(2), main), (subgroup(2), flatten_to_base(trace))]);
    let (domain, coset) = (subgroup(2), quotient_coset(3));
    let main = pcs.get_evaluations_on_domain(&ldes, 0, coset);
    let perm = pcs.get_evaluations_on_domain(&ldes, 1, coset);
    let alpha = ext(3, 1, 4, 1);
    let q = quotient_values(
        &chip,
        InteractionScope::Local,
        sum,
        digest(0),
        domain,
        coset,
        &None,
        &main,
        &perm,
        &challenges(),
        alpha,
        &vec![],
    );
    assert_eq!(q.len(), 8);
    let program = compiled(&chip, InteractionScope::Local, sum, digest(0));
    let zero = [felt(0)];
    for i in 0..8 {
        let next = (i + 2) % 8;
        let (z, sels) = selectors(domain, coset, i as u64);
        let rows = Rows {
            prep: [&zero, &zero],
            main: [row(&main, i), row(&main, next)],
            perm: [row(&perm, i), row(&perm, next)],
            selectors: sels,
        };
        assert_eq!(q[i].mul(Ext::from_base(z)), run(&program, &rows));
    }
}

#[test]
fn selectors_are_packed_four_for_each_point() {
    let (domain, coset) = (subgroup(1), quotient_coset(3));
    let data = compute_selector_data(domain, coset);
    assert_eq!(data.len(), 32);
    for i in 0..8 {
        let (z, sels) = selectors(domain, coset, i as u64);
        let words: Vec<Felt> = data[4 * i..4 * i + 4].iter().map(|w| from_raw(*w)).collect();
        assert_eq!(words, vec![sels[0], sels[1], sels[2], z.inverse()]);
    }
}

#[test]
fn the_cache_computes_selectors_once() {
    let mut cache = SelectorCache::new(Felt::one(), felt(31));
    assert_eq!(cache.lookup(subgroup(1), quotient_coset(2)), 0);
    assert_eq!(cache.lookup(subgroup(1), quotient_coset(3)), 1);
    assert_eq!(cache.lookup(subgroup(1), quotient_coset(2)), 0);
    assert_eq!(cache.entries.len(), 2);
    assert_eq!(cache.entries[1].1, compute_selector_data(subgroup(1), quotient_coset(3)));
}

fn small_program(num_regs: u32) -> ConstraintProgram {
    ConstraintProgram {
        words: vec![OP_CONST, 0, 0, 0],
        num_regs,
        accumulator_regs: [0, 0, 0, 0],
        main_width: 1,
        prep_width: 1,
        perm_u32_width: 4,
    }
}

#[test]
fn a_dispatch_carries_the_raw_matrices() {
    let main = Matrix { values: vec![felt(1), felt(2)], width: 1 };
    let perm = Matrix { values: vec![felt(3); 8], width: 4 };
    let prep = Some(Matrix { values: vec![felt(4), felt(5), felt(6), felt(7)], width: 2 });
    let d = plan_dispatch(small_program(9), &prep, &main, &perm, vec![1, 2], 2, 1).unwrap();
    assert_eq!(d.main, vec![to_monty(1), to_monty(2)]);
    assert_eq!((d.main_width, d.prep_width, d.perm_width), (1, 2, 4));
    assert_eq!(d.prep, to_raw_all(&vec![felt(4), felt(5), felt(6), felt(7)]));
    assert_eq!((d.quotient_size, d.next_step, d.bit_reversed), (2, 1, false));
    assert!(plan_dispatch(small_program(4097), &None, &main, &perm, vec![], 2, 1).is_none());
    let d = plan_dispatch(small_program(4096), &None, &main, &perm, vec![], 2, 1).unwrap();
    assert_eq!((d.prep.len(), d.prep_width), (0, 1));

    let d = plan_dispatch_bitrev(small_program(9), prep.as_ref(), 2, &main, &perm, vec![], 2, 1).unwrap();
    assert!(d.bit_reversed);
    assert!(plan_dispatch_bitrev(small_program(9), prep.as_ref(), 2, &main, &perm, vec![], 4, 1).is_none());
    assert!(plan_dispatch_bitrev(small_program(5000), prep.as_ref(), 2, &main, &perm, vec![], 2, 1).is_none());
}

#[test]
fn registers_come_in_tiers() {
    let tiers: Vec<u32> = [1, 256, 257, 512, 1000, 2048, 2049, 4096].map(register_tier).to_vec();
    assert_eq!(tiers, vec![256, 256, 512, 512, 1024, 2048, 4096, 4096]);
}

#[test]
fn results_are_read_four_words_at_a_time() {
    let words: Vec<u32> = (1..9).map(to_monty).collect();
    assert_eq!(dispatch_to_quotient_values(&words), vec![ext(1, 2, 3, 4), ext(5, 6, 7, 8)]);
}

#[test]
fn small_domains_are_not_dispatched() {
    let chip = chip(2);
    let main = main_trace(4);
    let (trace, sum) = chip.generate_permutation_trace(None, &main, &challenges());
    let perm = flatten_to_base(trace);
    let d = prepare_quotient_dispatch(
        &chip,
        0,
        NUM_POSEIDON2_COLS,
        InteractionScope::Local,
        sum,
        digest(0),
        subgroup(1),
        quotient_coset(2),
        &None,
        &main,
        &perm,
        &challenges(),
        ext(3, 1, 4, 1),
        &vec![],
    );
    assert!(d.is_none());
}

#[test]
fn large_domains_are_dispatched() {
    let chip = chip(2);
    let main = main_trace(MIN_DISPATCH_SIZE);
    let perm = Matrix { values: vec![felt(1); MIN_DISPATCH_SIZE * 12], width: 12 };
    let (domain, coset) = (subgroup(12), quotient_coset(13));
    let d = prepare_quotient_dispatch_bitrev(
        &chip,
        0,
        NUM_POSEIDON2_COLS,
        InteractionScope::Local,
        Ext::zero(),
        digest(0),
        domain,
        coset,
        &main,
        None,
        0,
        &perm,
        &challenges(),
        ext(3, 1, 4, 1),
        &vec![],
        None,
    )
    .unwrap();
    assert_eq!((d.quotient_size, d.next_step), (8192, 2));
    assert_eq!(d.selectors.len(), 4 * 8192);
    assert!(d.program.num_regs <= 4096);
    assert_eq!(d.program.words, compiled(&chip, InteractionScope::Local, Ext::zero(), digest(0)).words);
}
