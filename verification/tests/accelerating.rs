use metalspone::accelerate::{plan_quotients, quotient_step_dispatched};
use metalspone::babybear::Felt;
use metalspone::builder::SepticDigest;
use metalspone::checks::is_permutable;
use metalspone::chip::Chip;
use metalspone::dispatch::{from_raw, ChipDispatch};
use metalspone::ext::Ext;
use metalspone::field::Field;
use metalspone::ir::to_monty;
use metalspone::lookup::{Interaction, InteractionScope, PairCol, VirtualPairCol};
use metalspone::matrix::Matrix;
use metalspone::names::NameMap;
use metalspone::opening::{permutation_step, quotient_step, start_opening, ShardMainData};
use metalspone::pcs::{FriConfig, TwoAdicFriPcs};
use metalspone::poseidon2::{Poseidon2Chip, IS_REAL_COL, NUM_POSEIDON2_COLS};
use metalspone::program::{
    OP_ADD, OP_CONST, OP_LOAD_MAIN_LOCAL, OP_LOAD_MAIN_NEXT, OP_LOAD_PERM_LOCAL,
    OP_LOAD_PERM_NEXT, OP_LOAD_PREP_LOCAL, OP_LOAD_PREP_NEXT, OP_LOAD_SELECTOR, OP_MUL, OP_NEG,
    OP_SUB,
};
use metalspone::prover::{ShardChip, StarkProvingKey};
use p3_util::reverse_bits_len;

fn felt(n: u32) -> Felt {
    Felt { value: n }
}

fn ext(a: u32, b: u32, c: u32, d: u32) -> Ext {
    Ext { c0: felt(a), c1: felt(b), c2: felt(c), c3: felt(d) }
}

fn digest(n: u32) -> SepticDigest {
    SepticDigest {
        x: [1, 2, 3, 4, 5, 6, 7].map(|i| felt(n + i)),
        y: [1, 2, 3, 4, 5, 6, 7].map(|i| felt(n + 10 + i)),
    }
}

fn col(i: usize) -> VirtualPairCol {
    VirtualPairCol { column_weights: vec![(PairCol::Main(i), felt(1))], constant: felt(0) }
}

fn message(value: usize, multiplicity: usize) -> Interaction {
    Interaction {
        values: vec![col(value)],
        multiplicity: col(multiplicity),
        argument_index: 5,
        scope: InteractionScope::Local,
    }
}

fn shard_chip(name: &str) -> ShardChip<Poseidon2Chip> {
    ShardChip {
        chip: Chip {
            air: Poseidon2Chip,
            local_sends: vec![message(0, 1)],
            local_receives: vec![message(2, 3)],
            logup_batch_size: 2,
        },
        name: name.to_string(),
        commit_scope: InteractionScope::Local,
        local_only: false,
        log_quotient_degree: 1,
    }
}

fn main_trace(rows: usize) -> Matrix<Felt> {
    let mut values = vec![felt(0); rows * NUM_POSEIDON2_COLS];
    for r in 0..rows {
        let row = &mut values[r * NUM_POSEIDON2_COLS..(r + 1) * NUM_POSEIDON2_COLS];
        row[0] = felt(10 + r as u32);
        row[1] = felt(3);
        row[2] = felt(10 + (r as u32 + 1) % rows as u32);
        row[3] = felt(3);
        row[IS_REAL_COL] = felt(r as u32 % 2);
    }
    Matrix { values, width: NUM_POSEIDON2_COLS }
}

/// What a device does with a dispatch: it reads the rows of each point in their places, runs the
/// program and multiplies by the inverse of the vanishing polynomial.
fn run(d: &ChipDispatch) -> Vec<u32> {
    let size = d.quotient_size as usize;
    let log_n = size.trailing_zeros() as usize;
    let mut words = Vec::new();
    for i in 0..size {
        let j = (i + d.next_step as usize) % size;
        let place = |i: usize| if d.bit_reversed { reverse_bits_len(i, log_n) } else { i };
        let (p, q) = (place(i), place(j));
        let at = |v: &Vec<u32>, w: u32, r: usize, c: u32| from_raw(v[r * w as usize + c as usize]);
        let prep = |r: usize, c: u32| {
            if d.prep.is_empty() { felt(0) } else { at(&d.prep, d.prep_width, r, c) }
        };
        let mut regs = vec![felt(0); d.program.num_regs as usize];
        for w in d.program.words.chunks(4) {
            let (a, b) = (w[2] as usize, w[3] as usize);
            regs[w[1] as usize] = match w[0] {
                OP_CONST => from_raw(w[2]),
                OP_LOAD_MAIN_LOCAL => at(&d.main, d.main_width, p, w[2]),
                OP_LOAD_MAIN_NEXT => at(&d.main, d.main_width, q, w[2]),
                OP_LOAD_PREP_LOCAL => prep(p, w[2]),
                OP_LOAD_PREP_NEXT => prep(q, w[2]),
                OP_LOAD_PERM_LOCAL => at(&d.perm, d.perm_width, p, w[2]),
                OP_LOAD_PERM_NEXT => at(&d.perm, d.perm_width, q, w[2]),
                OP_LOAD_SELECTOR => from_raw(d.selectors[4 * i + a]),
                OP_ADD => regs[a].add(regs[b]),
                OP_SUB => regs[a].sub(regs[b]),
                OP_MUL => regs[a].mul(regs[b]),
                OP_NEG => regs[a].neg(),
                _ => panic!("no such operation"),
            };
        }
        let inverse = from_raw(d.selectors[4 * i + 3]);
        for r in d.program.accumulator_regs {
            words.push(to_monty(regs[r as usize].mul(inverse).value));
        }
    }
    words
}

#[test]
fn dispatching_a_chip_makes_no_difference() {
    let pcs = TwoAdicFriPcs {
        log_n: 12,
        fri: FriConfig { log_blowup: 1, num_queries: 1, proof_of_work_bits: 0 },
    };
    let pk = StarkProvingKey {
        commit: vec![],
        pc_start: felt(0),
        initial_global_cumulative_sum: digest(0),
        traces: vec![],
        ldes: vec![],
        chip_ordering: NameMap::new(),
        local_only: vec![],
    };
    let data: ShardMainData = pcs.commit_main(
        vec![("small".to_string(), main_trace(4)), ("large".to_string(), main_trace(4096))],
        vec![],
    );
    let chips = vec![shard_chip("large"), shard_chip("small")];
    let (domains, _) = start_opening(&pcs, &chips, &data, 0);
    let challenges = vec![ext(11, 22, 33, 44), ext(7, 0, 5, 3)];
    let step = permutation_step(&pcs, &pk, &chips, &data.traces, &domains, &challenges, digest(9));
    let alpha = ext(3, 1, 4, 1);
    let plans = plan_quotients(
        &pcs, &pk, &chips, &data.ldes, &step, &domains, &challenges, alpha, &vec![],
    );
    assert_eq!(plans.len(), 2);
    assert!(plans[1].is_none());
    let d = plans[0].as_ref().unwrap();
    assert!(d.bit_reversed);
    assert_eq!((d.quotient_size, d.next_step, d.prep_width), (8192, 2, 1));

    let results: Vec<Option<Vec<u32>>> = plans.iter().map(|d| d.as_ref().map(run)).collect();
    let with_device = quotient_step_dispatched(
        &pcs, &pk, &chips, &data.ldes, &step, &domains, &challenges, alpha, &vec![], false, true,
        &results,
    );
    let without = quotient_step(
        &pcs, &pk, &chips, &data.ldes, &step, &domains, &challenges, alpha, &vec![], false, true,
    );
    assert_eq!(with_device.ldes.len(), 4);
    assert_eq!(with_device.direct_hash, without.direct_hash);
    for (a, b) in with_device.ldes.iter().zip(&without.ldes) {
        assert_eq!((a.width, &a.values), (b.width, &b.values));
    }
    // Other words give another quotient.
    let mut other = results;
    let words = other[0].as_mut().unwrap();
    words[5] = to_monty(from_raw(words[5]).add(felt(1)).value);
    let changed = quotient_step_dispatched(
        &pcs, &pk, &chips, &data.ldes, &step, &domains, &challenges, alpha, &vec![], false, true,
        &other,
    );
    assert_ne!(changed.direct_hash, without.direct_hash);
}

#[test]
fn a_permutation_trace_needs_columns_challenges_and_denominators() {
    let main = main_trace(4);
    let challenges = vec![ext(11, 22, 33, 44), ext(7, 0, 5, 3)];
    let chip = shard_chip("c").chip;
    assert!(is_permutable(&chip, None, &main, &challenges));
    assert!(!is_permutable(&chip, None, &main, &vec![challenges[0]]));
    // The combination of what row 2 sends is zero: alpha + 5 + beta 12 = 0.
    let beta = challenges[1];
    let alpha = beta.mul(ext(12, 0, 0, 0)).add(ext(5, 0, 0, 0)).neg();
    assert!(!is_permutable(&chip, None, &main, &vec![alpha, beta]));

    let mut missing = shard_chip("c").chip;
    missing.local_sends[0].values[0] = col(NUM_POSEIDON2_COLS);
    assert!(!is_permutable(&missing, None, &main, &challenges));
    let mut prep_column = shard_chip("c").chip;
    prep_column.local_receives[0].multiplicity.column_weights[0].0 = PairCol::Preprocessed(1);
    assert!(!is_permutable(&prep_column, None, &main, &challenges));
    let prep = Matrix { values: vec![felt(1); 8], width: 2 };
    assert!(is_permutable(&prep_column, Some(&prep), &main, &challenges));
    let short = Matrix { values: vec![felt(1); 6], width: 2 };
    assert!(!is_permutable(&prep_column, Some(&short), &main, &challenges));
    let mut wide = shard_chip("c").chip;
    wide.logup_batch_size = 0;
    assert!(!is_permutable(&wide, None, &main, &challenges));
    let none = Chip {
        air: Poseidon2Chip,
        local_sends: vec![],
        local_receives: vec![],
        logup_batch_size: 0,
    };
    assert!(is_permutable(&none, None, &main, &vec![]));
}
