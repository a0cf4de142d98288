use metalspone::babybear::Felt;
use metalspone::builder::SepticDigest;
use metalspone::chip::Chip;
use metalspone::domain::TwoAdic;
use metalspone::ext::Ext;
use metalspone::field::{exp_u64, Field};
use metalspone::lde::Coset;
use metalspone::lookup::{Interaction, InteractionScope, PairCol, VirtualPairCol};
use metalspone::matrix::Matrix;
use metalspone::names::NameMap;
use metalspone::opening::{
    permutation_step, points_step, quotient_step, start_opening, ShardMainData,
};
use metalspone::ordering::{chip_ordering, order_traces};
use metalspone::pcs::{FriConfig, TwoAdicFriPcs};
use metalspone::poseidon2::{Poseidon2Chip, IS_REAL_COL, NUM_POSEIDON2_COLS};
use metalspone::prover::{
    flatten_to_base, global_sum, gpu_constraints_enabled, observed_public_values, prove_mode,
    shards_for_cycles, switched_on, use_sequential_open, CpuProverError, PermutationRound,
    MachineProvingKey, ProveMode, ShardChip, StarkProvingKey,
};
use metalspone::shard::{
    collect_air_values, collect_opened_values, expected_chunks, filter_small_chunks,
    merge_results, opening_points, partition_dispatches, permutation_opening_points,
    quotient_bytes, quotient_chunks, quotient_domain, quotient_hash, quotient_opening_points,
    RoundOpenings,
};

fn felt(n: u32) -> Felt {
    Felt { value: n }
}

fn ext(a: u32, b: u32, c: u32, d: u32) -> Ext {
    Ext { c0: felt(a), c1: felt(b), c2: felt(c), c3: felt(d) }
}

fn set(s: &str) -> Option<String> {
    Some(s.to_string())
}

fn digest(n: u32) -> SepticDigest {
    SepticDigest {
        x: [1, 2, 3, 4, 5, 6, 7].map(|i| felt(n + i)),
        y: [1, 2, 3, 4, 5, 6, 7].map(|i| felt(n + 10 + i)),
    }
}

fn subgroup(log_n: usize) -> Coset {
    Coset { log_n, shift: Felt::one() }
}

#[test]
fn settings_are_read_from_the_environment() {
    assert!(gpu_constraints_enabled(&set("1"), &None));
    assert!(!gpu_constraints_enabled(&set("0"), &set("1")));
    assert!(gpu_constraints_enabled(&None, &set("1")));
    assert!(!gpu_constraints_enabled(&None, &set("yes")));
    assert!(!gpu_constraints_enabled(&None, &None));
    assert!(use_sequential_open(&None));
    assert!(use_sequential_open(&set("1")));
    assert!(!use_sequential_open(&set("0")));
    assert!(switched_on(&set("1")));
    assert!(!switched_on(&set("2")));
    assert!(!switched_on(&None));
}

#[test]
fn batches_of_one_shard_are_proved_in_parallel() {
    assert_eq!(prove_mode(None), ProveMode::Parallel);
    assert_eq!(prove_mode(Some(0)), ProveMode::Parallel);
    assert_eq!(prove_mode(Some(1)), ProveMode::Parallel);
    assert_eq!(prove_mode(Some(2)), ProveMode::Batched);
    assert_eq!(shards_for_cycles(0), 1);
    assert_eq!(shards_for_cycles(524287), 1);
    assert_eq!(shards_for_cycles(524288), 2);
    assert_eq!(CpuProverError.message(), "DefaultProverError");
}

fn trace(rows: usize) -> Matrix<Felt> {
    Matrix { values: (0..2 * rows as u32).map(felt).collect(), width: 2 }
}

#[test]
fn traces_are_ordered_by_height_and_then_by_name() {
    let traces = vec![
        ("b".to_string(), trace(4)),
        ("a".to_string(), trace(2)),
        ("c".to_string(), trace(8)),
        ("ab".to_string(), trace(4)),
    ];
    let sorted = order_traces(traces);
    let names: Vec<&str> = sorted.iter().map(|(n, _)| n.as_str()).collect();
    assert_eq!(names, vec!["c", "ab", "b", "a"]);
    assert_eq!(sorted[0].1.height(), 8);
    let places = chip_ordering(&sorted);
    assert_eq!(places.get(&"b".to_string()), Some(2));
    assert_eq!(places.get(&"d".to_string()), None);
}

#[test]
fn the_transcript_starts_with_the_key() {
    let pk = key();
    assert_eq!(pk.preprocessed_commit(), vec![felt(70), felt(71)]);
    assert_eq!(pk.pc_start(), felt(1234));
    assert_eq!(pk.initial_global_cumulative_sum(), digest(0));
    let observed = pk.observe_into();
    assert_eq!(observed.len(), 2 + 1 + 14 + 1);
    assert_eq!(observed[..3], [felt(70), felt(71), felt(1234)]);
    assert_eq!(observed[3..10], digest(0).x);
    assert_eq!(observed[10..17], digest(0).y);
    assert_eq!(observed[17], felt(0));
    assert_eq!(observed_public_values(&vec![felt(1), felt(2), felt(3)], 2), vec![felt(1), felt(2)]);
}

#[test]
fn the_global_sum_is_the_end_of_the_trace() {
    let main = Matrix { values: (0..40).map(felt).collect(), width: 20 };
    let sum = global_sum(&main, InteractionScope::Global, digest(7));
    assert_eq!(sum.x, [26, 27, 28, 29, 30, 31, 32].map(felt));
    assert_eq!(sum.y, [33, 34, 35, 36, 37, 38, 39].map(felt));
    assert_eq!(global_sum(&main, InteractionScope::Local, digest(7)), digest(7));
}

#[test]
fn sums_are_observed_chip_by_chip() {
    let round = PermutationRound {
        traces: vec![],
        local_sums: vec![ext(1, 2, 3, 4), ext(5, 6, 7, 8)],
        global_sums: vec![digest(20), digest(40)],
    };
    let observed = round.observed();
    assert_eq!(observed.len(), 36);
    assert_eq!(observed[..4], [1, 2, 3, 4].map(felt));
    assert_eq!(observed[4..11], digest(20).x);
    assert_eq!(observed[11..18], digest(20).y);
    assert_eq!(observed[18..22], [5, 6, 7, 8].map(felt));
    let flat = flatten_to_base(Matrix { values: vec![ext(1, 2, 3, 4), ext(5, 6, 7, 8)], width: 1 });
    assert_eq!((flat.width, flat.values), (4, (1..9).map(felt).collect()));
}

#[test]
fn a_quotient_is_split_into_interleaved_chunks() {
    let domain = quotient_domain(&subgroup(1), 1, 1);
    assert_eq!(domain, Coset { log_n: 2, shift: felt(31) });
    let values = vec![vec![ext(1, 0, 0, 0), ext(2, 0, 0, 0), ext(3, 0, 0, 0), ext(4, 5, 6, 7)]];
    let chunks = quotient_chunks(&vec![domain], &values, &vec![1]);
    assert_eq!(chunks.len(), 2);
    assert_eq!(chunks[0].0, Coset { log_n: 1, shift: felt(31) });
    let w = Felt::two_adic_generator(2);
    assert_eq!(chunks[1].0, Coset { log_n: 1, shift: felt(31).mul(w) });
    assert_eq!(chunks[0].1.values, [1, 0, 0, 0, 3, 0, 0, 0].map(felt).to_vec());
    assert_eq!(chunks[1].1.values, [2, 0, 0, 0, 4, 5, 6, 7].map(felt).to_vec());
    assert_eq!(expected_chunks(&vec![1, 0, 2]), 7);

    // Point k of chunk j is point 2 k + j of the domain.
    for j in 0..2u64 {
        let chunk = chunks[j as usize].0;
        for k in 0..2u64 {
            let x = chunk.shift.mul(exp_u64(Felt::two_adic_generator(1), k));
            assert_eq!(x, felt(31).mul(exp_u64(w, 2 * k + j)));
        }
    }
    let points = domain.split_domains(4);
    assert_eq!(points.len(), 4);
    assert_eq!(points[3].log_n, 0);
    let evals = Matrix { values: (0..8).map(felt).collect(), width: 2 };
    let parts = domain.split_evals(2, &evals);
    assert_eq!(parts[1].values, [2, 3, 6, 7].map(felt).to_vec());
    assert_eq!(subgroup(3).create_disjoint_domain(5), Coset { log_n: 3, shift: felt(31) });
}

#[test]
fn the_quotient_hash_is_taken_over_the_bytes() {
    let chunks = vec![(subgroup(1), Matrix { values: vec![felt(1), felt(0x0102_0304)], width: 1 })];
    let bytes = quotient_bytes(&chunks);
    assert_eq!(bytes, vec![1, 0, 0, 0, 4, 3, 2, 1]);
    assert_eq!(quotient_hash(&chunks), blake3::hash(&bytes).as_bytes().to_vec());
    assert_eq!(quotient_hash(&vec![]), blake3::hash(b"").as_bytes().to_vec());
}

#[test]
fn small_chunks_are_left_out() {
    let chunk = |rows: usize| (subgroup(0), Matrix { values: vec![felt(1); 4 * rows], width: 4 });
    let (kept, skipped) = filter_small_chunks(vec![chunk(255), chunk(256), chunk(1), chunk(512)]);
    assert_eq!(skipped, 2);
    let rows: Vec<usize> = kept.iter().map(|(_, m)| m.height()).collect();
    assert_eq!(rows, vec![256, 512]);
}

#[test]
fn traces_are_opened_at_zeta_and_the_point_after_it() {
    let zeta = ext(1, 2, 3, 4);
    let next = zeta.mul(Ext::from_base(Felt::two_adic_generator(3)));
    let points = opening_points(&vec![subgroup(3), subgroup(3)], &vec![false, true], zeta);
    assert_eq!(points, vec![vec![zeta, next], vec![zeta]]);
    assert_eq!(permutation_opening_points(&vec![subgroup(3)], zeta), vec![vec![zeta, next]]);
    assert_eq!(quotient_opening_points(2, zeta), vec![vec![zeta], vec![zeta]]);
    assert_eq!(subgroup(3).next_point(zeta), next);
    let one = collect_air_values(&vec![vec![zeta, next]], true);
    assert_eq!((one.local, one.next), (vec![zeta, next], vec![Ext::zero(); 2]));
    let both = collect_air_values(&vec![vec![zeta], vec![next]], false);
    assert_eq!((both.local, both.next), (vec![zeta], vec![next]));
}

#[test]
fn results_go_back_to_their_chips() {
    let (dispatched, rest) = partition_dispatches(vec![None, None, None]);
    assert_eq!((dispatched.len(), rest), (0, vec![0, 1, 2]));
    let merged = merge_results(3, vec![(2, vec![ext(1, 0, 0, 0)]), (0, vec![])]);
    assert_eq!(merged, vec![Some(vec![]), None, Some(vec![ext(1, 0, 0, 0)])]);
}

fn col(i: usize) -> VirtualPairCol {
    VirtualPairCol { column_weights: vec![(PairCol::Main(i), felt(1))], constant: felt(0) }
}

fn message(value: usize, multiplicity: usize) -> Interaction {
    Interaction {
        values: vec![col(value)],
        multiplicity: col(multiplicity),
        argument_index: 5,
        scope: InteractionScope::Local,
    }
}

fn key() -> StarkProvingKey {
    StarkProvingKey {
        commit: vec![felt(70), felt(71)],
        pc_start: felt(1234),
        initial_global_cumulative_sum: digest(0),
        traces: vec![],
        ldes: vec![],
        chip_ordering: NameMap::new(),
        local_only: vec![],
    }
}

fn shard_chip(name: &str) -> ShardChip<Poseidon2Chip> {
    ShardChip {
        chip: Chip {
            air: Poseidon2Chip,
            local_sends: vec![message(0, 1)],
            local_receives: vec![message(2, 3)],
            logup_batch_size: 2,
        },
        name: name.to_string(),
        commit_scope: InteractionScope::Local,
        local_only: false,
        log_quotient_degree: 1,
    }
}

fn main_trace(rows: usize) -> Matrix<Felt> {
    let mut values = vec![felt(0); rows * NUM_POSEIDON2_COLS];
    for r in 0..rows {
        let row = &mut values[r * NUM_POSEIDON2_COLS..(r + 1) * NUM_POSEIDON2_COLS];
        row[0] = felt(10 + r as u32);
        row[1] = felt(3);
        row[2] = felt(10 + (r as u32 + 1) % rows as u32);
        row[3] = felt(3);
        row[IS_REAL_COL] = felt(r as u32 % 2);
    }
    Matrix { values, width: NUM_POSEIDON2_COLS }
}

fn pcs() -> TwoAdicFriPcs {
    TwoAdicFriPcs {
        log_n: 8,
        fri: FriConfig { log_blowup: 1, num_queries: 1, proof_of_work_bits: 0 },
    }
}

#[test]
fn a_shard_is_proved_step_by_step() {
    let pcs = pcs();
    let pk = key();
    let data: ShardMainData = pcs.commit_main(
        vec![("small".to_string(), main_trace(4)), ("large".to_string(), main_trace(8))],
        vec![felt(1), felt(2), felt(3)],
    );
    assert_eq!(data.chip_ordering.get(&"large".to_string()), Some(0));
    assert_eq!(data.ldes[0].height(), 16);
    let chips = vec![shard_chip("large"), shard_chip("small")];
    let (domains, observed) = start_opening(&pcs, &chips, &data, 2);
    assert_eq!(observed, vec![felt(1), felt(2)]);
    assert_eq!(domains.log_degrees, vec![3, 2]);
    assert_eq!(domains.trace_domains, vec![subgroup(3), subgroup(2)]);
    assert_eq!(domains.quotient_domains[1], Coset { log_n: 3, shift: felt(31) });

    let challenges = vec![ext(11, 22, 33, 44), ext(7, 0, 5, 3)];
    let step = permutation_step(&pcs, &pk, &chips, &data.traces, &domains, &challenges, digest(9));
    assert_eq!(step.local_sums, vec![Ext::zero(); 2]);
    assert_eq!(step.global_sums, vec![digest(9); 2]);
    assert_eq!(step.observed.len(), 36);
    assert_eq!((step.ldes[0].width, step.ldes[0].height()), (8, 16));

    let alpha = ext(3, 1, 4, 1);
    let publics = &data.public_values;
    let quotient = quotient_step(
        &pcs, &pk, &chips, &data.ldes, &step, &domains, &challenges, alpha, publics, false,
        false,
    );
    assert_eq!((quotient.ldes.len(), quotient.skipped), (4, 0));
    assert!(quotient.direct_hash.is_none());
    let heights: Vec<usize> = quotient.ldes.iter().map(|m| m.height()).collect();
    assert_eq!(heights, vec![16, 16, 8, 8]);
    let tiered = quotient_step(
        &pcs, &pk, &chips, &data.ldes, &step, &domains, &challenges, alpha, publics, true,
        true,
    );
    assert_eq!((tiered.ldes.len(), tiered.skipped), (0, 4));
    assert_eq!(tiered.direct_hash.unwrap().len(), 32);

    let zeta = ext(9, 8, 7, 6);
    let points = points_step(&pcs, &pk, &chips, &domains, quotient.ldes.len(), zeta);
    assert_eq!(points.preprocessed.len(), 0);
    assert_eq!(points.main[1].len(), 2);
    assert_eq!(points.quotient, vec![vec![zeta]; 4]);
    let opening = pcs.open(&vec![
        (&pk.ldes, &points.preprocessed),
        (&data.ldes, &points.main),
        (&step.ldes, &points.permutation),
        (&quotient.ldes, &points.quotient),
    ]);
    let mut values = opening.opened_values.into_iter();
    let openings = RoundOpenings {
        preprocessed: values.next().unwrap(),
        main: values.next().unwrap(),
        permutation: values.next().unwrap(),
        quotient: values.next().unwrap(),
    };
    let opened = collect_opened_values(
        &openings,
        &chips,
        &pk.local_only,
        &pk.chip_ordering,
        &step.local_sums,
        &step.global_sums,
        &domains.log_degrees,
    );
    assert_eq!(opened.len(), 2);
    assert_eq!(opened[1].log_degree, 2);
    assert_eq!(opened[1].quotient, vec![openings.quotient[2][0].clone(), openings.quotient[3][0].clone()]);
    assert_eq!(opened[0].main.local, openings.main[0][0]);
    assert_eq!(opened[0].preprocessed.local.len(), 0);
    for i in 0..2 {
        check_at(zeta, &opened[i].main.local, &opened[i].main.next, &opened[i].permutation.local, &opened[i].permutation.next, &opened[i].quotient, domains.log_degrees[i], &challenges, alpha);
    }
}

/// The extension element in four opened columns.
fn combine(v: &[Ext], c: usize) -> Ext {
    let basis = [ext(1, 0, 0, 0), ext(0, 1, 0, 0), ext(0, 0, 1, 0), ext(0, 0, 0, 1)];
    (0..4).fold(Ext::zero(), |acc, k| acc.add(v[4 * c + k].mul(basis[k])))
}

/// The constraints at `zeta` are the quotient there times the vanishing polynomial.
#[allow(clippy::too_many_arguments)]
fn check_at(
    zeta: Ext,
    local: &[Ext],
    next: &[Ext],
    perm_local: &[Ext],
    perm_next: &[Ext],
    quotient: &[Vec<Ext>],
    log_degree: usize,
    challenges: &[Ext],
    alpha: Ext,
) {
    let one = Ext::one();
    let z = exp_u64(zeta, 1 << log_degree).sub(one);
    let last_point = Ext::from_base(Felt::two_adic_generator(log_degree).inverse());
    let first = z.mul(zeta.sub(one).inverse());
    let last = z.mul(zeta.sub(last_point).inverse());
    let transition = zeta.sub(last_point);
    let real = local[IS_REAL_COL];
    let mut acc = real.mul(real.sub(one));
    acc = acc.mul(alpha).add(transition.mul(real.mul(next[IS_REAL_COL])));
    let (a, b) = (challenges[0], challenges[1]);
    let d0 = a.add(ext(5, 0, 0, 0)).add(b.mul(local[0]));
    let d1 = a.add(ext(5, 0, 0, 0)).add(b.mul(local[2]));
    let (p0, p1) = (combine(perm_local, 0), combine(perm_local, 1));
    let (n0, n1) = (combine(perm_next, 0), combine(perm_next, 1));
    let batch = d0.mul(d1).mul(p0).sub(local[1].mul(d1).sub(local[3].mul(d0)));
    acc = acc.mul(alpha).add(batch);
    acc = acc.mul(alpha).add(p1.sub(p0).mul(first));
    acc = acc.mul(alpha).add(n1.sub(p1).sub(n0).mul(transition));
    acc = acc.mul(alpha).add(p1.mul(last));

    // The quotient at zeta, from its two chunks.
    let w = Felt::two_adic_generator(log_degree + 1);
    let shifts = [felt(31), felt(31).mul(w)];
    let vanish = |shift: Felt, x: Ext| exp_u64(x.mul(Ext::from_base(shift.inverse())), 1 << log_degree).sub(one);
    let mut q = Ext::zero();
    for j in 0..2 {
        let other = shifts[1 - j];
        let scale = vanish(other, zeta).mul(vanish(other, Ext::from_base(shifts[j])).inverse());
        q = q.add(scale.mul(combine(&quotient[j], 0)));
    }
    assert_eq!(q.mul(z), acc);
}
