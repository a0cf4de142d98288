use metalspone::babybear::Felt;
use metalspone::commit::observed_values;
use metalspone::denominators::{
    compute_inverse_denominators, compute_inverse_denominators_from_dims, to_key,
};
use metalspone::domain::TwoAdic;
use metalspone::ext::Ext;
use metalspone::field::{exp_u64, Field};
use metalspone::fri::{
    answer_query, commit_phase, log_max_height, prove, query_location, CommitPhase,
};
use metalspone::interpolation::{
    interpolate_coset_precomputed, interpolate_coset_precomputed_2point,
};
use metalspone::lde::{bit_reverse_rows, compute_lde, Coset};
use metalspone::matrix::{Dimensions, Matrix};
use metalspone::merkle::{LeafManageable, ProverData};
use metalspone::pcs::{FriConfig, TwoAdicFriPcs};
use metalspone::query::MatrixClaim;
use metalspone::reducer::transpose_vec;
use metalspone::recompute::RoundOriginals;
use metalspone::sequential::CachedRound;
use metalspone::verify::{observed_claims, QueryOpening, VerificationError};
use p3_util::reverse_bits_len;

fn felt(n: u32) -> Felt {
    Felt { value: n }
}

fn ext(a: u32, b: u32, c: u32, d: u32) -> Ext {
    Ext { c0: felt(a), c1: felt(b), c2: felt(c), c3: felt(d) }
}

/// The value of a polynomial at a point of the extension.
fn eval(coeffs: &[Felt], z: Ext) -> Ext {
    coeffs.iter().rev().fold(Ext::zero(), |acc, c| acc.mul(z).add(Ext::from_base(*c)))
}

fn eval_base(coeffs: &[Felt], x: Felt) -> Felt {
    coeffs.iter().rev().fold(Felt::zero(), |acc, c| acc.mul(x).add(*c))
}

/// A matrix whose columns hold the values of polynomials on a coset.
fn evaluations(columns: &[Vec<Felt>], domain: Coset) -> Matrix<Felt> {
    let g = Felt::two_adic_generator(domain.log_n);
    let mut values = Vec::new();
    for i in 0..1u64 << domain.log_n {
        let x = domain.shift.mul(exp_u64(g, i));
        for c in columns {
            values.push(eval_base(c, x));
        }
    }
    Matrix { values, width: columns.len() }
}

fn pcs() -> TwoAdicFriPcs {
    TwoAdicFriPcs::new(10, FriConfig { log_blowup: 1, num_queries: 3, proof_of_work_bits: 4 })
}

fn subgroup(log_n: usize) -> Coset {
    Coset { log_n, shift: Felt::one() }
}

fn column(seed: u32, n: usize) -> Vec<Felt> {
    (0..n as u32).map(|i| felt((seed * 1009 + i * i * 77 + i * 13 + 5) % 100_003)).collect()
}

/// Two matrices of four and two rows, and their polynomials.
fn committed() -> (Vec<Vec<Vec<Felt>>>, Vec<Matrix<Felt>>) {
    let polys = vec![vec![column(1, 4), column(2, 4), column(3, 4)], vec![column(4, 2)]];
    let evals = vec![
        (subgroup(2), evaluations(&polys[0], subgroup(2))),
        (subgroup(1), evaluations(&polys[1], subgroup(1))),
    ];
    let ldes = pcs().commit(evals);
    (polys, ldes)
}

#[test]
fn the_root_of_unity_is_that_of_the_field() {
    assert_eq!(Felt::two_adic_generator(27), felt(0x1a42_7a41));
    assert_eq!(Felt::two_adic_generator(1), felt(0x7800_0000));
    assert_eq!(Felt::two_adic_generator(0), felt(1));
    assert_eq!(Ext::two_adic_generator(29), ext(0, 0, 0, 124907976));
    assert_eq!(Ext::two_adic_generator(1), ext(0x7800_0000, 0, 0, 0));
}

#[test]
fn an_extension_holds_the_values_on_the_larger_coset() {
    let polys = [column(7, 4), column(8, 4)];
    for shift in [1, 5] {
        let domain = Coset { log_n: 2, shift: felt(shift) };
        let lde = compute_lde(domain, evaluations(&polys, domain), 2);
        assert_eq!(lde.width, 2);
        assert_eq!(lde.height(), 16);
        let g = Felt::two_adic_generator(4);
        for j in 0..16 {
            let x = felt(31).mul(exp_u64(g, reverse_bits_len(j, 4) as u64));
            for c in 0..2 {
                assert_eq!(lde.get(j, c), eval_base(&polys[c], x));
            }
        }
    }
}

#[test]
fn a_single_row_extends_to_constants() {
    let domain = Coset { log_n: 0, shift: felt(1) };
    let lde = compute_lde(domain, Matrix { values: vec![felt(7), felt(9)], width: 2 }, 2);
    assert_eq!(lde.values, [7, 9, 7, 9, 7, 9, 7, 9].map(felt).to_vec());
    let ldes = pcs().commit(vec![(domain, Matrix { values: vec![felt(7)], width: 1 })]);
    let points = vec![vec![ext(3, 1, 4, 1)]];
    let opening = pcs().open(&vec![(&ldes, &points)]);
    assert_eq!(opening.opened_values, vec![vec![vec![vec![ext(7, 0, 0, 0)]]]]);
}

#[test]
fn rows_are_reversed_by_the_bits_of_their_number() {
    let mat = Matrix { values: (0..8).map(felt).collect(), width: 2 };
    let r = bit_reverse_rows(&mat);
    assert_eq!(r.values, [0, 1, 4, 5, 2, 3, 6, 7].map(felt).to_vec());
}

#[test]
fn what_is_read_back_are_the_values_of_the_polynomials() {
    let (polys, ldes) = committed();
    let domain = Coset { log_n: 2, shift: felt(31) };
    let read = pcs().get_evaluations_on_domain(&ldes, 0, domain);
    assert_eq!(read.width, 3);
    let expected = evaluations(&polys[0], domain);
    assert_eq!(read.values, expected.values);
    let whole = Coset { log_n: 3, shift: felt(31) };
    let read = pcs().get_evaluations_on_domain(&ldes, 0, whole);
    assert_eq!(read.values, evaluations(&polys[0], whole).values);
}

#[test]
fn recomputing_an_extension_gives_the_committed_one() {
    let (polys, ldes) = committed();
    let again = pcs().recompute_lde_owned(vec![(subgroup(2), evaluations(&polys[0], subgroup(2)))]);
    assert_eq!(again[0].values, ldes[0].values);
}

#[test]
fn opening_gives_the_values_of_the_committed_polynomials() {
    let (polys, ldes) = committed();
    let z = ext(3, 1, 4, 1);
    let w = ext(2, 7, 1, 8);
    let points = vec![vec![z, w], vec![w]];
    let opening = pcs().open(&vec![(&ldes, &points)]);
    let values = &opening.opened_values[0];
    assert_eq!(values.len(), 2);
    for (p, point) in [z, w].into_iter().enumerate() {
        let expected: Vec<Ext> = polys[0].iter().map(|c| eval(c, point)).collect();
        assert_eq!(values[0][p], expected);
    }
    assert_eq!(values[1], vec![vec![eval(&polys[1][0], w)]]);
    assert_eq!(opening.log_global_max_height, 3);
    assert_eq!(opening.global_max_width, 3);
    let observed = observed_values(&opening.opened_values);
    assert_eq!(observed.len(), 7);
    assert_eq!(observed[0], eval(&polys[0][0], z));
    assert_eq!(observed[3], eval(&polys[0][0], w));
    assert_eq!(observed[6], eval(&polys[1][0], w));
}

#[test]
fn a_matrix_without_points_is_not_opened() {
    let (_, ldes) = committed();
    let points = vec![vec![ext(3, 1, 4, 1)], vec![]];
    let opening = pcs().open(&vec![(&ldes, &points)]);
    assert_eq!(opening.opened_values[0][0].len(), 1);
    assert_eq!(opening.opened_values[0][1].len(), 0);
}

fn cached(ldes: Vec<Matrix<Felt>>, points: Vec<Vec<Ext>>, saved: bool) -> CachedRound<u8> {
    let max_height = ldes.iter().map(|m| m.height()).max().unwrap();
    let mut data = ProverData { leaves: ldes, max_height, digests: 0u8 };
    let kept = if saved { Some(data.take_leaves_rm()) } else { None };
    assert_eq!(data.has_leaves_rm(), !saved);
    assert_eq!(data.max_height_rm(), max_height);
    CachedRound { data, points, saved: kept }
}

#[test]
fn opening_one_round_at_a_time_gives_the_same() {
    let z = ext(3, 1, 4, 1);
    let w = ext(2, 7, 1, 8);
    let alpha = ext(9, 9, 9, 10);
    let (_, first) = committed();
    let (_, second) = committed();
    let p1 = vec![vec![z, w], vec![w]];
    let p2 = vec![vec![w], vec![z, w]];
    let rounds = vec![(&first, &p1), (&second, &p2)];
    let whole = pcs().open(&rounds);
    let words = pcs().reduce_openings(&rounds, &whole, alpha);

    let mut saved = vec![
        cached(committed().1, p1.clone(), true),
        cached(committed().1, p2.clone(), false),
    ];
    let parts = pcs().open_sequential_cached(&mut saved);
    assert_eq!(parts.opened_values, whole.opened_values);
    assert_eq!(parts.log_global_max_height, whole.log_global_max_height);
    assert!(saved[0].saved.is_some() && saved[1].saved.is_none());
    assert_eq!(pcs().reduce_sequential_cached(&mut saved, &parts, alpha), words);
    assert!(saved[0].saved.is_some() && saved[1].saved.is_none());
    assert!(!saved[0].data.has_leaves_rm() && saved[1].data.has_leaves_rm());
    assert!(saved[0].restore());
    assert!(!saved[0].restore());
    assert!(saved[0].data.has_leaves_rm());

    let prep = ProverData { leaves: committed().1, max_height: 8, digests: 0u8 };
    let mut rest = vec![cached(committed().1, p2.clone(), true)];
    let split = pcs().open_sequential_cached_split(&prep, &p1, &mut rest);
    assert_eq!(split.opened_values, whole.opened_values);
    assert!(rest[0].saved.is_none());
    assert!(rest[0].data.has_leaves_rm());
}

#[test]
fn opening_recomputed_rounds_gives_the_same() {
    let z = ext(3, 1, 4, 1);
    let w = ext(2, 7, 1, 8);
    let (polys, first) = committed();
    let (_, second) = committed();
    let p1 = vec![vec![z, w], vec![w]];
    let p2 = vec![vec![w], vec![z, w]];
    let whole = pcs().open(&vec![(&first, &p1), (&second, &p2), (&second, &p2)]);

    let rounds = vec![
        cached(vec![Matrix { values: vec![], width: 1 }], p1.clone(), true),
        cached(committed().1, p2.clone(), true),
        cached(committed().1, p2.clone(), false),
    ];
    let originals: Vec<RoundOriginals> = vec![
        Some(vec![
            (subgroup(2), evaluations(&polys[0], subgroup(2))),
            (subgroup(1), evaluations(&polys[1], subgroup(1))),
        ]),
        None,
        None,
    ];
    let parts = pcs().open_sequential(&rounds, &originals);
    assert_eq!(parts.opened_values, whole.opened_values);
    assert_eq!(parts.log_global_max_height, 3);
    assert_eq!(parts.global_max_width, 3);
    assert_eq!(parts.opened_values[0][1][0], vec![eval(&polys[1][0], w)]);

    // The codewords are the same too, with the matrix that the evaluations extend to.
    let alpha = ext(9, 9, 9, 10);
    let again = pcs().recompute_lde_owned(vec![
        (subgroup(2), evaluations(&polys[0], subgroup(2))),
        (subgroup(1), evaluations(&polys[1], subgroup(1))),
    ]);
    assert_eq!(
        pcs().reduce_openings(&vec![(&again, &p1), (&second, &p2), (&second, &p2)], &parts, alpha),
        pcs().reduce_openings(&vec![(&first, &p1), (&second, &p2), (&second, &p2)], &whole, alpha)
    );
}

fn claims(polys: &[Vec<Vec<Felt>>], points: &[Vec<Ext>]) -> Vec<MatrixClaim> {
    let mut r = Vec::new();
    for (i, columns) in polys.iter().enumerate() {
        let log_n = if i == 0 { 2 } else { 1 };
        let points = points[i]
            .iter()
            .map(|z| (*z, columns.iter().map(|c| eval(c, *z)).collect()))
            .collect();
        r.push(MatrixClaim { domain: subgroup(log_n), points });
    }
    r
}

/// The rows that a query reads.
fn rows(ldes: &[Matrix<Felt>], index: usize) -> Vec<Vec<Felt>> {
    ldes.iter()
        .map(|m| {
            let row = if m.height() == 8 { index } else { index >> 1 };
            (0..m.width).map(|c| m.get(row, c)).collect()
        })
        .collect()
}

#[test]
fn the_verifier_computes_the_entries_of_the_combined_codewords() {
    let (polys, ldes) = committed();
    let points = vec![vec![ext(3, 1, 4, 1), ext(2, 7, 1, 8)], vec![ext(2, 7, 1, 8)]];
    let alpha = ext(5, 0, 6, 0);
    let rounds = vec![(&ldes, &points)];
    let opening = pcs().open(&rounds);
    let words = pcs().reduce_openings(&rounds, &opening, alpha);
    let batches = vec![claims(&polys, &points)];
    assert_eq!(observed_claims(&batches), observed_values(&opening.opened_values));
    for index in 0..8 {
        let ro = pcs().verify_query(&batches, &vec![rows(&ldes, index)], 3, index, alpha);
        assert_eq!(ro.len(), 32);
        assert_eq!(ro[3], words[3].as_ref().unwrap()[index]);
        assert_eq!(ro[2], words[2].as_ref().unwrap()[index >> 1]);
        assert_eq!(ro[1], Ext::zero());
        assert!(words[1].is_none());
    }
}

#[test]
fn a_wrong_claim_changes_what_the_verifier_computes() {
    let (polys, ldes) = committed();
    let points = vec![vec![ext(3, 1, 4, 1)], vec![ext(2, 7, 1, 8)]];
    let alpha = ext(5, 0, 6, 0);
    let mut batches = vec![claims(&polys, &points)];
    let right = pcs().verify_query(&batches, &vec![rows(&ldes, 5)], 3, 5, alpha);
    batches[0][0].points[0].1[1] = ext(1, 2, 3, 4);
    let wrong = pcs().verify_query(&batches, &vec![rows(&ldes, 5)], 3, 5, alpha);
    assert_ne!(right[3], wrong[3]);
    assert_eq!(right[2], wrong[2]);
}

#[test]
fn a_query_asks_each_batch_for_its_row() {
    let domains = vec![subgroup(2), subgroup(1)];
    let (dims, index) = pcs().batch_query(&domains, 5, 0b10110);
    assert_eq!(
        dims,
        vec![Dimensions { width: 0, height: 8 }, Dimensions { width: 0, height: 4 }]
    );
    assert_eq!(index, 0b101);
    assert_eq!(pcs().reduced_query_index(5, 8, 0b10110), 0b101);
    assert_eq!(pcs().reduced_query_index(5, 32, 0b10110), 0b10110);
}

fn query(ldes: &[Matrix<Felt>], index: usize, error: Option<&'static str>) -> QueryOpening<&'static str> {
    QueryOpening { index, rows: vec![rows(ldes, index)], checks: vec![error] }
}

#[test]
fn an_opening_is_accepted_when_nothing_is_wrong() {
    let (polys, ldes) = committed();
    let points = vec![vec![ext(3, 1, 4, 1)], vec![ext(2, 7, 1, 8)]];
    let batches = vec![claims(&polys, &points)];
    let alpha = ext(5, 0, 6, 0);
    let queries = vec![query(&ldes, 2, None), query(&ldes, 7, None)];
    let reduced: Result<Vec<Vec<Ext>>, VerificationError<&str, &str>> =
        pcs().verify_queries(None, &batches, queries, 2, alpha);
    let openings = reduced.as_ref().unwrap();
    assert_eq!(openings.len(), 2);
    let expected = pcs().verify_query(&batches, &vec![rows(&ldes, 7)], 3, 7, alpha);
    assert_eq!(openings[1], expected);
    assert!(pcs().verify(reduced, None).is_ok());
}

#[test]
fn the_first_error_rejects_an_opening() {
    let (polys, ldes) = committed();
    let points = vec![vec![ext(3, 1, 4, 1)], vec![ext(2, 7, 1, 8)]];
    let batches = vec![claims(&polys, &points)];
    let alpha = ext(5, 0, 6, 0);
    let queries = vec![query(&ldes, 2, None), query(&ldes, 7, Some("row")), query(&ldes, 1, Some("late"))];
    let r = pcs().verify_queries::<&str, &str>(None, &batches, queries, 2, alpha);
    assert!(matches!(pcs().verify(r, None), Err(VerificationError::InputMmcsError("row"))));
    let queries = vec![query(&ldes, 2, Some("row"))];
    let r = pcs().verify_queries::<&str, &str>(Some("shape"), &batches, queries, 2, alpha);
    assert!(matches!(pcs().verify(r, None), Err(VerificationError::FriError("shape"))));
    let r = pcs().verify_queries::<&str, &str>(None, &batches, vec![query(&ldes, 2, None)], 2, alpha);
    assert!(matches!(pcs().verify(r, Some("fold")), Err(VerificationError::FriError("fold"))));
}

#[test]
fn folding_combined_codewords_ends_in_a_constant() {
    let (_, ldes) = committed();
    let points = vec![vec![ext(3, 1, 4, 1), ext(2, 7, 1, 8)], vec![ext(2, 7, 1, 8)]];
    let alpha = ext(5, 0, 6, 0);
    let rounds = vec![(&ldes, &points)];
    let opening = pcs().open(&rounds);
    let words = pcs().reduce_openings(&rounds, &opening, alpha);
    assert_eq!(log_max_height(&words), Some(3));
    let betas = vec![ext(1, 2, 3, 4), ext(5, 6, 7, 8)];
    let config = pcs().fri;
    let result = commit_phase(&config, &words, 3, &betas).unwrap();
    assert_eq!(result.data.len(), 2);
    assert_eq!(&result.data[0].values, words[3].as_ref().unwrap());
    assert_eq!(result.data[1].values.len(), 4);

    // The same, one step after the other.
    let mut phase = CommitPhase::start(&words, 3);
    for beta in &betas {
        let log_height = phase.log_height;
        let leaves = match phase.leaves(&config) {
            Ok(leaves) => leaves,
            Err(_) => panic!("the word is not short yet"),
        };
        phase = CommitPhase::fold(&words, log_height, &leaves, *beta);
    }
    let last = match phase.leaves(&config) {
        Ok(_) => panic!("the word is short"),
        Err(phase) => phase,
    };
    assert_eq!(last.finish(&config), Some(result.final_poly));
}

/// The value at `beta` of the line through two entries of a codeword that belong to `x` and `-x`.
fn line_at(beta: Ext, x: Ext, e0: Ext, e1: Ext) -> Ext {
    e0.add(beta.sub(x).mul(e1.sub(e0)).mul(x.neg().sub(x).inverse()))
}

#[test]
fn every_query_of_an_honest_opening_ends_with_the_constant() {
    let (polys, ldes) = committed();
    let points = vec![vec![ext(3, 1, 4, 1), ext(2, 7, 1, 8)], vec![ext(2, 7, 1, 8)]];
    let alpha = ext(5, 0, 6, 0);
    let rounds = vec![(&ldes, &points)];
    let opening = pcs().open(&rounds);
    let words = pcs().reduce_openings(&rounds, &opening, alpha);
    let betas = vec![ext(1, 2, 3, 4), ext(5, 6, 7, 8)];
    let result = commit_phase(&pcs().fri, &words, 3, &betas).unwrap();
    let batches = vec![claims(&polys, &points)];
    for index in 0..8usize {
        let ro = pcs().verify_query(&batches, &vec![rows(&ldes, index)], 3, index, alpha);
        let mut value = ro[3];
        for (n, beta) in betas.iter().enumerate() {
            let (row, slot) = query_location(index, n);
            let sibling = result.data[n].get(row, slot);
            let (e0, e1) = if slot == 1 { (value, sibling) } else { (sibling, value) };
            let log_height = 3 - n;
            let g = Ext::two_adic_generator(log_height);
            let x = exp_u64(g, reverse_bits_len(2 * row, log_height) as u64);
            value = line_at(*beta, x, e0, e1).add(ro[log_height - 1]);
        }
        assert_eq!(value, result.final_poly);
    }
}

#[test]
fn an_honest_proof_is_accepted_and_a_changed_one_is_not() {
    let (polys, ldes) = committed();
    let points = vec![vec![ext(3, 1, 4, 1), ext(2, 7, 1, 8)], vec![ext(2, 7, 1, 8)]];
    let alpha = ext(5, 0, 6, 0);
    let rounds = vec![(&ldes, &points)];
    let opening = pcs().open(&rounds);
    let words = pcs().reduce_openings(&rounds, &opening, alpha);
    let betas = vec![ext(1, 2, 3, 4), ext(5, 6, 7, 8)];
    let result = commit_phase(&pcs().fri, &words, 3, &betas).unwrap();
    let indices = vec![6, 0, 3];
    let opened = indices
        .iter()
        .map(|&index| {
            (0..2)
                .map(|n| {
                    let row = query_location(index, n).0;
                    (vec![vec![result.data[n].get(row, 0), result.data[n].get(row, 1)]], ())
                })
                .collect()
        })
        .collect();
    let (proof, indices) = prove(vec!["a", "b"], result.final_poly, opened, 0u32, indices);
    for change in [ext(0, 0, 0, 0), ext(1, 0, 0, 0)] {
        let mut batches = vec![claims(&polys, &points)];
        batches[0][1].points[0].1[0] = batches[0][1].points[0].1[0].add(change);
        let queries: Vec<_> = indices.iter().map(|&index| query(&ldes, index, None)).collect();
        assert!(queries.iter().all(|q| pcs().is_combinable(q, &batches, 2)));
        let reduced = pcs().verify_queries::<&str, &str>(None, &batches, queries, 2, alpha);
        let mut wrong = None;
        for (q, ro) in reduced.as_ref().unwrap().iter().enumerate() {
            let mut value = ro[3];
            for (n, step) in proof.query_proofs[q].commit_phase_openings.iter().enumerate() {
                let (row, slot) = query_location(indices[q], n);
                let sibling = step.sibling_value;
                let (e0, e1) = if slot == 1 { (value, sibling) } else { (sibling, value) };
                let g = Ext::two_adic_generator(3 - n);
                let x = exp_u64(g, reverse_bits_len(2 * row, 3 - n) as u64);
                value = line_at(betas[n], x, e0, e1).add(ro[2 - n]);
            }
            if value != proof.final_poly {
                wrong = Some("not the final polynomial");
            }
        }
        assert_eq!(pcs().verify(reduced, wrong).is_ok(), change == Ext::zero());
    }
}

#[test]
fn rows_are_not_combined_at_a_claimed_point() {
    let (polys, ldes) = committed();
    let points = vec![vec![ext(3, 1, 4, 1)], vec![ext(2, 7, 1, 8)]];
    let mut batches = vec![claims(&polys, &points)];
    assert!(pcs().is_combinable(&query(&ldes, 4, None), &batches, 2));
    // Row 4 of 8 belongs to the generator times the root itself.
    let x = felt(31).mul(Felt::two_adic_generator(3));
    batches[0][0].points[0].0 = Ext::from_base(x);
    assert!(!pcs().is_combinable(&query(&ldes, 4, None), &batches, 2));
    assert!(pcs().is_combinable(&query(&ldes, 5, None), &batches, 2));
    // The largest matrix is higher than the folding starts.
    assert!(!pcs().is_combinable(&query(&ldes, 5, None), &batches, 1));
}

#[test]
fn folding_a_word_of_high_degree_is_refused() {
    let config = pcs().fri;
    let mut words: Vec<Option<Vec<Ext>>> = (0..32).map(|_| None).collect();
    words[2] = Some(vec![ext(1, 0, 0, 0), ext(2, 0, 0, 0), ext(3, 0, 0, 0), ext(7, 0, 0, 0)]);
    assert!(commit_phase(&config, &words, 2, &vec![ext(3, 0, 0, 0)]).is_none());
    words[2] = None;
    assert_eq!(log_max_height(&words), None);
}

#[test]
fn a_word_that_is_short_already_is_not_folded() {
    let config = pcs().fri;
    let c = ext(4, 3, 2, 1);
    let mut words: Vec<Option<Vec<Ext>>> = (0..32).map(|_| None).collect();
    words[1] = Some(vec![c, c]);
    let result = commit_phase(&config, &words, 1, &vec![]).unwrap();
    assert_eq!(result.final_poly, c);
    assert_eq!(result.data.len(), 0);
    assert_eq!(config.blowup(), 2);
}

#[test]
fn a_query_is_answered_with_siblings() {
    let row = |a: u32, b: u32| vec![vec![ext(a, 0, 0, 0), ext(b, 0, 0, 0)]];
    assert_eq!(query_location(0b110, 0), (0b11, 1));
    assert_eq!(query_location(0b110, 1), (0b1, 0));
    let proof = answer_query(vec![(row(10, 11), 'x'), (row(20, 21), 'y')], 0b110);
    let steps = &proof.commit_phase_openings;
    assert_eq!(steps.len(), 2);
    assert_eq!(steps[0].sibling_value, ext(11, 0, 0, 0));
    assert_eq!(steps[1].sibling_value, ext(20, 0, 0, 0));
    assert_eq!((steps[0].opening_proof, steps[1].opening_proof), ('x', 'y'));
}

#[test]
fn a_proof_answers_every_query() {
    let row = |a: u32, b: u32| vec![vec![ext(a, 0, 0, 0), ext(b, 0, 0, 0)]];
    let opened = vec![vec![(row(10, 11), 1u8)], vec![(row(12, 13), 2u8)]];
    let (proof, indices) = prove(vec!["c"], ext(9, 0, 0, 0), opened, 77u64, vec![0, 3]);
    assert_eq!(indices, vec![0, 3]);
    assert_eq!(proof.commit_phase_commits, vec!["c"]);
    assert_eq!(proof.final_poly, ext(9, 0, 0, 0));
    assert_eq!(proof.pow_witness, 77);
    let siblings: Vec<Ext> =
        proof.query_proofs.iter().map(|q| q.commit_phase_openings[0].sibling_value).collect();
    assert_eq!(siblings, vec![ext(11, 0, 0, 0), ext(12, 0, 0, 0)]);
}

#[test]
fn denominators_are_inverted_once_for_each_point() {
    let (_, ldes) = committed();
    let z = ext(3, 1, 4, 1);
    let w = ext(2, 7, 1, 8);
    let points = vec![vec![z], vec![w, z]];
    let inv = compute_inverse_denominators(&vec![(&ldes, &points)], felt(31));
    let at_z = inv.get(z).unwrap();
    let at_w = inv.get(w).unwrap();
    assert_eq!(at_z.len(), 8);
    assert_eq!(at_w.len(), 4);
    for (inverses, point, log_n) in [(at_z, z, 3usize), (at_w, w, 2)] {
        let g = Felt::two_adic_generator(log_n);
        for (j, inverse) in inverses.iter().enumerate() {
            let x = felt(31).mul(exp_u64(g, reverse_bits_len(j, log_n) as u64));
            assert_eq!(Ext::from_base(x).sub(point).mul(*inverse), Ext::one());
        }
    }
    assert!(inv.get(ext(1, 1, 1, 1)).is_none());

    let dims = vec![Dimensions { width: 3, height: 8 }, Dimensions { width: 1, height: 4 }];
    let same = compute_inverse_denominators_from_dims(&vec![(dims, &points)], 1, felt(31));
    assert_eq!(same.get(z), inv.get(z));
    assert_eq!(same.get(w), inv.get(w));
    assert_ne!(to_key(z), to_key(w));
}

#[test]
fn interpolating_gives_the_values_of_the_polynomials() {
    let polys = [column(11, 4), column(12, 4)];
    let domain = Coset { log_n: 2, shift: felt(31) };
    let mat = bit_reverse_rows(&evaluations(&polys, domain));
    let g = Felt::two_adic_generator(2);
    let z = ext(3, 1, 4, 1);
    let w = ext(2, 7, 1, 8);
    let inverses = |z: Ext| -> Vec<Ext> {
        (0..4)
            .map(|j| {
                let x = felt(31).mul(exp_u64(g, j));
                z.sub(Ext::from_base(x)).inverse()
            })
            .collect()
    };
    let at_z: Vec<Ext> = polys.iter().map(|c| eval(c, z)).collect();
    let at_w: Vec<Ext> = polys.iter().map(|c| eval(c, w)).collect();
    let (iz, iw) = (inverses(z), inverses(w));
    assert_eq!(interpolate_coset_precomputed(&mat, 2, felt(31), z, &iz), at_z);
    let both = interpolate_coset_precomputed_2point(&mat, 2, felt(31), z, &iz, w, &iw);
    assert_eq!(both, (at_z, at_w));
}

#[test]
fn the_natural_domain_is_the_subgroup() {
    assert_eq!(pcs().natural_domain_for_degree(8), subgroup(3));
    assert_eq!(pcs().log_blowup(), 1);
}

#[test]
fn transposing_swaps_rows_and_columns() {
    assert_eq!(transpose_vec(vec![vec![1, 2, 3], vec![4, 5, 6]]), vec![vec![1, 4], vec![2, 5], vec![3, 6]]);
}
