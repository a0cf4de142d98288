use metalspone::babybear::Felt;
use metalspone::ext::Ext;
use metalspone::field::Field;
use metalspone::fold::{fold_even_odd, fold_from_committed};
use metalspone::matrix::Matrix;
use metalspone::reducer::PowersReducer;
use p3_baby_bear::BabyBear;
use p3_dft::{Radix2Dit, TwoAdicSubgroupDft};
use p3_field::extension::BinomialExtensionField;
use p3_field::{AbstractExtensionField, AbstractField, PrimeField32};
use p3_util::reverse_slice_index_bits;
use rand::{thread_rng, Rng};

type EF = BinomialExtensionField<BabyBear, 4>;

fn narrow(x: BabyBear) -> Felt {
    Felt { value: x.as_canonical_u32() }
}

fn narrow_ext(x: EF) -> Ext {
    let v: &[BabyBear] = x.as_base_slice();
    Ext { c0: narrow(v[0]), c1: narrow(v[1]), c2: narrow(v[2]), c3: narrow(v[3]) }
}

#[test]
fn test_fold_even_odd() {
    let mut rng = thread_rng();

    let log_n = 10;
    let n = 1 << log_n;
    let coeffs = (0..n).map(|_| rng.gen::<BabyBear>()).collect::<Vec<_>>();

    let dft = Radix2Dit::default();
    let evals = dft.dft(coeffs.clone());

    let even_coeffs = coeffs.iter().cloned().step_by(2).collect::<Vec<_>>();
    let even_evals = dft.dft(even_coeffs);

    let odd_coeffs = coeffs.iter().cloned().skip(1).step_by(2).collect::<Vec<_>>();
    let odd_evals = dft.dft(odd_coeffs);

    let beta = rng.gen::<BabyBear>();
    let expected = even_evals
        .into_iter()
        .zip(odd_evals)
        .map(|(even, odd)| narrow(even + beta * odd))
        .collect::<Vec<_>>();

    // fold_even_odd takes and returns in bitrev order.
    let mut folded: Vec<Felt> = evals.into_iter().map(narrow).collect();
    reverse_slice_index_bits(&mut folded);
    folded = fold_even_odd(folded, narrow(beta));
    reverse_slice_index_bits(&mut folded);

    assert_eq!(expected, folded);
}

#[test]
fn folding_a_committed_matrix_is_folding_its_values() {
    let values: Vec<Ext> =
        (1..9).map(|i| Ext { c0: Felt { value: i }, c1: Felt { value: i * i }, c2: Felt { value: 3 }, c3: Felt { value: 0 } }).collect();
    let beta = Ext { c0: Felt { value: 5 }, c1: Felt { value: 6 }, c2: Felt { value: 7 }, c3: Felt { value: 8 } };
    let mat = Matrix { values: values.clone(), width: 2 };
    assert_eq!(fold_from_committed(&mat, beta), fold_even_odd(values, beta));
}

#[test]
fn a_constant_folds_to_itself() {
    let c = Felt { value: 17 };
    let folded = fold_even_odd(vec![c; 8], Felt { value: 12345 });
    assert_eq!(folded, vec![c; 4]);
}

#[test]
fn test_powers_reducer() {
    let mut rng = thread_rng();
    let alpha: EF = rng.gen();
    let n = 1000;
    let sizes = [5, 110, 512, 999, 1000];
    let r = PowersReducer::new(narrow_ext(alpha), n);

    // check reduce_ext
    for size in sizes {
        let xs: Vec<EF> = (0..size).map(|_| rng.gen()).collect();
        let ys: Vec<Ext> = xs.iter().map(|x| narrow_ext(*x)).collect();
        let expected: EF =
            xs.iter().enumerate().map(|(i, &x)| alpha.exp_u64(i as u64) * x).sum();
        assert_eq!(r.reduce_ext(&ys), narrow_ext(expected));
    }

    // check reduce_base
    for size in sizes {
        let xs: Vec<BabyBear> = (0..size).map(|_| rng.gen()).collect();
        let ys: Vec<Felt> = xs.iter().map(|x| narrow(*x)).collect();
        let expected: EF =
            xs.iter().enumerate().map(|(i, &x)| alpha.exp_u64(i as u64) * EF::from_base(x)).sum();
        assert_eq!(r.reduce_base(&ys), narrow_ext(expected));
    }
}

#[test]
fn powers_are_kept_by_coordinate() {
    let r = PowersReducer::new(narrow_ext(EF::from_base_slice(&[3, 1, 4, 1].map(BabyBear::from_canonical_u32))), 5);
    assert_eq!(r.transposed_packed.len(), 4);
    for d in 0..4 {
        assert_eq!(r.transposed_packed[d].len(), r.powers.len());
    }
    for (i, power) in r.powers.iter().enumerate() {
        let column: Vec<Felt> = (0..4).map(|d| r.transposed_packed[d][i]).collect();
        assert_eq!(column, vec![power.c0, power.c1, power.c2, power.c3]);
    }
    assert_eq!(r.powers[0], Ext::one());
    assert_eq!(r.transposed_packed[2][1], Felt { value: 4 });
}

#[test]
fn field_operations_agree_with_the_field_crate() {
    let mut rng = thread_rng();
    for _ in 0..100 {
        let a: EF = rng.gen();
        let b: EF = rng.gen();
        let (x, y) = (narrow_ext(a), narrow_ext(b));
        assert_eq!(x.add(y), narrow_ext(a + b));
        assert_eq!(x.sub(y), narrow_ext(a - b));
        assert_eq!(x.mul(y), narrow_ext(a * b));
        assert_eq!(x.neg(), narrow_ext(-a));
        assert!(x.mul(x.inverse()).equals(Ext::one()));
        let c: BabyBear = rng.gen();
        if c != BabyBear::zero() {
            assert!(narrow(c).mul(narrow(c).inverse()).equals(Felt::one()));
        }
    }
}
