//! Whether a chip's permutation trace can be computed from its traces and the challenges.

use vstd::prelude::*;
use vstd::arithmetic::div_mod::*;
use vstd::arithmetic::mul::*;
use crate::babybear::{Felt, P};
use crate::chip::Chip;
use crate::ext::Ext;
use crate::field::Field;
use crate::lookup::{Interaction, PairCol, VirtualPairCol};
use crate::matrix::Matrix;
use crate::permutation;
use crate::prover;
use crate::ring;
use crate::ring::Ring;

verus! {

fn columns_in_range(col: &VirtualPairCol, prep_width: usize, main_width: usize) -> (r: bool)
    ensures
        r == col.in_range(prep_width as nat, main_width as nat),
{
    let mut i: usize = 0;
    while i < col.column_weights.len()
        invariant
            i <= col.column_weights@.len(),
            forall|k: int|
                0 <= k < i ==> (#[trigger] col.column_weights@[k]).0.in_range(
                    prep_width as nat,
                    main_width as nat,
                ),
        decreases col.column_weights@.len() - i,
    {
        let there: bool = match &col.column_weights[i].0 {
            PairCol::Preprocessed(c) => *c < prep_width,
            PairCol::Main(c) => *c < main_width,
        };
        if !there {
            assert(!col.column_weights@[i as int].0.in_range(prep_width as nat, main_width as nat));
            return false;
        }
        i = i + 1;
    }
    true
}

fn interaction_in_range(msg: &Interaction, prep_width: usize, main_width: usize) -> (r: bool)
    ensures
        r == msg.in_range(prep_width as nat, main_width as nat),
{
    if msg.argument_index >= P as usize || !columns_in_range(
        &msg.multiplicity,
        prep_width,
        main_width,
    ) {
        return false;
    }
    let mut i: usize = 0;
    while i < msg.values.len()
        invariant
            i <= msg.values@.len(),
            forall|k: int|
                0 <= k < i ==> (#[trigger] msg.values@[k]).in_range(
                    prep_width as nat,
                    main_width as nat,
                ),
        decreases msg.values@.len() - i,
    {
        if !columns_in_range(&msg.values[i], prep_width, main_width) {
            assert(!msg.values@[i as int].in_range(prep_width as nat, main_width as nat));
            return false;
        }
        i = i + 1;
    }
    true
}

/// Whether all interactions read columns that exist.
fn all_in_range(ints: &Vec<&Interaction>, prep_width: usize, main_width: usize) -> (r: bool)
    ensures
        r == forall|i: int|
            0 <= i < ints@.len() ==> (#[trigger] ints@[i]).in_range(
                prep_width as nat,
                main_width as nat,
            ),
{
    let mut i: usize = 0;
    while i < ints.len()
        invariant
            i <= ints@.len(),
            forall|k: int|
                0 <= k < i ==> (#[trigger] ints@[k]).in_range(
                    prep_width as nat,
                    main_width as nat,
                ),
        decreases ints@.len() - i,
    {
        if !interaction_in_range(ints[i], prep_width, main_width) {
            assert(!ints@[i as int].in_range(prep_width as nat, main_width as nat));
            return false;
        }
        i = i + 1;
    }
    true
}

/// Whether the denominators of a batch have a product that is not zero.
fn batch_nonzero(d: &Vec<Ext>) -> (r: bool)
    ensures
        r == (permutation::product(d@, d@.len()) != Ext::zero_spec()),
{
    let mut p: Ext = Ext::one();
    let mut i: usize = 0;
    while i < d.len()
        invariant
            i <= d@.len(),
            p == permutation::product(d@, i as nat),
        decreases d@.len() - i,
    {
        p = p.mul(d[i]);
        i = i + 1;
    }
    proof {
        permutation::lemma_product_reduced(d@, d@.len());
        Ext::law_constants();
    }
    !p.equals(Ext::zero())
}

/// Whether no batch of any row has a denominator that is zero.
fn denominators_nonzero(
    sends: &Vec<&Interaction>,
    receives: &Vec<&Interaction>,
    preprocessed: Option<&Matrix<Felt>>,
    main: &Matrix<Felt>,
    alpha: Ext,
    beta: Ext,
    batch_size: usize,
) -> (r: bool)
    requires
        permutation::traces_ok(preprocessed, *main),
        permutation::values_fit(sends@, receives@),
        permutation::interactions_ok(
            sends@,
            receives@,
            batch_size as nat,
            permutation::prep_width(preprocessed),
            main.width as nat,
        ),
        sends@.len() + receives@.len() > 0,
    ensures
        r == permutation::denominators_ok(
            sends@,
            receives@,
            preprocessed,
            *main,
            alpha,
            beta,
            batch_size as nat,
        ),
{
    let n: usize = permutation::max_values_len(sends, receives);
    let powers: Vec<Ext> = permutation::powers_of(beta, n + 1);
    let total: usize = sends.len() + receives.len();
    let chunks: usize = permutation::local_permutation_trace_width(total, batch_size) - 1;
    let height: usize = main.height();
    let none: Vec<Felt> = Vec::new();
    proof {
        lemma_fundamental_div_mod(main.values@.len() as int, main.width as int);
        lemma_mul_is_commutative(height as int, main.width as int);
    }
    let mut row: usize = 0;
    while row < height
        invariant
            row <= height,
            height == main.rows(),
            height * main.width <= main.values@.len(),
            none@.len() == 0,
            chunks == permutation::ceil_div(sends@.len() + receives@.len(), batch_size as nat),
            permutation::traces_ok(preprocessed, *main),
            permutation::interactions_ok(
                sends@,
                receives@,
                batch_size as nat,
                permutation::prep_width(preprocessed),
                main.width as nat,
            ),
            sends@.len() + receives@.len() > 0,
            forall|i: int|
                0 <= i < sends@.len() ==> powers@.len() > (#[trigger] sends@[i]).values@.len(),
            forall|i: int|
                0 <= i < receives@.len() ==> powers@.len() > (#[trigger] receives@[i]).values@.len(),
            forall|i: int|
                0 <= i < powers@.len() ==> #[trigger] powers@[i] == ring::pow(beta, i as nat),
            forall|r: int, c: int|
                0 <= r < row && 0 <= c < chunks ==> {
                    let d = #[trigger] permutation::batch_denominators(
                        sends@,
                        receives@,
                        batch_size as nat,
                        permutation::prep_row(preprocessed, r),
                        main.row(r),
                        alpha,
                        beta,
                        c,
                    );
                    permutation::product(d, d.len()) != Ext::zero_spec()
                },
        decreases height - row,
    {
        proof {
            permutation::lemma_rows_complete(
                main.values@.len(),
                main.width as nat,
                height as nat,
                row as nat,
            );
            if let Some(p) = preprocessed {
                permutation::lemma_rows_complete(
                    p.values@.len(),
                    p.width as nat,
                    height as nat,
                    row as nat,
                );
            }
        }
        let main_row: &[Felt] = permutation::row_slice(main, row);
        let prep_row: &[Felt] = match preprocessed {
            Some(p) => permutation::row_slice(p, row),
            None => none.as_slice(),
        };
        assert(prep_row@ =~= permutation::prep_row(preprocessed, row as int));
        let mut c: usize = 0;
        while c < chunks
            invariant
                c <= chunks,
                row < height,
                height == main.rows(),
                main_row@ == main.row(row as int),
                prep_row@ == permutation::prep_row(preprocessed, row as int),
                chunks == permutation::ceil_div(sends@.len() + receives@.len(), batch_size as nat),
                permutation::interactions_ok(
                    sends@,
                    receives@,
                    batch_size as nat,
                    prep_row@.len(),
                    main_row@.len(),
                ),
                sends@.len() + receives@.len() > 0,
                forall|i: int|
                    0 <= i < sends@.len() ==> powers@.len() > (#[trigger] sends@[i]).values@.len(),
                forall|i: int|
                    0 <= i < receives@.len() ==> powers@.len() > (
                    #[trigger] receives@[i]).values@.len(),
                forall|i: int|
                    0 <= i < powers@.len() ==> #[trigger] powers@[i] == ring::pow(beta, i as nat),
                forall|e: int|
                    0 <= e < c ==> {
                        let d = #[trigger] permutation::batch_denominators(
                            sends@,
                            receives@,
                            batch_size as nat,
                            permutation::prep_row(preprocessed, row as int),
                            main.row(row as int),
                            alpha,
                            beta,
                            e,
                        );
                        permutation::product(d, d.len()) != Ext::zero_spec()
                    },
            decreases chunks - c,
        {
            let (d, _m) = permutation::batch_parts(
                sends,
                receives,
                batch_size,
                c,
                prep_row,
                main_row,
                alpha,
                &powers,
                Ghost(beta),
            );
            if !batch_nonzero(&d) {
                proof {
                    let d = permutation::batch_denominators(
                        sends@,
                        receives@,
                        batch_size as nat,
                        permutation::prep_row(preprocessed, row as int),
                        main.row(row as int),
                        alpha,
                        beta,
                        c as int,
                    );
                    assert(permutation::product(d, d.len()) == Ext::zero_spec());
                }
                return false;
            }
            c = c + 1;
        }
        row = row + 1;
    }
    true
}

/// Whether each interaction's values, and one more, fit into memory.
fn values_fit(ints: &Vec<&Interaction>) -> (r: bool)
    ensures
        r == forall|i: int|
            0 <= i < ints@.len() ==> (#[trigger] ints@[i]).values@.len() < usize::MAX,
{
    let mut i: usize = 0;
    while i < ints.len()
        invariant
            i <= ints@.len(),
            forall|k: int|
                0 <= k < i ==> (#[trigger] ints@[k]).values@.len() < usize::MAX,
        decreases ints@.len() - i,
    {
        if ints[i].values.len() == usize::MAX {
            assert(ints@[i as int].values@.len() == usize::MAX);
            return false;
        }
        i = i + 1;
    }
    true
}

/// Whether the traces have complete rows, and the preprocessed one has enough of them.
fn traces_fit(preprocessed: Option<&Matrix<Felt>>, main: &Matrix<Felt>) -> (r: bool)
    ensures
        r == permutation::traces_ok(preprocessed, *main),
{
    if main.width == 0 || main.values.len() % main.width != 0 {
        return false;
    }
    match preprocessed {
        Some(p) => {
            let cells: usize = p.values.len();
            match main.height().checked_mul(p.width) {
                Some(needed) => needed <= cells,
                None => false,
            }
        },
        None => true,
    }
}

/// Whether the permutation trace of a chip can be computed: the traces are complete, the
/// interactions read columns that exist, there are challenges, and no denominator is zero.
pub fn is_permutable<A>(
    chip: &Chip<A>,
    preprocessed: Option<&Matrix<Felt>>,
    main: &Matrix<Felt>,
    challenges: &Vec<Ext>,
) -> (r: bool)
    ensures
        r == prover::permutable(*chip, preprocessed, *main, challenges@),
{
    let sends: Vec<&Interaction> = chip.sends_refs();
    let receives: Vec<&Interaction> = chip.receives_refs();
    if !traces_fit(preprocessed, main) || !values_fit(&sends) || !values_fit(&receives) {
        return false;
    }
    assert(sends@.len() == chip.local_sends@.len());
    assert(receives@.len() == chip.local_receives@.len());
    let total: usize = match sends.len().checked_add(receives.len()) {
        Some(total) => total,
        None => {
            return false;
        },
    };
    if total == 0 {
        return true;
    }
    let batch_size: usize = chip.logup_batch_size;
    if total == usize::MAX || batch_size == 0 || (batch_size > 8 && total > 8) {
        return false;
    }
    let prep_width: usize = match preprocessed {
        Some(p) => p.width,
        None => 0,
    };
    if !all_in_range(&sends, prep_width, main.width) || !all_in_range(
        &receives,
        prep_width,
        main.width,
    ) {
        return false;
    }
    let height: usize = main.height();
    if challenges.len() < 2 || height == 0 {
        return false;
    }
    match height.checked_mul(chip.permutation_width()) {
        Some(_) => {},
        None => {
            return false;
        },
    }
    denominators_nonzero(
        &sends,
        &receives,
        preprocessed,
        main,
        challenges[0],
        challenges[1],
        batch_size,
    )
}

} // verus!
