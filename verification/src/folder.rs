//! The builder that evaluates constraints on a row and folds them at once.

use vstd::prelude::*;
use crate::babybear::Felt;
use crate::builder;
use crate::builder::{BuilderSpec, ConstraintBuilder, SepticDigest};
use crate::ext::Ext;
use crate::field::Field;
use crate::ir;
use crate::ir::{IrExtVal, IrVal};
use crate::program::Window;
use crate::recording::Recording;
use crate::ring::Ring;

verus! {

/// The coordinates of extension elements, one after the other.
pub open spec fn flatten(xs: Seq<Ext>) -> Seq<Felt> {
    Seq::new(4 * xs.len(), |k: int| ir::coordinates(xs[k / 4])[k % 4])
}

pub proof fn lemma_flatten(xs: Seq<Ext>, i: int)
    requires
        0 <= i < xs.len(),
    ensures
        builder::ext_at(flatten(xs), i) == xs[i],
{
    assert((4 * i) / 4 == i && (4 * i) % 4 == 0);
    assert((4 * i + 1) / 4 == i && (4 * i + 1) % 4 == 1);
    assert((4 * i + 2) / 4 == i && (4 * i + 2) % 4 == 2);
    assert((4 * i + 3) / 4 == i && (4 * i + 3) % 4 == 3);
}

/// A row of the traces, and the constraints folded so far.
pub struct ConstraintFolder<'a> {
    pub preprocessed_local: &'a [Felt],
    pub preprocessed_next: &'a [Felt],
    pub main_local: &'a [Felt],
    pub main_next: &'a [Felt],
    pub perm_local: &'a [Ext],
    pub perm_next: &'a [Ext],
    pub perm_challenges: &'a Vec<Ext>,
    pub local_cumulative_sum: Ext,
    pub global_cumulative_sum: SepticDigest,
    pub is_first_row: Felt,
    pub is_last_row: Felt,
    pub is_transition: Felt,
    pub alpha: Ext,
    pub accumulator: Ext,
}

impl<'a> ConstraintFolder<'a> {
    /// The rows that are read.
    pub open spec fn env(&self) -> Window {
        Window {
            prep_local: self.preprocessed_local@,
            prep_next: self.preprocessed_next@,
            main_local: self.main_local@,
            main_next: self.main_next@,
            perm_local: flatten(self.perm_local@),
            perm_next: flatten(self.perm_next@),
            selectors: seq![self.is_first_row, self.is_last_row, self.is_transition],
        }
    }
}

impl<'a> BuilderSpec for ConstraintFolder<'a> {
    type Expr = Felt;

    type ExprEF = Ext;

    open spec fn is_recording() -> bool {
        false
    }

    open spec fn recording(&self) -> Recording {
        arbitrary()
    }

    open spec fn reg(e: Felt) -> IrVal {
        arbitrary()
    }

    open spec fn reg_ef(e: Ext) -> IrExtVal {
        arbitrary()
    }

    open spec fn inv(&self) -> bool {
        &&& self.preprocessed_next@.len() == self.preprocessed_local@.len()
        &&& self.main_next@.len() == self.main_local@.len()
        &&& self.perm_next@.len() == self.perm_local@.len()
    }

    open spec fn ok(&self) -> bool {
        true
    }

    open spec fn size(&self) -> nat {
        0
    }

    open spec fn accepts(&self, env: Window) -> bool {
        env == self.env()
    }

    open spec fn valid(&self, e: Felt) -> bool {
        true
    }

    open spec fn valid_ef(&self, e: Ext) -> bool {
        true
    }

    open spec fn val(&self, env: Window, e: Felt) -> Felt {
        e
    }

    open spec fn val_ef(&self, env: Window, e: Ext) -> Ext {
        e
    }

    open spec fn acc(&self, env: Window) -> Ext {
        self.accumulator
    }

    open spec fn alpha(&self) -> Ext {
        self.alpha
    }

    open spec fn prep_width_spec(&self) -> nat {
        self.preprocessed_local@.len()
    }

    open spec fn main_width_spec(&self) -> nat {
        self.main_local@.len()
    }

    open spec fn perm_width_spec(&self) -> nat {
        self.perm_local@.len()
    }

    open spec fn challenges(&self) -> Seq<Ext> {
        self.perm_challenges@
    }

    open spec fn local_sum(&self) -> Ext {
        self.local_cumulative_sum
    }

    open spec fn global_sum(&self) -> SepticDigest {
        self.global_cumulative_sum
    }
}

impl<'a> ConstraintBuilder for ConstraintFolder<'a> {
    fn main_local(&self, i: usize) -> (r: Felt) {
        self.main_local[i]
    }

    fn main_next(&self, i: usize) -> (r: Felt) {
        self.main_next[i]
    }

    fn prep_local(&self, i: usize) -> (r: Felt) {
        self.preprocessed_local[i]
    }

    fn prep_next(&self, i: usize) -> (r: Felt) {
        self.preprocessed_next[i]
    }

    fn perm_local(&self, i: usize) -> (r: Ext) {
        proof {
            lemma_flatten(self.perm_local@, i as int);
        }
        self.perm_local[i]
    }

    fn perm_next(&self, i: usize) -> (r: Ext) {
        proof {
            lemma_flatten(self.perm_next@, i as int);
        }
        self.perm_next[i]
    }

    fn is_first_row(&self) -> (r: Felt) {
        self.is_first_row
    }

    fn is_last_row(&self) -> (r: Felt) {
        self.is_last_row
    }

    fn is_transition(&self) -> (r: Felt) {
        self.is_transition
    }

    fn main_width(&self) -> (r: usize) {
        self.main_local.len()
    }

    fn permutation_width(&self) -> (r: usize) {
        self.perm_local.len()
    }

    fn challenge(&self, i: usize) -> (r: Ext) {
        self.perm_challenges[i]
    }

    fn local_cumulative_sum(&self) -> (r: Ext) {
        self.local_cumulative_sum
    }

    fn global_cumulative_sum(&self) -> (r: SepticDigest) {
        self.global_cumulative_sum
    }

    fn constant(&mut self, c: Felt) -> (r: Felt) {
        c.add(Felt::zero())
    }

    fn add(&mut self, a: Felt, b: Felt) -> (r: Felt) {
        a.add(b)
    }

    fn sub(&mut self, a: Felt, b: Felt) -> (r: Felt) {
        a.sub(b)
    }

    fn mul(&mut self, a: Felt, b: Felt) -> (r: Felt) {
        a.mul(b)
    }

    fn neg(&mut self, a: Felt) -> (r: Felt) {
        a.neg()
    }

    fn constant_ef(&mut self, c: Felt) -> (r: Ext) {
        Ext::from_base(c.add(Felt::zero()))
    }

    fn from_base(&mut self, a: Felt) -> (r: Ext) {
        Ext::from_base(a)
    }

    fn add_ef(&mut self, a: Ext, b: Ext) -> (r: Ext) {
        a.add(b)
    }

    fn sub_ef(&mut self, a: Ext, b: Ext) -> (r: Ext) {
        a.sub(b)
    }

    fn mul_ef(&mut self, a: Ext, b: Ext) -> (r: Ext) {
        a.mul(b)
    }

    fn mul_ef_base(&mut self, a: Ext, b: Felt) -> (r: Ext) {
        a.mul(Ext::from_base(b))
    }

    fn assert_zero(&mut self, a: Felt) {
        self.accumulator = self.accumulator.mul(self.alpha).add(Ext::from_base(a));
    }

    fn assert_zero_ext(&mut self, a: Ext) {
        self.accumulator = self.accumulator.mul(self.alpha).add(a);
    }
}

} // verus!
