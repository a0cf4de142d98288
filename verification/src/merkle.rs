//! The prover's side of a commitment, whose leaf matrices can be set aside.

use vstd::prelude::*;
use crate::matrix::Matrix;

verus! {

/// What the prover keeps of a commitment: the committed matrices, unless they have been taken
/// out, and the digests of the tree above them.
pub struct ProverData<T, D> {
    pub leaves: Vec<Matrix<T>>,
    pub max_height: usize,
    pub digests: D,
}

/// Prover data whose leaf matrices can be taken out and put back, so that they need not be held
/// between two phases.
pub trait LeafManageable<T>: Sized {
    spec fn leaves_spec(&self) -> Vec<Matrix<T>>;

    spec fn max_height_spec(&self) -> usize;

    /// Everything but the leaves.
    spec fn same_tree(&self, other: &Self) -> bool;

    fn take_leaves_rm(&mut self) -> (r: Vec<Matrix<T>>)
        ensures
            r == old(self).leaves_spec(),
            final(self).leaves_spec()@.len() == 0,
            final(self).same_tree(old(self)),
            final(self).max_height_spec() == old(self).max_height_spec(),
    ;

    fn restore_leaves_rm(&mut self, leaves: Vec<Matrix<T>>)
        ensures
            final(self).leaves_spec() == leaves,
            final(self).same_tree(old(self)),
            final(self).max_height_spec() == old(self).max_height_spec(),
    ;

    fn has_leaves_rm(&self) -> (r: bool)
        ensures
            r == (self.leaves_spec()@.len() > 0),
    ;

    fn max_height_rm(&self) -> (r: usize)
        ensures
            r == self.max_height_spec(),
    ;
}

impl<T, D> LeafManageable<T> for ProverData<T, D> {
    open spec fn leaves_spec(&self) -> Vec<Matrix<T>> {
        self.leaves
    }

    open spec fn max_height_spec(&self) -> usize {
        self.max_height
    }

    open spec fn same_tree(&self, other: &Self) -> bool {
        self.max_height == other.max_height && self.digests == other.digests
    }

    fn take_leaves_rm(&mut self) -> (r: Vec<Matrix<T>>) {
        let mut taken: Vec<Matrix<T>> = Vec::new();
        std::mem::swap(&mut taken, &mut self.leaves);
        taken
    }

    fn restore_leaves_rm(&mut self, leaves: Vec<Matrix<T>>) {
        self.leaves = leaves;
    }

    fn has_leaves_rm(&self) -> (r: bool) {
        self.leaves.len() > 0
    }

    fn max_height_rm(&self) -> (r: usize) {
        self.max_height
    }
}

} // verus!
