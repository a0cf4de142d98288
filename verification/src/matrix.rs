//! Matrices in row-major order.

use vstd::prelude::*;
use vstd::arithmetic::div_mod::*;
use vstd::arithmetic::mul::*;

verus! {

/// A matrix whose rows are stored one after the other.
#[derive(Debug)]
pub struct Matrix<T> {
    pub values: Vec<T>,
    pub width: usize,
}

/// The size of a matrix.
#[derive(Clone, Copy, PartialEq, Eq, Structural, Debug)]
pub struct Dimensions {
    pub width: usize,
    pub height: usize,
}

impl<T> Matrix<T> {
    /// Every row is complete.
    pub open spec fn well_formed(&self) -> bool {
        self.width > 0 && self.values@.len() % (self.width as nat) == 0
    }

    pub open spec fn rows(&self) -> nat {
        self.values@.len() / (self.width as nat)
    }

    /// The entry of row `i` and column `j`.
    pub open spec fn at(&self, i: int, j: int) -> T {
        self.values@[i * self.width + j]
    }

    /// Row `i`.
    pub open spec fn row(&self, i: int) -> Seq<T> {
        Seq::new(self.width as nat, |j: int| self.at(i, j))
    }

    pub proof fn lemma_index(&self, i: int, j: int)
        requires
            self.width > 0,
            0 <= i < self.rows(),
            0 <= j < self.width,
        ensures
            0 <= i * self.width + j < self.values@.len(),
            0 <= i * self.width,
    {
        let w = self.width as int;
        let n = self.values@.len() as int;
        lemma_fundamental_div_mod(n, w);
        assert(0 <= i * w && i * w + w <= (n / w) * w) by (nonlinear_arith)
            requires
                0 <= i < n / w,
                w > 0,
        ;
        lemma_mul_is_commutative(n / w, w);
    }

    /// The number of rows.
    pub fn height(&self) -> (r: usize)
        requires
            self.width > 0,
        ensures
            r == self.rows(),
    {
        self.values.len() / self.width
    }
}

impl<T: Copy> Matrix<T> {
    /// The entry of row `i` and column `j`.
    pub fn get(&self, i: usize, j: usize) -> (r: T)
        requires
            self.width > 0,
            i < self.rows(),
            j < self.width,
        ensures
            r == self.at(i as int, j as int),
    {
        proof {
            self.lemma_index(i as int, j as int);
        }
        let n: usize = self.values.len();
        assert(i * self.width + j < n);
        self.values[i * self.width + j]
    }
}

} // verus!
