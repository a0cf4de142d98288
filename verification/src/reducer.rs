//! Random linear combinations of the entries of a row.

use vstd::prelude::*;
use crate::babybear::Felt;
use crate::ext;
use crate::ext::Ext;
use crate::field::Field;
use crate::ring;
use crate::ring::Ring;

verus! {

/// The smaller of two numbers.
pub open spec fn shorter(a: nat, b: nat) -> nat {
    if a <= b {
        a
    } else {
        b
    }
}

/// Combines the entries of a row with the powers of a base.
pub struct PowersReducer {
    pub powers: Vec<Ext>,
    /// For each coordinate, that of all powers.
    pub transposed_packed: Vec<Vec<Felt>>,
}

/// `v[d][i]` becomes `r[i][d]`; the rows of `v` have the length of the first.
pub fn transpose_vec<T: Copy>(v: Vec<Vec<T>>) -> (r: Vec<Vec<T>>)
    requires
        v@.len() > 0,
        forall|d: int| 0 <= d < v@.len() ==> (#[trigger] v@[d])@.len() >= v@[0]@.len(),
    ensures
        r@.len() == v@[0]@.len(),
        forall|i: int| 0 <= i < r@.len() ==> (#[trigger] r@[i])@.len() == v@.len(),
        forall|i: int, d: int|
            0 <= i < r@.len() && 0 <= d < v@.len() ==> #[trigger] r@[i]@[d] == v@[d]@[i],
{
    let len: usize = v[0].len();
    let mut r: Vec<Vec<T>> = Vec::new();
    let mut i: usize = 0;
    while i < len
        invariant
            i <= len,
            v@.len() > 0,
            len == v@[0]@.len(),
            forall|d: int| 0 <= d < v@.len() ==> (#[trigger] v@[d])@.len() >= len,
            r@.len() == i,
            forall|k: int| 0 <= k < i ==> (#[trigger] r@[k])@.len() == v@.len(),
            forall|k: int, d: int|
                0 <= k < i && 0 <= d < v@.len() ==> #[trigger] r@[k]@[d] == v@[d]@[k],
        decreases len - i,
    {
        let mut row: Vec<T> = Vec::new();
        let mut d: usize = 0;
        while d < v.len()
            invariant
                i < len,
                d <= v@.len(),
                forall|d: int| 0 <= d < v@.len() ==> (#[trigger] v@[d])@.len() >= len,
                row@.len() == d,
                forall|e: int| 0 <= e < d ==> #[trigger] row@[e] == v@[e]@[i as int],
            decreases v@.len() - d,
        {
            row.push(v[d][i]);
            d = d + 1;
        }
        r.push(row);
        i = i + 1;
    }
    r
}

/// Coordinate `d` of an extension element.
pub open spec fn coordinate(a: Ext, d: int) -> Felt {
    if d == 0 {
        a.c0
    } else if d == 1 {
        a.c1
    } else if d == 2 {
        a.c2
    } else {
        a.c3
    }
}

/// Multiplying with a BabyBear element multiplies each coordinate.
pub proof fn lemma_scalar(a: Ext, x: Felt)
    ensures
        a.times(ext::embed(x)) == (Ext {
            c0: a.c0.times(x),
            c1: a.c1.times(x),
            c2: a.c2.times(x),
            c3: a.c3.times(x),
        }),
{
    let n = x.value as int;
    assert(a.c0.value * 0 == 0 && a.c1.value * 0 == 0 && a.c2.value * 0 == 0 && a.c3.value * 0 == 0);
}

impl PowersReducer {
    /// The coordinates are those of the powers.
    pub open spec fn well_formed(&self) -> bool {
        &&& self.transposed_packed@.len() == 4
        &&& forall|d: int|
            0 <= d < 4 ==> (#[trigger] self.transposed_packed@[d])@.len() == self.powers@.len()
        &&& forall|d: int, i: int|
            0 <= d < 4 && 0 <= i < self.powers@.len() ==> #[trigger] self.transposed_packed@[d]@[i]
                == coordinate(self.powers@[i], d)
    }

    /// The powers `base^0, .., base^(max_width - 1)`.
    pub fn new(base: Ext, max_width: usize) -> (r: Self)
        ensures
            r.well_formed(),
            r.powers@ == Seq::new(max_width as nat, |i: int| ring::pow(base, i as nat)),
    {
        let mut powers: Vec<Ext> = Vec::new();
        let mut power: Ext = Ext::one();
        let mut i: usize = 0;
        while i < max_width
            invariant
                i <= max_width,
                powers@.len() == i,
                power == ring::pow(base, i as nat),
                forall|k: int| 0 <= k < i ==> #[trigger] powers@[k] == ring::pow(base, k as nat),
            decreases max_width - i,
        {
            powers.push(power);
            power = power.mul(base);
            i = i + 1;
        }
        let mut rows: Vec<Vec<Felt>> = Vec::new();
        let mut k: usize = 0;
        while k < max_width
            invariant
                k <= max_width,
                powers@.len() == max_width,
                rows@.len() == k,
                forall|m: int| 0 <= m < k ==> (#[trigger] rows@[m])@.len() == 4,
                forall|m: int, d: int|
                    0 <= m < k && 0 <= d < 4 ==> #[trigger] rows@[m]@[d] == coordinate(
                        powers@[m],
                        d,
                    ),
            decreases max_width - k,
        {
            let p: Ext = powers[k];
            rows.push(vec![p.c0, p.c1, p.c2, p.c3]);
            k = k + 1;
        }
        let transposed_packed: Vec<Vec<Felt>> = if max_width == 0 {
            vec![Vec::new(), Vec::new(), Vec::new(), Vec::new()]
        } else {
            transpose_vec(rows)
        };
        let r = PowersReducer { powers, transposed_packed };
        assert(r.powers@ =~= Seq::new(max_width as nat, |i: int| ring::pow(base, i as nat)));
        r
    }

    /// `sum_i base^i x_i`, over as many entries as there are powers.
    pub fn reduce_ext(&self, xs: &[Ext]) -> (r: Ext)
        ensures
            r == ring::sum(
                shorter(self.powers@.len(), xs@.len()),
                |i: int| self.powers@[i].times(xs@[i]),
            ),
    {
        let mut total: Ext = Ext::zero();
        let ghost f = |i: int| self.powers@[i].times(xs@[i]);
        let mut i: usize = 0;
        while i < self.powers.len() && i < xs.len()
            invariant
                i <= self.powers@.len(),
                i <= xs@.len(),
                f == (|i: int| self.powers@[i].times(xs@[i])),
                total == ring::sum(i as nat, f),
            decreases self.powers@.len() - i,
        {
            total = total.add(self.powers[i].mul(xs[i]));
            i = i + 1;
        }
        total
    }

    /// `sum_i base^i x_i` for entries of BabyBear, coordinate by coordinate.
    pub fn reduce_base(&self, xs: &[Felt]) -> (r: Ext)
        requires
            self.well_formed(),
        ensures
            r == ring::sum(
                shorter(self.powers@.len(), xs@.len()),
                |i: int| self.powers@[i].times(ext::embed(xs@[i])),
            ),
    {
        let ghost f = |i: int| self.powers@[i].times(ext::embed(xs@[i]));
        let mut c0: Felt = Felt::zero();
        let mut c1: Felt = Felt::zero();
        let mut c2: Felt = Felt::zero();
        let mut c3: Felt = Felt::zero();
        let mut i: usize = 0;
        while i < self.powers.len() && i < xs.len()
            invariant
                self.well_formed(),
                i <= self.powers@.len(),
                i <= xs@.len(),
                f == (|i: int| self.powers@[i].times(ext::embed(xs@[i]))),
                (Ext { c0, c1, c2, c3 }) == ring::sum(i as nat, f),
            decreases self.powers@.len() - i,
        {
            let x: Felt = xs[i];
            proof {
                lemma_scalar(self.powers@[i as int], x);
                Felt::law_mul_comm(self.powers@[i as int].c0, x);
                Felt::law_mul_comm(self.powers@[i as int].c1, x);
                Felt::law_mul_comm(self.powers@[i as int].c2, x);
                Felt::law_mul_comm(self.powers@[i as int].c3, x);
                assert(self.transposed_packed@[0]@[i as int] == self.powers@[i as int].c0);
                assert(self.transposed_packed@[1]@[i as int] == self.powers@[i as int].c1);
                assert(self.transposed_packed@[2]@[i as int] == self.powers@[i as int].c2);
                assert(self.transposed_packed@[3]@[i as int] == self.powers@[i as int].c3);
            }
            c0 = c0.add(x.mul(self.transposed_packed[0][i]));
            c1 = c1.add(x.mul(self.transposed_packed[1][i]));
            c2 = c2.add(x.mul(self.transposed_packed[2][i]));
            c3 = c3.add(x.mul(self.transposed_packed[3][i]));
            i = i + 1;
        }
        Ext { c0, c1, c2, c3 }
    }
}

} // verus!
