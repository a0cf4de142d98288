//! Commutative rings with the operations that the prover's algorithms need.
//!
//! A value may be held in more than one representation: `a + 0` is the reduced
//! representative of `a`, and the result of every operation is reduced.

use vstd::prelude::*;

verus! {

/// A commutative ring and its laws.
pub trait Ring: Sized + Copy {
    spec fn zero_spec() -> Self;

    spec fn one_spec() -> Self;

    spec fn plus(self, other: Self) -> Self;

    spec fn times(self, other: Self) -> Self;

    spec fn negated(self) -> Self;

    proof fn law_add_comm(a: Self, b: Self)
        ensures
            a.plus(b) == b.plus(a),
    ;

    proof fn law_add_assoc(a: Self, b: Self, c: Self)
        ensures
            a.plus(b).plus(c) == a.plus(b.plus(c)),
    ;

    proof fn law_add_reduced(a: Self, b: Self)
        ensures
            a.plus(b).plus(Self::zero_spec()) == a.plus(b),
    ;

    proof fn law_neg(a: Self)
        ensures
            a.plus(a.negated()) == Self::zero_spec(),
            a.negated().plus(Self::zero_spec()) == a.negated(),
    ;

    proof fn law_mul_comm(a: Self, b: Self)
        ensures
            a.times(b) == b.times(a),
    ;

    proof fn law_mul_assoc(a: Self, b: Self, c: Self)
        ensures
            a.times(b).times(c) == a.times(b.times(c)),
    ;

    proof fn law_mul_reduced(a: Self, b: Self)
        ensures
            a.times(b).plus(Self::zero_spec()) == a.times(b),
    ;

    proof fn law_mul_one(a: Self)
        ensures
            a.times(Self::one_spec()) == a.plus(Self::zero_spec()),
    ;

    proof fn law_distrib(a: Self, b: Self, c: Self)
        ensures
            a.times(b.plus(c)) == a.times(b).plus(a.times(c)),
    ;

    proof fn law_constants()
        ensures
            Self::zero_spec().plus(Self::zero_spec()) == Self::zero_spec(),
            Self::one_spec().plus(Self::zero_spec()) == Self::one_spec(),
            Self::one_spec() != Self::zero_spec(),
    ;
}

/// `a - b`.
pub open spec fn minus<F: Ring>(a: F, b: F) -> F {
    a.plus(b.negated())
}

/// The reduced representative of `a`.
pub open spec fn reduced<F: Ring>(a: F) -> F {
    a.plus(F::zero_spec())
}

/// Whether `d` has an inverse.
pub open spec fn invertible<F: Ring>(d: F) -> bool {
    exists|r: F| d.times(r) == F::one_spec()
}

/// The inverse of an invertible element.
pub open spec fn inv<F: Ring>(d: F) -> F {
    reduced(choose|r: F| d.times(r) == F::one_spec())
}

/// The sum `f(0) + f(1) + .. + f(n - 1)`.
pub open spec fn sum<F: Ring>(n: nat, f: spec_fn(int) -> F) -> F
    decreases n,
{
    if n == 0 {
        F::zero_spec()
    } else {
        sum((n - 1) as nat, f).plus(f(n - 1))
    }
}

/// `x` to the power `n`.
pub open spec fn pow<F: Ring>(x: F, n: nat) -> F
    decreases n,
{
    if n == 0 {
        F::one_spec()
    } else {
        pow(x, (n - 1) as nat).times(x)
    }
}

/// The value at `x` of the polynomial whose coefficients are `coeffs`, constant term first.
pub open spec fn poly<F: Ring>(coeffs: Seq<F>, x: F) -> F {
    sum(coeffs.len(), |i: int| coeffs[i].times(pow(x, i as nat)))
}

pub proof fn lemma_zero_left<F: Ring>(a: F)
    ensures
        F::zero_spec().plus(a) == reduced(a),
{
    F::law_add_comm(F::zero_spec(), a);
}

/// Reducing an operand does not change a sum.
pub proof fn lemma_add_reduced<F: Ring>(a: F, b: F)
    ensures
        reduced(a).plus(b) == a.plus(b),
        a.plus(reduced(b)) == a.plus(b),
        reduced(a.plus(b)) == a.plus(b),
{
    let z = F::zero_spec();
    F::law_add_assoc(a, z, b);
    F::law_add_comm(z, b);
    F::law_add_assoc(a, b, z);
    F::law_add_reduced(a, b);
}

pub proof fn lemma_add_left_comm<F: Ring>(a: F, b: F, c: F)
    ensures
        a.plus(b.plus(c)) == b.plus(a.plus(c)),
        a.plus(b).plus(c) == a.plus(c).plus(b),
{
    F::law_add_assoc(a, b, c);
    F::law_add_assoc(b, a, c);
    F::law_add_comm(a, b);
    F::law_add_assoc(a, c, b);
    F::law_add_comm(c, b);
}

/// `(a + b) + (c + d) = (a + c) + (b + d)`.
pub proof fn lemma_add_swap<F: Ring>(a: F, b: F, c: F, d: F)
    ensures
        a.plus(b).plus(c.plus(d)) == a.plus(c).plus(b.plus(d)),
{
    F::law_add_assoc(a, b, c.plus(d));
    lemma_add_left_comm(b, c, d);
    F::law_add_assoc(a, c, b.plus(d));
}

/// What is added on both sides can be taken away.
pub proof fn lemma_add_cancel<F: Ring>(a: F, b: F, c: F)
    requires
        a.plus(c) == b.plus(c),
    ensures
        reduced(a) == reduced(b),
{
    F::law_neg(c);
    F::law_add_assoc(a, c, c.negated());
    F::law_add_assoc(b, c, c.negated());
}

pub proof fn lemma_neg_unique<F: Ring>(a: F, b: F)
    requires
        a.plus(b) == F::zero_spec(),
    ensures
        reduced(b) == a.negated(),
{
    F::law_neg(a);
    F::law_add_comm(a, b);
    F::law_add_comm(a, a.negated());
    lemma_add_cancel(b, a.negated(), a);
}

pub proof fn lemma_mul_zero<F: Ring>(a: F)
    ensures
        a.times(F::zero_spec()) == F::zero_spec(),
        F::zero_spec().times(a) == F::zero_spec(),
{
    let z = F::zero_spec();
    F::law_constants();
    F::law_distrib(a, z, z);
    F::law_mul_comm(a, z);
    F::law_mul_reduced(a, z);
    lemma_zero_left(a.times(z));
    lemma_add_cancel(z, a.times(z), a.times(z));
}

/// Reducing an operand does not change a product.
pub proof fn lemma_mul_reduced<F: Ring>(a: F, b: F)
    ensures
        reduced(a).times(b) == a.times(b),
        a.times(reduced(b)) == a.times(b),
        reduced(a.times(b)) == a.times(b),
{
    let z = F::zero_spec();
    F::law_distrib(a, b, z);
    F::law_distrib(b, a, z);
    lemma_mul_zero(a);
    lemma_mul_zero(b);
    F::law_mul_comm(a, b);
    F::law_mul_comm(reduced(a), b);
    F::law_mul_reduced(a, b);
}

pub proof fn lemma_mul_one<F: Ring>(a: F)
    ensures
        a.times(F::one_spec()) == reduced(a),
        F::one_spec().times(a) == reduced(a),
{
    F::law_mul_one(a);
    F::law_mul_comm(a, F::one_spec());
}

pub proof fn lemma_distrib_right<F: Ring>(a: F, b: F, c: F)
    ensures
        a.plus(b).times(c) == a.times(c).plus(b.times(c)),
{
    F::law_distrib(c, a, b);
    F::law_mul_comm(c, a);
    F::law_mul_comm(c, b);
    F::law_mul_comm(c, a.plus(b));
}

pub proof fn lemma_mul_left_comm<F: Ring>(a: F, b: F, c: F)
    ensures
        a.times(b.times(c)) == b.times(a.times(c)),
        a.times(b).times(c) == a.times(c).times(b),
{
    F::law_mul_assoc(a, b, c);
    F::law_mul_assoc(b, a, c);
    F::law_mul_comm(a, b);
    F::law_mul_assoc(a, c, b);
    F::law_mul_comm(c, b);
}

/// `(a b) (c d) = (a c) (b d)`.
pub proof fn lemma_mul_swap<F: Ring>(a: F, b: F, c: F, d: F)
    ensures
        a.times(b).times(c.times(d)) == a.times(c).times(b.times(d)),
{
    F::law_mul_assoc(a, b, c.times(d));
    lemma_mul_left_comm(b, c, d);
    F::law_mul_assoc(a, c, b.times(d));
}

pub proof fn lemma_mul_neg<F: Ring>(a: F, b: F)
    ensures
        a.times(b.negated()) == a.times(b).negated(),
        b.negated().times(a) == b.times(a).negated(),
{
    F::law_distrib(a, b, b.negated());
    F::law_neg(b);
    lemma_mul_zero(a);
    lemma_neg_unique(a.times(b), a.times(b.negated()));
    F::law_mul_reduced(a, b.negated());
    F::law_mul_comm(a, b);
    F::law_mul_comm(a, b.negated());
}

pub proof fn lemma_neg_neg<F: Ring>(a: F)
    ensures
        a.negated().negated() == reduced(a),
{
    F::law_neg(a);
    F::law_add_comm(a, a.negated());
    lemma_neg_unique(a.negated(), a);
}

pub proof fn lemma_neg_reduced<F: Ring>(a: F)
    ensures
        reduced(a).negated() == a.negated(),
        reduced(a.negated()) == a.negated(),
{
    F::law_neg(a);
    lemma_add_reduced(a, a.negated());
    lemma_neg_unique(reduced(a), a.negated());
}

pub proof fn lemma_neg_add<F: Ring>(a: F, b: F)
    ensures
        a.plus(b).negated() == a.negated().plus(b.negated()),
{
    F::law_neg(a);
    F::law_neg(b);
    F::law_constants();
    lemma_add_swap(a, b, a.negated(), b.negated());
    lemma_neg_unique(a.plus(b), a.negated().plus(b.negated()));
    F::law_add_reduced(a.negated(), b.negated());
}

pub proof fn lemma_sub_self<F: Ring>(a: F)
    ensures
        minus(a, a) == F::zero_spec(),
{
    F::law_neg(a);
}

/// A difference is zero exactly when both sides are the same element.
pub proof fn lemma_sub_zero<F: Ring>(a: F, b: F)
    ensures
        minus(a, b) == F::zero_spec() <==> reduced(a) == reduced(b),
{
    F::law_neg(b);
    if minus(a, b) == F::zero_spec() {
        lemma_add_cancel(a, b, b.negated());
    }
    if reduced(a) == reduced(b) {
        lemma_add_reduced(a, b.negated());
        lemma_add_reduced(b, b.negated());
    }
}

/// `(a - b) + b` is `a`.
pub proof fn lemma_sub_add<F: Ring>(a: F, b: F)
    ensures
        minus(a, b).plus(b) == reduced(a),
        minus(a.plus(b), b) == reduced(a),
{
    F::law_neg(b);
    F::law_add_assoc(a, b.negated(), b);
    F::law_add_comm(b, b.negated());
    F::law_add_assoc(a, b, b.negated());
}

/// `a (b - c) = a b - a c`.
pub proof fn lemma_mul_sub<F: Ring>(a: F, b: F, c: F)
    ensures
        a.times(minus(b, c)) == minus(a.times(b), a.times(c)),
        minus(b, c).times(a) == minus(b.times(a), c.times(a)),
{
    F::law_distrib(a, b, c.negated());
    lemma_mul_neg(a, c);
    F::law_mul_comm(a, minus(b, c));
    F::law_mul_comm(a, b);
    F::law_mul_comm(a, c);
}

/// `(a + b) - (c + d) = (a - c) + (b - d)`.
pub proof fn lemma_sub_swap<F: Ring>(a: F, b: F, c: F, d: F)
    ensures
        minus(a.plus(b), c.plus(d)) == minus(a, c).plus(minus(b, d)),
{
    lemma_neg_add(c, d);
    lemma_add_swap(a, b, c.negated(), d.negated());
}

/// An element has at most one inverse.
pub proof fn lemma_inverse_unique<F: Ring>(d: F, r: F, s: F)
    requires
        d.times(r) == F::one_spec(),
        d.times(s) == F::one_spec(),
    ensures
        reduced(r) == reduced(s),
{
    F::law_mul_assoc(r, d, s);
    F::law_mul_comm(r, d);
    lemma_mul_one(r);
    lemma_mul_one(s);
}

/// Whatever multiplies with `d` to one is the inverse of `d`.
pub proof fn lemma_inv<F: Ring>(d: F, r: F)
    requires
        d.times(r) == F::one_spec(),
    ensures
        invertible(d),
        inv(d) == reduced(r),
        d.times(inv(d)) == F::one_spec(),
        reduced(d) != F::zero_spec(),
{
    let s = choose|s: F| d.times(s) == F::one_spec();
    lemma_inverse_unique(d, r, s);
    lemma_mul_reduced(d, s);
    F::law_constants();
    lemma_mul_reduced(d, r);
    lemma_mul_zero(r);
}

/// The inverse of a product is the product of the inverses.
pub proof fn lemma_inv_mul<F: Ring>(a: F, b: F, r: F, s: F)
    requires
        a.times(r) == F::one_spec(),
        b.times(s) == F::one_spec(),
    ensures
        a.times(b).times(r.times(s)) == F::one_spec(),
{
    lemma_mul_swap(a, b, r, s);
    lemma_mul_one(F::one_spec());
    F::law_constants();
}

pub proof fn lemma_pow_reduced<F: Ring>(x: F, n: nat)
    ensures
        reduced(pow(x, n)) == pow(x, n),
{
    if n == 0 {
        F::law_constants();
    } else {
        F::law_mul_reduced(pow(x, (n - 1) as nat), x);
    }
}

pub proof fn lemma_pow_one<F: Ring>(x: F)
    ensures
        pow(x, 1) == reduced(x),
{
    reveal_with_fuel(pow, 2);
    lemma_mul_one(x);
}

pub proof fn lemma_pow_add<F: Ring>(x: F, m: nat, n: nat)
    ensures
        pow(x, m + n) == pow(x, m).times(pow(x, n)),
    decreases n,
{
    if n == 0 {
        lemma_mul_one(pow(x, m));
        lemma_pow_reduced(x, m);
    } else {
        lemma_pow_add(x, m, (n - 1) as nat);
        assert((m + n - 1) as nat == m + (n - 1) as nat);
        F::law_mul_assoc(pow(x, m), pow(x, (n - 1) as nat), x);
    }
}

pub proof fn lemma_pow_base_one<F: Ring>(n: nat)
    ensures
        pow(F::one_spec(), n) == F::one_spec(),
    decreases n,
{
    if n > 0 {
        lemma_pow_base_one::<F>((n - 1) as nat);
        lemma_mul_one(F::one_spec());
        F::law_constants();
    }
}

pub proof fn lemma_pow_of_reduced<F: Ring>(x: F, n: nat)
    ensures
        pow(reduced(x), n) == pow(x, n),
    decreases n,
{
    if n > 0 {
        lemma_pow_of_reduced(x, (n - 1) as nat);
        lemma_mul_reduced(pow(x, (n - 1) as nat), x);
    }
}

pub proof fn lemma_pow_pow<F: Ring>(x: F, m: nat, n: nat)
    ensures
        pow(pow(x, m), n) == pow(x, m * n),
    decreases n,
{
    if n == 0 {
    } else {
        lemma_pow_pow(x, m, (n - 1) as nat);
        assert(m * (n - 1) as nat + m == m * n) by (nonlinear_arith)
            requires
                n > 0,
        ;
        lemma_pow_add(x, m * (n - 1) as nat, m);
    }
}

pub proof fn lemma_pow_mul<F: Ring>(x: F, y: F, n: nat)
    ensures
        pow(x.times(y), n) == pow(x, n).times(pow(y, n)),
    decreases n,
{
    if n == 0 {
        lemma_mul_one(F::one_spec());
        F::law_constants();
    } else {
        lemma_pow_mul(x, y, (n - 1) as nat);
        lemma_mul_swap(pow(x, (n - 1) as nat), pow(y, (n - 1) as nat), x, y);
    }
}

pub proof fn lemma_sum_reduced<F: Ring>(n: nat, f: spec_fn(int) -> F)
    ensures
        reduced(sum(n, f)) == sum(n, f),
{
    if n == 0 {
        F::law_constants();
    } else {
        lemma_add_reduced(sum((n - 1) as nat, f), f(n - 1));
    }
}

/// Sums of the same terms are the same.
pub proof fn lemma_sum_ext<F: Ring>(n: nat, f: spec_fn(int) -> F, g: spec_fn(int) -> F)
    requires
        forall|i: int| 0 <= i < n ==> #[trigger] f(i) == g(i),
    ensures
        sum(n, f) == sum(n, g),
    decreases n,
{
    if n > 0 {
        lemma_sum_ext((n - 1) as nat, f, g);
    }
}

pub proof fn lemma_sum_zero<F: Ring>(n: nat, f: spec_fn(int) -> F)
    requires
        forall|i: int| 0 <= i < n ==> #[trigger] f(i) == F::zero_spec(),
    ensures
        sum(n, f) == F::zero_spec(),
    decreases n,
{
    if n > 0 {
        lemma_sum_zero((n - 1) as nat, f);
        F::law_constants();
    }
}

pub proof fn lemma_sum_add<F: Ring>(n: nat, f: spec_fn(int) -> F, g: spec_fn(int) -> F)
    ensures
        sum(n, |i: int| f(i).plus(g(i))) == sum(n, f).plus(sum(n, g)),
    decreases n,
{
    if n == 0 {
        F::law_constants();
    } else {
        let m = (n - 1) as nat;
        lemma_sum_add(m, f, g);
        lemma_add_swap(sum(m, f), sum(m, g), f(n - 1), g(n - 1));
    }
}

pub proof fn lemma_sum_scale<F: Ring>(n: nat, c: F, f: spec_fn(int) -> F)
    ensures
        sum(n, |i: int| c.times(f(i))) == c.times(sum(n, f)),
    decreases n,
{
    if n == 0 {
        lemma_mul_zero(c);
    } else {
        let m = (n - 1) as nat;
        lemma_sum_scale(m, c, f);
        F::law_distrib(c, sum(m, f), f(n - 1));
    }
}

pub proof fn lemma_sum_neg<F: Ring>(n: nat, f: spec_fn(int) -> F)
    ensures
        sum(n, |i: int| f(i).negated()) == sum(n, f).negated(),
    decreases n,
{
    if n == 0 {
        F::law_constants();
        lemma_neg_unique(F::zero_spec(), F::zero_spec());
    } else {
        let m = (n - 1) as nat;
        lemma_sum_neg(m, f);
        lemma_neg_add(sum(m, f), f(n - 1));
    }
}

/// A sum splits into the sum of its first `m` terms and the sum of the rest.
pub proof fn lemma_sum_split<F: Ring>(m: nat, n: nat, f: spec_fn(int) -> F)
    ensures
        sum(m + n, f) == sum(m, f).plus(sum(n, |i: int| f(m + i))),
    decreases n,
{
    if n == 0 {
        lemma_sum_reduced(m, f);
    } else {
        lemma_sum_split(m, (n - 1) as nat, f);
        let g = |i: int| f(m + i);
        assert((m + n - 1) as nat == m + (n - 1) as nat);
        F::law_add_assoc(sum(m, f), sum((n - 1) as nat, g), f(m + n - 1));
    }
}

/// The order of two sums can be exchanged.
pub proof fn lemma_sum_swap<F: Ring>(m: nat, n: nat, f: spec_fn(int, int) -> F)
    ensures
        sum(m, |i: int| sum(n, |j: int| f(i, j))) == sum(n, |j: int| sum(m, |i: int| f(i, j))),
    decreases m,
{
    let inner = |i: int| sum(n, |j: int| f(i, j));
    let outer = |j: int| sum(m, |i: int| f(i, j));
    if m == 0 {
        lemma_sum_zero(n, outer);
    } else {
        let k = (m - 1) as nat;
        lemma_sum_swap(k, n, f);
        let part = |j: int| sum(k, |i: int| f(i, j));
        let last = |j: int| f(m - 1, j);
        lemma_sum_add(n, part, last);
        lemma_sum_ext(n, outer, |j: int| part(j).plus(last(j)));
        assert(inner(m - 1) == sum(n, last)) by {
            lemma_sum_ext(n, |j: int| f(m - 1, j), last);
        }
    }
}

/// A sum with a single term that is not zero.
pub proof fn lemma_sum_single<F: Ring>(n: nat, k: int, f: spec_fn(int) -> F)
    requires
        0 <= k < n,
        forall|i: int| 0 <= i < n && i != k ==> #[trigger] f(i) == F::zero_spec(),
    ensures
        sum(n, f) == reduced(f(k)),
    decreases n,
{
    let m = (n - 1) as nat;
    if k == m {
        lemma_sum_zero(m, f);
        lemma_zero_left(f(k));
    } else {
        lemma_sum_single(m, k, f);
        lemma_add_reduced(f(k), F::zero_spec());
    }
}

} // verus!
