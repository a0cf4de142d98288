//! Evaluation of a polynomial from its values on a coset of roots of unity.

use vstd::prelude::*;
use vstd::arithmetic::power2::*;
use vstd::arithmetic::mul::*;
use vstd::arithmetic::div_mod::*;
use crate::domain;
use crate::domain::TwoAdic;
use crate::fold;
use crate::ring;

verus! {

/// The number `n` as a ring element: a sum of `n` ones.
pub open spec fn count<F: TwoAdic>(n: nat) -> F {
    ring::sum(n, |i: int| F::one_spec())
}

/// `1 + w + .. + w^(n - 1)`.
pub open spec fn geometric<F: TwoAdic>(w: F, n: nat) -> F {
    ring::sum(n, |i: int| ring::pow(w, i as nat))
}

/// A geometric sum of even length is `1 + w` times one of half the length in `w^2`.
proof fn lemma_geometric_halves<F: TwoAdic>(w: F, n: nat)
    ensures
        geometric(w, 2 * n) == F::one_spec().plus(w).times(geometric(w.times(w), n)),
{
    let ones = Seq::new(2 * n, |i: int| F::one_spec());
    let half_ones = Seq::new(n, |i: int| F::one_spec());
    assert(fold::even_part(ones) =~= half_ones);
    assert(fold::odd_part(ones) =~= half_ones);
    fold::lemma_even_odd(ones, w);
    lemma_geometric_poly(w, 2 * n);
    lemma_geometric_poly(w.times(w), n);
    let s = geometric(w.times(w), n);
    ring::lemma_distrib_right(F::one_spec(), w, s);
    ring::lemma_mul_one(s);
    ring::lemma_sum_reduced(n, |i: int| ring::pow(w.times(w), i as nat));
}

proof fn lemma_geometric_poly<F: TwoAdic>(w: F, n: nat)
    ensures
        geometric(w, n) == ring::poly(Seq::new(n, |i: int| F::one_spec()), w),
{
    let ones = Seq::new(n, |i: int| F::one_spec());
    let f = |i: int| ring::pow(w, i as nat);
    let g = |i: int| ones[i].times(ring::pow(w, i as nat));
    assert forall|i: int| 0 <= i < n implies #[trigger] f(i) == g(i) by {
        ring::lemma_mul_one(ring::pow(w, i as nat));
        ring::lemma_pow_reduced(w, i as nat);
    }
    ring::lemma_sum_ext(n, f, g);
}

/// The powers of a root of unity that is not one sum to zero.
pub proof fn lemma_orthogonal<F: TwoAdic>(log_n: nat, e: nat)
    requires
        log_n <= F::two_adicity(),
        e % pow2(log_n) != 0,
    ensures
        geometric(ring::pow(F::root(log_n), e), pow2(log_n)) == F::zero_spec(),
    decreases log_n,
{
    lemma2_to64();
    if log_n == 0 {
        assert(e % 1 == 0);
    } else {
        let b = (log_n - 1) as nat;
        let h = pow2(b);
        lemma_pow2_unfold(log_n);
        lemma_pow2_pos(b);
        let g = F::root(log_n);
        let w = ring::pow(g, e);
        lemma_geometric_halves(w, h);
        let inner = geometric(w.times(w), h);
        if e % h != 0 {
            ring::lemma_pow_mul(g, g, e);
            F::law_root_square(log_n);
            lemma_orthogonal::<F>(b, e);
            ring::lemma_mul_zero(F::one_spec().plus(w));
        } else {
            // e is an odd multiple of h, so w = -1
            let q = e / h;
            lemma_fundamental_div_mod(e as int, h as int);
            assert(e == h * q);
            assert(q % 2 == 1) by {
                if q % 2 == 0 {
                    let r = q / 2;
                    assert(e == (2 * h) * r + 0) by (nonlinear_arith)
                        requires
                            e == h * q,
                            q == 2 * r,
                    ;
                    lemma_fundamental_div_mod_converse(e as int, pow2(log_n) as int, r as int, 0);
                }
            }
            domain::lemma_root_order::<F>(log_n);
            ring::lemma_pow_pow(g, h, q);
            let m = F::one_spec().negated();
            lemma_minus_one_odd::<F>(q);
            F::law_neg(F::one_spec());
            ring::lemma_mul_zero(inner);
        }
    }
}

pub proof fn lemma_minus_one_odd<F: TwoAdic>(q: nat)
    requires
        q % 2 == 1,
    ensures
        ring::pow(F::one_spec().negated(), q) == F::one_spec().negated(),
    decreases q,
{
    let m = F::one_spec().negated();
    F::law_constants();
    ring::lemma_pow_one(m);
    ring::lemma_neg_reduced(F::one_spec());
    if q > 1 {
        lemma_minus_one_odd::<F>((q - 2) as nat);
        reveal_with_fuel(ring::pow, 3);
        // m m m = m
        ring::lemma_mul_neg(m, F::one_spec());
        ring::lemma_mul_one(m);
        ring::lemma_neg_neg(F::one_spec());
        ring::lemma_mul_one(m);
    }
}

/// A root of order `2^log_n` to a multiple of the order is one.
proof fn lemma_full_turns<F: TwoAdic>(log_n: nat, e: nat)
    requires
        log_n <= F::two_adicity(),
        e % pow2(log_n) == 0,
    ensures
        ring::pow(F::root(log_n), e) == F::one_spec(),
        geometric(ring::pow(F::root(log_n), e), pow2(log_n)) == count::<F>(pow2(log_n)),
{
    let h = pow2(log_n);
    lemma_pow2_pos(log_n);
    let q = e / h;
    lemma_fundamental_div_mod(e as int, h as int);
    domain::lemma_root_order::<F>(log_n);
    ring::lemma_pow_pow(F::root(log_n), h, q);
    ring::lemma_pow_base_one::<F>(q);
    let f = |i: int| ring::pow(F::one_spec(), i as nat);
    let one = |i: int| F::one_spec();
    assert forall|i: int| 0 <= i < h implies #[trigger] f(i) == one(i) by {
        ring::lemma_pow_base_one::<F>(i as nat);
    }
    ring::lemma_sum_ext(h, f, one);
}

/// `z^n - x^n = (z - x) (x^(n-1) + z x^(n-2) + .. + z^(n-1))`.
proof fn lemma_difference_of_powers<F: TwoAdic>(z: F, x: F, n: nat)
    ensures
        ring::minus(ring::pow(z, n), ring::pow(x, n)) == ring::minus(z, x).times(
            ring::sum(n, |m: int| ring::pow(z, m as nat).times(ring::pow(x, (n - 1 - m) as nat))),
        ),
    decreases n,
{
    let one = F::one_spec();
    let term = |n: nat, m: int| ring::pow(z, m as nat).times(ring::pow(x, (n - 1 - m) as nat));
    let d = ring::minus(z, x);
    if n == 0 {
        ring::lemma_sub_self(one);
        ring::lemma_mul_zero(d);
    } else {
        let k = (n - 1) as nat;
        lemma_difference_of_powers(z, x, k);
        let f = |m: int| ring::pow(z, m as nat).times(ring::pow(x, (k - 1 - m) as nat));
        let g = |m: int| ring::pow(z, m as nat).times(ring::pow(x, (n - 1 - m) as nat));
        let sk = ring::sum(k, f);
        // the first k terms carry one more factor x
        let scaled = |m: int| x.times(f(m));
        assert forall|m: int| 0 <= m < k implies #[trigger] scaled(m) == g(m) by {
            let p = ring::pow(x, (k - 1 - m) as nat);
            assert(ring::pow(x, (n - 1 - m) as nat) == p.times(x));
            ring::lemma_mul_left_comm(x, ring::pow(z, m as nat), p);
            F::law_mul_comm(x, p);
        }
        ring::lemma_sum_ext(k, scaled, g);
        ring::lemma_sum_scale(k, x, f);
        let zk = ring::pow(z, k);
        let xk = ring::pow(x, k);
        ring::lemma_mul_one(zk);
        ring::lemma_pow_reduced(z, k);
        assert(g(k as int) == zk);
        assert(ring::sum(n, g) == x.times(sk).plus(zk));
        // d (x sk + z^k) = x (z^k - x^k) + (z - x) z^k = z^(k+1) - x^(k+1)
        F::law_distrib(d, x.times(sk), zk);
        ring::lemma_mul_left_comm(d, x, sk);
        ring::lemma_mul_sub(x, zk, xk);
        ring::lemma_mul_sub(zk, z, x);
        let a = x.times(zk);
        let b = x.times(xk);
        let c = z.times(zk);
        F::law_mul_comm(zk, x);
        F::law_mul_comm(zk, z);
        F::law_mul_comm(xk, x);
        // (a - b) + (c - a) = c - b
        F::law_add_comm(ring::minus(a, b), ring::minus(c, a));
        ring::lemma_add_swap(c, a.negated(), a, b.negated());
        F::law_add_assoc(c, a.negated(), ring::minus(a, b));
        F::law_add_assoc(a.negated(), a, b.negated());
        F::law_add_comm(a, a.negated());
        F::law_neg(a);
        ring::lemma_zero_left(b.negated());
        F::law_neg(b);
    }
}

/// The coset point with index `i`.
pub open spec fn coset_point<F: TwoAdic>(shift: F, log_n: nat, i: nat) -> F {
    ring::pow(F::root(log_n), i).times(shift)
}

/// The weighted sum of the values of `x^k` over a coset.
proof fn lemma_monomial<F: TwoAdic>(log_n: nat, shift: F, z: F, inverses: Seq<F>, k: nat)
    requires
        log_n <= F::two_adicity(),
        k < pow2(log_n),
        inverses.len() == pow2(log_n),
        forall|i: int|
            0 <= i < inverses.len() ==> #[trigger] inverses[i].times(
                ring::minus(z, coset_point(shift, log_n, i as nat)),
            ) == F::one_spec(),
    ensures
        ring::minus(ring::pow(z, pow2(log_n)), ring::pow(shift, pow2(log_n))).times(
            ring::sum(
                pow2(log_n),
                |i: int|
                    inverses[i].times(ring::pow(F::root(log_n), i as nat)).times(
                        ring::pow(coset_point(shift, log_n, i as nat), k),
                    ),
            ),
        ) == count::<F>(pow2(log_n)).times(ring::pow(shift, (pow2(log_n) - 1) as nat)).times(
            ring::pow(z, k),
        ),
{
    let n = pow2(log_n);
    let g = F::root(log_n);
    let zer = ring::minus(ring::pow(z, n), ring::pow(shift, n));
    let x = |i: int| coset_point(shift, log_n, i as nat);
    let f = |i: int| inverses[i].times(ring::pow(g, i as nat)).times(ring::pow(x(i), k));
    let tz = |m: int| ring::pow(z, m as nat);
    // the term of the double sum over points i and powers m of z
    let cell = |i: int, m: int| tz(m).times(
        ring::pow(shift, (k + (n - 1 - m)) as nat).times(
            ring::pow(ring::pow(g, (n + k - m) as nat), i as nat),
        ),
    );
    let scaled = |i: int| zer.times(f(i));
    let rows = |i: int| ring::sum(n, |m: int| cell(i, m));
    assert forall|i: int| 0 <= i < n implies #[trigger] scaled(i) == rows(i) by {
        lemma_monomial_row(log_n, shift, z, inverses[i], k, i as nat);
        let inner = |m: int| cell(i, m);
        let other = |m: int|
            ring::pow(z, m as nat).times(
                ring::pow(shift, (k + (n - 1 - m)) as nat).times(
                    ring::pow(ring::pow(g, (n + k - m) as nat), i as nat),
                ),
            );
        ring::lemma_sum_ext(n, inner, other);
    }
    ring::lemma_sum_scale(n, zer, f);
    ring::lemma_sum_ext(n, scaled, rows);
    ring::lemma_sum_swap(n, n, cell);
    let cols = |m: int| ring::sum(n, |i: int| cell(i, m));
    lemma_pow2_pos(log_n);
    let target = count::<F>(n).times(ring::pow(shift, (n - 1) as nat)).times(ring::pow(z, k));
    assert forall|m: int| 0 <= m < n implies (m != k ==> #[trigger] cols(m) == F::zero_spec()) && (m
        == k ==> cols(m) == target) by {
        let e = (n + k - m) as nat;
        let w = ring::pow(g, e);
        let c = ring::pow(shift, (k + (n - 1 - m)) as nat);
        let powers = |i: int| ring::pow(w, i as nat);
        let inner = |i: int| c.times(powers(i));
        ring::lemma_sum_scale(n, c, powers);
        ring::lemma_sum_scale(n, tz(m), inner);
        let outer = |i: int| tz(m).times(inner(i));
        let column = |i: int| cell(i, m);
        ring::lemma_sum_ext(n, column, outer);
        let geo = geometric(w, n);
        assert(cols(m) == tz(m).times(c.times(geo)));
        if m == k {
            assert(e == n);
            lemma_mod_self_0(n as int);
            lemma_full_turns::<F>(log_n, e);
            F::law_mul_comm(c, geo);
            F::law_mul_comm(tz(m), geo.times(c));
        } else {
            assert(e % n != 0) by {
                if e < n {
                    lemma_small_mod(e, n);
                } else {
                    lemma_fundamental_div_mod_converse(e as int, n as int, 1, e - n);
                }
            }
            lemma_orthogonal::<F>(log_n, e);
            ring::lemma_mul_zero(c);
            ring::lemma_mul_zero(tz(m));
        }
    }
    ring::lemma_sum_single(n, k as int, cols);
    let statement = |i: int|
        inverses[i].times(ring::pow(F::root(log_n), i as nat)).times(
            ring::pow(coset_point(shift, log_n, i as nat), k),
        );
    ring::lemma_sum_ext(n, f, statement);
    ring::lemma_mul_reduced(
        count::<F>(n).times(ring::pow(shift, (n - 1) as nat)),
        ring::pow(z, k),
    );
}

/// One point's share of the weighted sum of `x^k`, as a sum over the powers of `z`.
proof fn lemma_monomial_row<F: TwoAdic>(log_n: nat, shift: F, z: F, inverse: F, k: nat, i: nat)
    requires
        log_n <= F::two_adicity(),
        k < pow2(log_n),
        inverse.times(ring::minus(z, coset_point(shift, log_n, i))) == F::one_spec(),
    ensures
        ring::minus(ring::pow(z, pow2(log_n)), ring::pow(shift, pow2(log_n))).times(
            inverse.times(ring::pow(F::root(log_n), i)).times(
                ring::pow(coset_point(shift, log_n, i), k),
            ),
        ) == ring::sum(
            pow2(log_n),
            |m: int|
                ring::pow(z, m as nat).times(
                    ring::pow(shift, (k + (pow2(log_n) - 1 - m)) as nat).times(
                        ring::pow(ring::pow(F::root(log_n), (pow2(log_n) + k - m) as nat), i),
                    ),
                ),
        ),
{
    let n = pow2(log_n);
    let g = F::root(log_n);
    let gi = ring::pow(g, i);
    let x = coset_point(shift, log_n, i);
    let one = F::one_spec();
    // x^n = shift^n
    assert(ring::pow(x, n) == ring::pow(shift, n)) by {
        ring::lemma_pow_mul(gi, shift, n);
        ring::lemma_pow_pow(g, i, n);
        lemma_mul_is_commutative(i as int, n as int);
        ring::lemma_pow_pow(g, n, i);
        domain::lemma_root_order::<F>(log_n);
        ring::lemma_pow_base_one::<F>(i);
        ring::lemma_mul_one(ring::pow(shift, n));
        ring::lemma_pow_reduced(shift, n);
    }
    let zer = ring::minus(ring::pow(z, n), ring::pow(shift, n));
    let d = ring::minus(z, x);
    let q = |m: int| ring::pow(z, m as nat).times(ring::pow(x, (n - 1 - m) as nat));
    lemma_difference_of_powers(z, x, n);
    let total = ring::sum(n, q);
    let xk = ring::pow(x, k);
    // zer (inverse gi xk) = (inverse d) total gi xk = gi xk total
    assert(zer.times(inverse.times(gi).times(xk)) == gi.times(xk).times(total)) by {
        F::law_mul_assoc(inverse, gi, xk);
        let r = gi.times(xk);
        ring::lemma_mul_swap(d, total, inverse, r);
        F::law_mul_comm(d, inverse);
        F::law_mul_comm(total, r);
        ring::lemma_mul_one(r.times(total));
        ring::lemma_mul_reduced(r, total);
    }
    ring::lemma_sum_scale(n, gi.times(xk), q);
    let scaled = |m: int| gi.times(xk).times(q(m));
    let goal = |m: int|
        ring::pow(z, m as nat).times(
            ring::pow(shift, (k + (n - 1 - m)) as nat).times(
                ring::pow(ring::pow(g, (n + k - m) as nat), i),
            ),
        );
    assert forall|m: int| 0 <= m < n implies #[trigger] scaled(m) == goal(m) by {
        let a = (n - 1 - m) as nat;
        let zm = ring::pow(z, m as nat);
        let xa = ring::pow(x, a);
        // gi xk (zm xa) = zm (gi x^(k + a))
        ring::lemma_mul_left_comm(gi.times(xk), zm, xa);
        F::law_mul_assoc(gi, xk, xa);
        ring::lemma_pow_add(x, k, a);
        let e = k + a;
        // x^e = gi^e shift^e and gi^(e + 1) = (g^(e + 1))^i
        ring::lemma_pow_mul(gi, shift, e);
        ring::lemma_pow_add(gi, 1, e);
        ring::lemma_pow_one(gi);
        ring::lemma_pow_reduced(g, i);
        ring::lemma_pow_pow(g, i, e + 1);
        lemma_mul_is_commutative(i as int, (e + 1) as int);
        ring::lemma_pow_pow(g, e + 1, i);
        assert((n + k - m) as nat == e + 1);
        assert((k + (n - 1 - m)) as nat == e);
        let gie = ring::pow(gi, e);
        let se = ring::pow(shift, e);
        F::law_mul_assoc(gi, gie, se);
        F::law_mul_comm(gi.times(gie), se);
    }
    ring::lemma_sum_ext(n, scaled, goal);
}

/// Barycentric evaluation: the weighted sum of a polynomial's values over a coset, times the
/// vanishing polynomial of the coset at `z`, is the polynomial's value at `z`, up to the factor
/// `n shift^(n - 1)`.
pub proof fn law_barycentric<F: TwoAdic>(
    log_n: nat,
    shift: F,
    z: F,
    inverses: Seq<F>,
    coeffs: Seq<F>,
)
    requires
        log_n <= F::two_adicity(),
        coeffs.len() <= pow2(log_n),
        inverses.len() == pow2(log_n),
        forall|i: int|
            0 <= i < inverses.len() ==> #[trigger] inverses[i].times(
                ring::minus(z, coset_point(shift, log_n, i as nat)),
            ) == F::one_spec(),
    ensures
        ring::minus(ring::pow(z, pow2(log_n)), ring::pow(shift, pow2(log_n))).times(
            ring::sum(
                pow2(log_n),
                |i: int|
                    inverses[i].times(ring::pow(F::root(log_n), i as nat)).times(
                        ring::poly(coeffs, coset_point(shift, log_n, i as nat)),
                    ),
            ),
        ) == count::<F>(pow2(log_n)).times(ring::pow(shift, (pow2(log_n) - 1) as nat)).times(
            ring::poly(coeffs, z),
        ),
{
    let n = pow2(log_n);
    let zer = ring::minus(ring::pow(z, n), ring::pow(shift, n));
    let u = |i: int| inverses[i].times(ring::pow(F::root(log_n), i as nat));
    let x = |i: int| coset_point(shift, log_n, i as nat);
    let f = |i: int| u(i).times(ring::poly(coeffs, x(i)));
    let cell = |i: int, k: int| coeffs[k].times(u(i).times(ring::pow(x(i), k as nat)));
    let rows = |i: int| ring::sum(coeffs.len(), |k: int| cell(i, k));
    assert forall|i: int| 0 <= i < n implies #[trigger] f(i) == rows(i) by {
        let t = |k: int| coeffs[k].times(ring::pow(x(i), k as nat));
        ring::lemma_sum_scale(coeffs.len(), u(i), t);
        let st = |k: int| u(i).times(t(k));
        let row = |k: int| cell(i, k);
        assert forall|k: int| 0 <= k < coeffs.len() implies #[trigger] st(k) == row(k) by {
            ring::lemma_mul_left_comm(u(i), coeffs[k], ring::pow(x(i), k as nat));
        }
        ring::lemma_sum_ext(coeffs.len(), st, row);
    }
    ring::lemma_sum_ext(n, f, rows);
    ring::lemma_sum_swap(n, coeffs.len(), cell);
    let cols = |k: int| ring::sum(n, |i: int| cell(i, k));
    ring::lemma_sum_scale(coeffs.len(), zer, cols);
    let d = count::<F>(n).times(ring::pow(shift, (n - 1) as nat));
    let scaled = |k: int| zer.times(cols(k));
    let tz = |k: int| coeffs[k].times(ring::pow(z, k as nat));
    let goal = |k: int| d.times(tz(k));
    assert forall|k: int| 0 <= k < coeffs.len() implies #[trigger] scaled(k) == goal(k) by {
        lemma_monomial(log_n, shift, z, inverses, k as nat);
        let mono = |i: int| u(i).times(ring::pow(x(i), k as nat));
        let stated = |i: int|
            inverses[i].times(ring::pow(F::root(log_n), i as nat)).times(
                ring::pow(coset_point(shift, log_n, i as nat), k as nat),
            );
        ring::lemma_sum_ext(n, mono, stated);
        ring::lemma_sum_scale(n, coeffs[k], mono);
        let column = |i: int| cell(i, k);
        ring::lemma_sum_ext(n, column, |i: int| coeffs[k].times(mono(i)));
        ring::lemma_mul_left_comm(zer, coeffs[k], ring::sum(n, mono));
        ring::lemma_mul_left_comm(coeffs[k], d, ring::pow(z, k as nat));
    }
    ring::lemma_sum_ext(coeffs.len(), scaled, goal);
    ring::lemma_sum_scale(coeffs.len(), d, tz);
    let statement = |i: int|
        inverses[i].times(ring::pow(F::root(log_n), i as nat)).times(
            ring::poly(coeffs, coset_point(shift, log_n, i as nat)),
        );
    ring::lemma_sum_ext(n, f, statement);
}

} // verus!
