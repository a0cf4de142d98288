//! Polynomials: through given values, divided by a linear factor, and combined.

use vstd::prelude::*;
use vstd::arithmetic::power2::*;
use crate::domain;
use crate::domain::TwoAdic;
use crate::fold;
use crate::ring;
use crate::ring::Ring;

verus! {

/// A polynomial that takes the given values on the subgroup of order `2^log_n`.
pub proof fn lemma_interpolant<F: TwoAdic>(values: Seq<F>, log_n: nat) -> (coeffs: Seq<F>)
    requires
        values.len() == pow2(log_n),
        log_n <= F::two_adicity(),
    ensures
        coeffs.len() == pow2(log_n),
        forall|i: nat|
            i < pow2(log_n) ==> ring::poly(coeffs, #[trigger] ring::pow(F::root(log_n), i))
                == ring::reduced(values[i as int]),
    decreases log_n,
{
    if log_n == 0 {
        lemma2_to64();
        let coeffs = seq![values[0]];
        assert forall|i: nat| i < pow2(log_n) implies ring::poly(
            coeffs,
            #[trigger] ring::pow(F::root(log_n), i),
        ) == ring::reduced(values[i as int]) by {
            let x = ring::pow(F::root(log_n), i);
            let f = |k: int| coeffs[k].times(ring::pow(x, k as nat));
            reveal_with_fuel(ring::sum, 2);
            assert(f(0) == values[0].times(F::one_spec()));
            ring::lemma_mul_one(values[0]);
            ring::lemma_zero_left(values[0]);
            ring::lemma_zero_left(ring::reduced(values[0]));
            ring::lemma_add_reduced(values[0], F::zero_spec());
        }
        coeffs
    } else {
        let m = (log_n - 1) as nat;
        let h = pow2(m);
        lemma_pow2_unfold(log_n);
        let w = F::root(log_n);
        let hf = fold::half::<F>();
        domain::lemma_root_inverse::<F>(log_n);
        ring::lemma_inv(w, ring::pow(w, (pow2(log_n) - 1) as nat));
        let wi = ring::inv(w);
        let e = Seq::new(h, |i: int| hf.times(values[i].plus(values[i + h])));
        let o = Seq::new(
            h,
            |i: int| hf.times(ring::minus(values[i], values[i + h])).times(ring::pow(wi, i as nat)),
        );
        let ce = lemma_interpolant(e, m);
        let co = lemma_interpolant(o, m);
        let coeffs = Seq::new(
            2 * h,
            |k: int|
                if k % 2 == 0 {
                    ce[k / 2]
                } else {
                    co[k / 2]
                },
        );
        assert(fold::even_part(coeffs) =~= ce);
        assert(fold::odd_part(coeffs) =~= co);
        assert forall|i: nat| i < pow2(log_n) implies ring::poly(
            coeffs,
            #[trigger] ring::pow(F::root(log_n), i),
        ) == ring::reduced(values[i as int]) by {
            lemma_interpolant_step(values, log_n, ce, co, coeffs, e, o, i);
        }
        coeffs
    }
}

proof fn lemma_interpolant_step<F: TwoAdic>(
    values: Seq<F>,
    log_n: nat,
    ce: Seq<F>,
    co: Seq<F>,
    coeffs: Seq<F>,
    e: Seq<F>,
    o: Seq<F>,
    i: nat,
)
    requires
        0 < log_n <= F::two_adicity(),
        values.len() == pow2(log_n),
        i < pow2(log_n),
        coeffs.len() == pow2(log_n),
        fold::even_part(coeffs) == ce,
        fold::odd_part(coeffs) == co,
        e.len() == pow2((log_n - 1) as nat),
        o.len() == pow2((log_n - 1) as nat),
        forall|k: int|
            0 <= k < e.len() ==> #[trigger] e[k] == fold::half::<F>().times(
                values[k].plus(values[k + e.len()]),
            ),
        forall|k: int|
            0 <= k < o.len() ==> #[trigger] o[k] == fold::half::<F>().times(
                ring::minus(values[k], values[k + o.len()]),
            ).times(ring::pow(ring::inv(F::root(log_n)), k as nat)),
        forall|k: nat|
            k < e.len() ==> ring::poly(
                ce,
                #[trigger] ring::pow(F::root((log_n - 1) as nat), k),
            ) == ring::reduced(e[k as int]),
        forall|k: nat|
            k < o.len() ==> ring::poly(
                co,
                #[trigger] ring::pow(F::root((log_n - 1) as nat), k),
            ) == ring::reduced(o[k as int]),
    ensures
        ring::poly(coeffs, ring::pow(F::root(log_n), i)) == ring::reduced(values[i as int]),
{
    let m = (log_n - 1) as nat;
    let h = pow2(m);
    lemma_pow2_unfold(log_n);
    let w = F::root(log_n);
    let v = F::root(m);
    let hf = fold::half::<F>();
    domain::lemma_root_inverse::<F>(log_n);
    ring::lemma_inv(w, ring::pow(w, (pow2(log_n) - 1) as nat));
    let wi = ring::inv(w);
    let k: nat = if i < h {
        i
    } else {
        (i - h) as nat
    };
    let x = ring::pow(w, i);
    fold::lemma_even_odd(coeffs, x);
    ring::lemma_pow_mul(w, w, i);
    F::law_root_square(log_n);
    assert(x.times(x) == ring::pow(v, i));
    let y = ring::pow(v, k);
    let wk = ring::pow(w, k);
    if i >= h {
        ring::lemma_pow_add(v, h, k);
        domain::lemma_root_order::<F>(m);
        ring::lemma_mul_one(y);
        ring::lemma_pow_reduced(v, k);
        ring::lemma_pow_add(w, h, k);
        domain::lemma_root_order::<F>(log_n);
        F::law_mul_comm(F::one_spec().negated(), wk);
        ring::lemma_mul_neg(wk, F::one_spec());
        ring::lemma_mul_one(wk);
        ring::lemma_pow_reduced(w, k);
        assert(x == wk.negated());
    }
    assert(x.times(x) == y);
    let (a, b) = (values[k as int], values[(k + h) as int]);
    let s = hf.times(a.plus(b));
    let d = hf.times(ring::minus(a, b));
    let ik = ring::pow(wi, k);
    let ok = d.times(ik);
    assert(e[k as int] == s && o[k as int] == ok);
    ring::lemma_pow_mul(w, wi, k);
    ring::lemma_pow_base_one::<F>(k);
    ring::lemma_mul_left_comm(wk, d, ik);
    ring::lemma_mul_one(d);
    ring::lemma_mul_reduced(hf, ring::minus(a, b));
    ring::lemma_mul_reduced(hf, a.plus(b));
    ring::lemma_mul_reduced(d, ik);
    assert(wk.times(ok) == d);
    assert(ring::poly(ce, y) == s);
    assert(ring::poly(co, y) == ok);
    fold::lemma_halves(a, b);
    if i >= h {
        F::law_mul_comm(wk.negated(), ok);
        ring::lemma_mul_neg(ok, wk);
        F::law_mul_comm(wk, ok);
    }
}

/// The coefficients of the quotient by `x - z`.
pub open spec fn divided<F: Ring>(p: Seq<F>, z: F) -> Seq<F>
    decreases p.len(),
{
    if p.len() == 0 {
        p
    } else {
        let q = divided(p.skip(1), z);
        linear(p.skip(1), q, z).push(F::zero_spec())
    }
}

/// The coefficients of `a + c b`.
pub open spec fn linear<F: Ring>(a: Seq<F>, b: Seq<F>, c: F) -> Seq<F> {
    Seq::new(a.len(), |k: int| a[k].plus(c.times(b[k])))
}

pub proof fn lemma_poly_linear<F: Ring>(a: Seq<F>, b: Seq<F>, c: F, x: F)
    requires
        a.len() == b.len(),
    ensures
        ring::poly(linear(a, b, c), x) == ring::poly(a, x).plus(c.times(ring::poly(b, x))),
{
    let n = a.len();
    let f = |k: int| a[k].times(ring::pow(x, k as nat));
    let g = |k: int| b[k].times(ring::pow(x, k as nat));
    let cg = |k: int| c.times(g(k));
    let t = |k: int| linear(a, b, c)[k].times(ring::pow(x, k as nat));
    ring::lemma_sum_scale(n, c, g);
    ring::lemma_sum_add(n, f, cg);
    assert forall|k: int| 0 <= k < n implies #[trigger] t(k) == f(k).plus(cg(k)) by {
        let xk = ring::pow(x, k as nat);
        ring::lemma_distrib_right(a[k], c.times(b[k]), xk);
        F::law_mul_assoc(c, b[k], xk);
    }
    ring::lemma_sum_ext(n, t, |k: int| f(k).plus(cg(k)));
}

proof fn lemma_poly_push_zero<F: Ring>(p: Seq<F>, x: F)
    ensures
        ring::poly(p.push(F::zero_spec()), x) == ring::poly(p, x),
{
    let n = p.len();
    let q = p.push(F::zero_spec());
    let f = |k: int| p[k].times(ring::pow(x, k as nat));
    let g = |k: int| q[k].times(ring::pow(x, k as nat));
    ring::lemma_sum_ext(n, f, g);
    ring::lemma_mul_zero(ring::pow(x, n));
    ring::lemma_sum_reduced(n, g);
}

/// `p(x) = p_0 + x p'(x)`, where `p'` has the other coefficients.
proof fn lemma_horner<F: Ring>(p: Seq<F>, x: F)
    requires
        p.len() > 0,
    ensures
        ring::poly(p, x) == p[0].plus(x.times(ring::poly(p.skip(1), x))),
{
    let n = (p.len() - 1) as nat;
    let f = |k: int| p[k].times(ring::pow(x, k as nat));
    let g = |k: int| p.skip(1)[k].times(ring::pow(x, k as nat));
    let rest = |k: int| f(1 + k);
    let xg = |k: int| x.times(g(k));
    ring::lemma_sum_split(1, n, f);
    assert(ring::sum(1, f) == ring::reduced(p[0])) by {
        reveal_with_fuel(ring::sum, 2);
        assert(f(0) == p[0].times(F::one_spec()));
        ring::lemma_mul_one(p[0]);
        ring::lemma_zero_left(ring::reduced(p[0]));
        ring::lemma_add_reduced(p[0], F::zero_spec());
    }
    assert forall|k: int| 0 <= k < n implies #[trigger] rest(k) == xg(k) by {
        let xk = ring::pow(x, k as nat);
        assert(ring::pow(x, (k + 1) as nat) == xk.times(x));
        F::law_mul_comm(xk, x);
        ring::lemma_mul_left_comm(p[k + 1], x, xk);
    }
    ring::lemma_sum_ext(n, |i: int| f(1 + i), xg);
    ring::lemma_sum_scale(n, x, g);
    ring::lemma_add_reduced(p[0], x.times(ring::poly(p.skip(1), x)));
}

/// `p(x) - p(z) = (x - z) q(x)`, where `q` is the quotient.
pub proof fn lemma_divided<F: Ring>(p: Seq<F>, z: F, x: F)
    ensures
        divided(p, z).len() == p.len(),
        ring::minus(ring::poly(p, x), ring::poly(p, z)) == ring::minus(x, z).times(
            ring::poly(divided(p, z), x),
        ),
    decreases p.len(),
{
    if p.len() == 0 {
        ring::lemma_sub_self(F::zero_spec());
        ring::lemma_mul_zero(ring::minus(x, z));
    } else {
        let r = p.skip(1);
        let q = divided(r, z);
        lemma_divided(r, z, x);
        lemma_horner(p, x);
        lemma_horner(p, z);
        lemma_poly_linear(r, q, z, x);
        lemma_poly_push_zero(linear(r, q, z), x);
        let (rx, rz, qx) = (ring::poly(r, x), ring::poly(r, z), ring::poly(q, x));
        let (xr, zr, zs) = (x.times(rx), z.times(rx), z.times(rz));
        let d = ring::minus(x, z);
        // p(x) - p(z) = x r(x) - z r(z)
        ring::lemma_sub_swap(p[0], xr, p[0], zs);
        ring::lemma_sub_self(p[0]);
        ring::lemma_zero_left(ring::minus(xr, zs));
        ring::lemma_add_reduced(xr, zs.negated());
        // (x - z) (r(x) + z q(x)) = x r(x) - z r(x) + z (r(x) - r(z))
        F::law_distrib(d, rx, z.times(qx));
        ring::lemma_mul_sub(rx, x, z);
        ring::lemma_mul_left_comm(d, z, qx);
        ring::lemma_mul_sub(z, rx, rz);
        F::law_add_assoc(xr, zr.negated(), ring::minus(zr, zs));
        F::law_add_assoc(zr.negated(), zr, zs.negated());
        F::law_add_comm(zr.negated(), zr);
        F::law_neg(zr);
        ring::lemma_zero_left(zs.negated());
    }
}

/// The coefficients of `sum_c alpha^c p_c`.
pub open spec fn mixed<F: Ring>(polys: Seq<Seq<F>>, alpha: F, n: nat) -> Seq<F> {
    Seq::new(
        n,
        |k: int| ring::sum(polys.len(), |c: int| ring::pow(alpha, c as nat).times(polys[c][k])),
    )
}

pub proof fn lemma_poly_mixed<F: Ring>(polys: Seq<Seq<F>>, alpha: F, n: nat, x: F)
    requires
        forall|c: int| 0 <= c < polys.len() ==> (#[trigger] polys[c]).len() == n,
    ensures
        ring::sum(polys.len(), |c: int| ring::pow(alpha, c as nat).times(ring::poly(polys[c], x)))
            == ring::poly(mixed(polys, alpha, n), x),
{
    let m = polys.len();
    let t = |c: int, k: int|
        ring::pow(alpha, c as nat).times(polys[c][k].times(ring::pow(x, k as nat)));
    let byc = |c: int| ring::pow(alpha, c as nat).times(ring::poly(polys[c], x));
    let byk = |k: int| mixed(polys, alpha, n)[k].times(ring::pow(x, k as nat));
    ring::lemma_sum_swap(m, n, t);
    let left = |c: int| ring::sum(n, |k: int| t(c, k));
    let right = |k: int| ring::sum(m, |c: int| t(c, k));
    assert forall|c: int| 0 <= c < m implies #[trigger] byc(c) == left(c) by {
        let g = |k: int| polys[c][k].times(ring::pow(x, k as nat));
        let a = ring::pow(alpha, c as nat);
        ring::lemma_sum_scale(n, a, g);
        ring::lemma_sum_ext(n, |k: int| a.times(g(k)), |k: int| t(c, k));
    }
    assert forall|k: int| 0 <= k < n implies #[trigger] byk(k) == right(k) by {
        let xk = ring::pow(x, k as nat);
        let g = |c: int| ring::pow(alpha, c as nat).times(polys[c][k]);
        ring::lemma_sum_scale(m, xk, g);
        F::law_mul_comm(xk, ring::sum(m, g));
        let u = |c: int| xk.times(g(c));
        let v = |c: int| t(c, k);
        assert forall|c: int| 0 <= c < m implies #[trigger] u(c) == v(c) by {
            let a = ring::pow(alpha, c as nat);
            F::law_mul_comm(xk, g(c));
            F::law_mul_assoc(a, polys[c][k], xk);
        }
        ring::lemma_sum_ext(m, u, v);
        ring::lemma_sum_ext(m, |c: int| xk.times(g(c)), u);
    }
    ring::lemma_sum_ext(m, byc, left);
    ring::lemma_sum_ext(n, byk, right);
}

} // verus!
