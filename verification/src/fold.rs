//! Folding of a codeword in the FRI protocol.

use vstd::prelude::*;
use vstd::arithmetic::power2::*;
use vstd::arithmetic::mul::*;
use crate::bits;
use crate::domain;
use crate::domain::TwoAdic;
use crate::matrix::Matrix;
use crate::ring;

verus! {

/// One half.
pub open spec fn half<F: TwoAdic>() -> F {
    ring::inv(F::one_spec().plus(F::one_spec()))
}

/// The factor of the difference of the pair of evaluations at index `i` of a codeword that folds
/// to length `2^log_half`.
pub open spec fn twiddle<F: TwoAdic>(beta: F, log_half: nat, i: nat) -> F {
    beta.times(half::<F>()).times(
        ring::pow(ring::inv(F::root(log_half + 1)), bits::bitrev(i, log_half)),
    )
}

/// A pair of evaluations `p(x)`, `p(-x)`, folded.
pub open spec fn fold_pair<F: TwoAdic>(beta: F, log_half: nat, i: nat, r0: F, r1: F) -> F {
    half::<F>().times(r0.plus(r1)).plus(twiddle(beta, log_half, i).times(ring::minus(r0, r1)))
}

/// The codeword folded with `beta`.
pub open spec fn folded<F: TwoAdic>(poly: Seq<F>, beta: F) -> Seq<F> {
    Seq::new(
        poly.len() / 2,
        |i: int|
            fold_pair(beta, bits::log2(poly.len() / 2), i as nat, poly[2 * i], poly[2 * i + 1]),
    )
}

/// The entry of a folded codeword is its pair, folded, from whichever entry of the pair one starts.
pub proof fn lemma_folded_at<F: TwoAdic>(poly: Seq<F>, beta: F, l: nat, i: nat, sibling: F)
    requires
        poly.len() == pow2(l + 1),
        i < pow2(l + 1),
        i % 2 == 0 ==> sibling == poly[i as int + 1],
        i % 2 == 1 ==> sibling == poly[i - 1],
    ensures
        folded(poly, beta).len() == pow2(l),
        i / 2 < pow2(l),
        folded(poly, beta)[(i / 2) as int] == if i % 2 == 0 {
            fold_pair(beta, l, i / 2, poly[i as int], sibling)
        } else {
            fold_pair(beta, l, i / 2, sibling, poly[i as int])
        },
        folded(poly, beta)[(i / 2) as int].plus(F::zero_spec()) == folded(
            poly,
            beta,
        )[(i / 2) as int],
{
    lemma_pow2_unfold(l + 1);
    bits::lemma_log2_pow2(l);
    let j = (i / 2) as int;
    let (r0, r1) = (poly[2 * j], poly[2 * j + 1]);
    ring::lemma_add_reduced(
        half::<F>().times(r0.plus(r1)),
        twiddle(beta, l, i / 2).times(ring::minus(r0, r1)),
    );
}

/// Lengths of codewords that can be folded.
pub open spec fn foldable<F: TwoAdic>(len: nat) -> bool {
    bits::is_pow2(len / 2) && bits::log2(len / 2) + 1 <= F::two_adicity()
}

/// Folds a polynomial `p(x) = p_even(x^2) + x p_odd(x^2)` into `p_even(x) + beta p_odd(x)`.
/// Takes and returns evaluations in bit-reversed order.
pub fn fold_even_odd<F: TwoAdic>(poly: Vec<F>, beta: F) -> (r: Vec<F>)
    requires
        foldable::<F>(poly@.len()),
    ensures
        r@ == folded(poly@, beta),
{
    fold_slice(poly.as_slice(), beta)
}

/// Folds the evaluations held by a committed matrix.
pub fn fold_from_committed<F: TwoAdic>(mat: &Matrix<F>, beta: F) -> (r: Vec<F>)
    requires
        foldable::<F>(mat.values@.len()),
    ensures
        r@ == folded(mat.values@, beta),
{
    fold_slice(mat.values.as_slice(), beta)
}

fn fold_slice<F: TwoAdic>(poly: &[F], beta: F) -> (r: Vec<F>)
    requires
        foldable::<F>(poly@.len()),
    ensures
        r@ == folded(poly@, beta),
{
    let n: usize = poly.len();
    let half_len: usize = n / 2;
    let log_half_len: usize = p3_util::log2_strict_usize(half_len);
    let ghost lh = log_half_len as nat;
    proof {
        F::law_root_ends();
        domain::lemma_root_inverse::<F>(lh + 1);
        ring::lemma_inv(F::root(lh + 1), ring::pow(F::root(lh + 1), (pow2(lh + 1) - 1) as nat));
        let h = F::law_half();
        ring::lemma_inv(F::one_spec().plus(F::one_spec()), h);
    }
    let g: F = F::two_adic_generator(log_half_len + 1);
    let g_inv: F = g.inverse();
    let two: F = F::one().add(F::one());
    let one_half: F = two.inverse();
    proof {
        ring::lemma_inv(g, g_inv);
        ring::lemma_inv(two, one_half);
    }
    let half_beta: F = beta.mul(one_half);

    let mut powers: Vec<F> = Vec::new();
    let mut power: F = half_beta;
    let mut i: usize = 0;
    proof {
        ring::lemma_mul_one(half_beta);
        ring::lemma_mul_reduced(beta, one_half);
    }
    while i < half_len
        invariant
            i <= half_len,
            powers@.len() == i,
            power == half_beta.times(ring::pow(g_inv, i as nat)),
            forall|k: int|
                0 <= k < i ==> #[trigger] powers@[k] == half_beta.times(ring::pow(g_inv, k as nat)),
        decreases half_len - i,
    {
        powers.push(power);
        proof {
            F::law_mul_assoc(half_beta, ring::pow(g_inv, i as nat), g_inv);
        }
        power = power.mul(g_inv);
        i = i + 1;
    }
    let ghost before = powers@;
    p3_util::reverse_slice_index_bits(powers.as_mut_slice());
    assert forall|k: int| 0 <= k < half_len implies #[trigger] powers@[k] == half_beta.times(
        ring::pow(g_inv, bits::bitrev(k as nat, lh)),
    ) by {
        bits::lemma_bitrev_bound(k as nat, lh);
        assert(powers@[k] == before[bits::bitrev(k as nat, lh) as int]);
    }

    let mut result: Vec<F> = Vec::new();
    let mut i: usize = 0;
    while i < half_len
        invariant
            i <= half_len,
            n == poly@.len(),
            half_len == n / 2,
            lh == bits::log2(half_len as nat),
            half_len == pow2(lh),
            powers@.len() == half_len,
            one_half == half::<F>(),
            half_beta == beta.times(half::<F>()),
            g_inv == ring::inv(F::root(lh + 1)),
            forall|k: int|
                0 <= k < half_len ==> #[trigger] powers@[k] == half_beta.times(
                    ring::pow(g_inv, bits::bitrev(k as nat, lh)),
                ),
            result@ == folded(poly@, beta).take(i as int),
        decreases half_len - i,
    {
        assert(2 * i + 1 < n);
        let r0: F = poly[2 * i];
        let r1: F = poly[2 * i + 1];
        let total: F = r0.add(r1);
        let diff: F = r0.sub(r1);
        let value: F = one_half.mul(total).add(powers[i].mul(diff));
        assert(value == folded(poly@, beta)[i as int]);
        result.push(value);
        assert(result@ =~= folded(poly@, beta).take(i + 1));
        i = i + 1;
    }
    assert(folded(poly@, beta).take(half_len as int) =~= folded(poly@, beta));
    result
}

/// The coefficients of even powers.
pub open spec fn even_part<F: TwoAdic>(coeffs: Seq<F>) -> Seq<F> {
    Seq::new(coeffs.len() / 2, |k: int| coeffs[2 * k])
}

/// The coefficients of odd powers.
pub open spec fn odd_part<F: TwoAdic>(coeffs: Seq<F>) -> Seq<F> {
    Seq::new(coeffs.len() / 2, |k: int| coeffs[2 * k + 1])
}

/// The evaluations of a polynomial over the subgroup of order `2^bits`, in bit-reversed order.
pub open spec fn evaluations<F: TwoAdic>(coeffs: Seq<F>, log_n: nat) -> Seq<F> {
    Seq::new(
        pow2(log_n),
        |i: int| ring::poly(coeffs, ring::pow(F::root(log_n), bits::bitrev(i as nat, log_n))),
    )
}

/// `p(x) = p_even(x^2) + x p_odd(x^2)`.
pub proof fn lemma_even_odd<F: TwoAdic>(coeffs: Seq<F>, x: F)
    requires
        coeffs.len() % 2 == 0,
    ensures
        ring::poly(coeffs, x) == ring::poly(even_part(coeffs), x.times(x)).plus(
            x.times(ring::poly(odd_part(coeffs), x.times(x))),
        ),
{
    lemma_even_odd_sum(coeffs, x, coeffs.len() / 2);
    assert(2 * (coeffs.len() / 2) == coeffs.len());
}

proof fn lemma_even_odd_sum<F: TwoAdic>(coeffs: Seq<F>, x: F, m: nat)
    requires
        2 * m <= coeffs.len(),
    ensures
        ring::sum(2 * m, |k: int| coeffs[k].times(ring::pow(x, k as nat))) == ring::sum(
            m,
            |k: int| even_part(coeffs)[k].times(ring::pow(x.times(x), k as nat)),
        ).plus(
            x.times(
                ring::sum(
                    m,
                    |k: int| odd_part(coeffs)[k].times(ring::pow(x.times(x), k as nat)),
                ),
            ),
        ),
    decreases m,
{
    let y = x.times(x);
    let e = |k: int| even_part(coeffs)[k].times(ring::pow(y, k as nat));
    let o = |k: int| odd_part(coeffs)[k].times(ring::pow(y, k as nat));
    let f = |k: int| coeffs[k].times(ring::pow(x, k as nat));
    if m == 0 {
        ring::lemma_mul_zero(x);
        F::law_constants();
    } else {
        let k = (m - 1) as nat;
        lemma_even_odd_sum(coeffs, x, k);
        let se = ring::sum(k, e);
        let so = ring::sum(k, o);
        reveal_with_fuel(ring::sum, 3);
        let (te, to) = (e(k as int), o(k as int));
        assert(ring::sum(2 * m, f) == ring::sum(2 * k, f).plus(f((2 * k) as int)).plus(f((2 * k + 1) as int)));
        // x^(2k) = y^k and x^(2k+1) = y^k x
        ring::lemma_pow_pow(x, 2, k);
        reveal_with_fuel(ring::pow, 3);
        ring::lemma_mul_one(x);
        ring::lemma_mul_reduced(x, x);
        assert(ring::pow(x, 2) == y);
        assert(f((2 * k) as int) == te);
        assert(f((2 * k + 1) as int) == x.times(to)) by {
            let c = coeffs[(2 * k + 1) as int];
            F::law_mul_assoc(c, ring::pow(y, k), x);
            F::law_mul_comm(to, x);
        }
        F::law_distrib(x, so, to);
        F::law_add_assoc(se.plus(x.times(so)), te, x.times(to));
        ring::lemma_add_swap(se, x.times(so), te, x.times(to));
    }
}

/// Folding the pair `e + x o`, `e - x o` gives `e + beta o`, where `x` is the point that belongs
/// to the index.
proof fn lemma_fold_pair<F: TwoAdic>(beta: F, log_half: nat, i: nat, x: F, e: F, o: F)
    requires
        log_half + 1 <= F::two_adicity(),
        x == ring::pow(F::root(log_half + 1), bits::bitrev(i, log_half)),
    ensures
        fold_pair(beta, log_half, i, e.plus(x.times(o)), ring::minus(e, x.times(o))) == e.plus(
            beta.times(o),
        ),
{
    let one = F::one_spec();
    let two = one.plus(one);
    let hf = half::<F>();
    let g = F::root(log_half + 1);
    let gi = ring::inv(g);
    let k = bits::bitrev(i, log_half);
    let w = F::law_half();
    ring::lemma_inv(two, w);
    domain::lemma_root_inverse::<F>(log_half + 1);
    ring::lemma_inv(g, ring::pow(g, (pow2(log_half + 1) - 1) as nat));
    F::law_mul_comm(two, hf);
    let xo = x.times(o);
    // (e + xo) + (e - xo) = e + e
    assert(e.plus(xo).plus(ring::minus(e, xo)) == e.plus(e)) by {
        ring::lemma_add_swap(e, xo, e, xo.negated());
        F::law_neg(xo);
        ring::lemma_add_reduced(e, e);
    }
    // (e + xo) - (e - xo) = xo + xo
    assert(ring::minus(e.plus(xo), ring::minus(e, xo)) == xo.plus(xo)) by {
        ring::lemma_sub_swap(e, xo, e, xo.negated());
        ring::lemma_sub_self(e);
        ring::lemma_neg_neg(xo);
        ring::lemma_add_reduced(xo, xo);
        ring::lemma_zero_left(xo.plus(xo));
    }
    // half (e + e) = e
    lemma_half_double(e);
    // twiddle (xo + xo) = beta o
    let t = twiddle(beta, log_half, i);
    assert(t.times(xo.plus(xo)) == beta.times(o)) by {
        let gk = ring::pow(gi, k);
        // gi^k x = 1
        ring::lemma_pow_mul(gi, g, k);
        F::law_mul_comm(g, gi);
        ring::lemma_pow_base_one::<F>(k);
        assert(gk.times(x) == one);
        // gi^k (x o + x o) = o + o
        F::law_distrib(gk, xo, xo);
        F::law_mul_assoc(gk, x, o);
        ring::lemma_mul_one(o);
        assert(gk.times(xo) == ring::reduced(o));
        ring::lemma_add_reduced(o, o);
        ring::lemma_add_reduced(ring::reduced(o), o);
        assert(gk.times(xo.plus(xo)) == o.plus(o));
        F::law_mul_assoc(beta.times(hf), gk, xo.plus(xo));
        F::law_mul_assoc(beta, hf, o.plus(o));
        lemma_half_double(o);
        ring::lemma_mul_reduced(beta, o);
    }
    ring::lemma_add_reduced(e, beta.times(o));
}

/// Half of `a + a` is `a`.
pub proof fn lemma_half_double<F: TwoAdic>(a: F)
    ensures
        half::<F>().times(a.plus(a)) == ring::reduced(a),
{
    let one = F::one_spec();
    let two = one.plus(one);
    let w = F::law_half();
    ring::lemma_inv(two, w);
    let hf = half::<F>();
    F::law_mul_comm(two, hf);
    ring::lemma_distrib_right(one, one, a);
    ring::lemma_mul_one(a);
    ring::lemma_add_reduced(a, a);
    ring::lemma_add_reduced(ring::reduced(a), a);
    assert(two.times(a) == a.plus(a));
    F::law_mul_assoc(hf, two, a);
}

/// Folding the evaluations of `p(x) = p_even(x^2) + x p_odd(x^2)` over the subgroup of order
/// `2^(log_half + 1)` gives the evaluations of `p_even(x) + beta p_odd(x)` over that of order
/// `2^log_half`, both in bit-reversed order.
pub proof fn law_fold_even_odd<F: TwoAdic>(coeffs: Seq<F>, beta: F, log_half: nat)
    requires
        coeffs.len() % 2 == 0,
        log_half + 1 <= F::two_adicity(),
    ensures
        folded(evaluations(coeffs, log_half + 1), beta) == Seq::new(
            pow2(log_half),
            |i: int|
                evaluations(even_part(coeffs), log_half)[i].plus(
                    beta.times(evaluations(odd_part(coeffs), log_half)[i]),
                ),
        ),
{
    let n = log_half + 1;
    let word = evaluations(coeffs, n);
    lemma_pow2_unfold(n);
    assert(word.len() / 2 == pow2(log_half));
    bits::lemma_log2_pow2(log_half);
    let g = F::root(n);
    assert forall|i: int| 0 <= i < pow2(log_half) implies #[trigger] folded(word, beta)[i]
        == evaluations(even_part(coeffs), log_half)[i].plus(
        beta.times(evaluations(odd_part(coeffs), log_half)[i]),
    ) by {
        let k = bits::bitrev(i as nat, log_half);
        let x = ring::pow(g, k);
        let y = x.times(x);
        bits::lemma_bitrev_double(i as nat, log_half);
        let neg = ring::pow(g, pow2(log_half) + k);
        // g^(2^log_half + k) = -x
        assert(neg == x.negated()) by {
            ring::lemma_pow_add(g, pow2(log_half), k);
            domain::lemma_root_order::<F>(n);
            ring::lemma_mul_neg(x, F::one_spec());
            ring::lemma_mul_one(x);
            ring::lemma_pow_reduced(g, k);
        }
        assert(neg.times(neg) == y) by {
            ring::lemma_mul_neg(x.negated(), x);
            ring::lemma_mul_neg(x, x);
            ring::lemma_neg_neg(y);
            ring::lemma_mul_reduced(x, x);
        }
        lemma_even_odd(coeffs, x);
        lemma_even_odd(coeffs, neg);
        let e = ring::poly(even_part(coeffs), y);
        let o = ring::poly(odd_part(coeffs), y);
        ring::lemma_mul_neg(o, x);
        assert(word[2 * i] == e.plus(x.times(o)));
        assert(word[2 * i + 1] == ring::minus(e, x.times(o)));
        lemma_fold_pair(beta, log_half, i as nat, x, e, o);
        // y is the point of the folded domain
        F::law_root_square(n);
        ring::lemma_pow_mul(g, g, k);
        assert(y == ring::pow(F::root(log_half), k));
    }
    assert(folded(word, beta) =~= Seq::new(
        pow2(log_half),
        |i: int|
            evaluations(even_part(coeffs), log_half)[i].plus(
                beta.times(evaluations(odd_part(coeffs), log_half)[i]),
            ),
    ));
}

/// The half sum and the half difference of `a` and `b` give back `a` and `b`.
pub proof fn lemma_halves<F: TwoAdic>(a: F, b: F)
    ensures
        half::<F>().times(a.plus(b)).plus(half::<F>().times(ring::minus(a, b)))
            == ring::reduced(a),
        ring::minus(
            half::<F>().times(a.plus(b)),
            half::<F>().times(ring::minus(a, b)),
        ) == ring::reduced(b),
{
    let hf = half::<F>();
    F::law_distrib(hf, a.plus(b), ring::minus(a, b));
    ring::lemma_add_swap(a, b, a, b.negated());
    F::law_neg(b);
    ring::lemma_add_reduced(a, a);
    lemma_half_double(a);
    ring::lemma_mul_sub(hf, a.plus(b), ring::minus(a, b));
    ring::lemma_sub_swap(a, b, a, b.negated());
    ring::lemma_sub_self(a);
    ring::lemma_neg_neg(b);
    ring::lemma_add_reduced(b, b);
    ring::lemma_zero_left(b.plus(b));
    lemma_half_double(b);
}

/// Folding a pair is taking the value at `beta` of the line through it: with `x` the point that
/// belongs to the index, `r0 + (beta - x) (r1 - r0) / (-x - x)`.
pub proof fn law_fold_is_on_the_line<F: TwoAdic>(beta: F, log_half: nat, i: nat, r0: F, r1: F)
    requires
        log_half + 1 <= F::two_adicity(),
    ensures
        ({
            let x = ring::pow(F::root(log_half + 1), bits::bitrev(i, log_half));
            fold_pair(beta, log_half, i, r0, r1) == r0.plus(
                ring::minus(beta, x).times(ring::minus(r1, r0)).times(
                    ring::inv(ring::minus(x.negated(), x)),
                ),
            )
        }),
{
    let one = F::one_spec();
    let hf = half::<F>();
    let g = F::root(log_half + 1);
    let k = bits::bitrev(i, log_half);
    let x = ring::pow(g, k);
    let gk = ring::pow(ring::inv(g), k);
    let h = hf.times(gk);
    let d = ring::minus(r0, r1);
    let b = ring::minus(beta, x);
    let w = F::law_half();
    ring::lemma_inv(one.plus(one), w);
    domain::lemma_root_inverse::<F>(log_half + 1);
    ring::lemma_inv(g, ring::pow(g, (pow2(log_half + 1) - 1) as nat));
    // x gk = 1, so x h is one half
    ring::lemma_pow_mul(g, ring::inv(g), k);
    ring::lemma_pow_base_one::<F>(k);
    ring::lemma_mul_left_comm(x, hf, gk);
    ring::lemma_mul_one(hf);
    assert(ring::reduced(hf) == hf) by {
        ring::lemma_add_reduced(choose|r: F| one.plus(one).times(r) == one, F::zero_spec());
    }
    assert(x.times(h) == hf);
    assert(x.plus(x).times(h) == one) by {
        ring::lemma_distrib_right(x, x, h);
        F::law_distrib(hf, one, one);
        F::law_mul_comm(hf, one.plus(one));
    }
    // 1 / (-x - x) = -h
    let m = ring::minus(x.negated(), x);
    assert(ring::inv(m) == h.negated()) by {
        ring::lemma_neg_add(x, x);
        F::law_mul_comm(m, h.negated());
        F::law_mul_comm(h.negated(), x.plus(x));
        ring::lemma_mul_neg(h.negated(), x.plus(x));
        ring::lemma_mul_neg(x.plus(x), h);
        ring::lemma_neg_neg(one);
        F::law_constants();
        ring::lemma_inv(m, h.negated());
        ring::lemma_neg_reduced(h);
    }
    // r1 - r0 = -d
    assert(ring::minus(r1, r0) == d.negated()) by {
        ring::lemma_neg_add(r0, r1.negated());
        ring::lemma_neg_neg(r1);
        F::law_add_comm(r0.negated(), ring::reduced(r1));
        ring::lemma_add_reduced(r1, r0.negated());
    }
    let slope = b.times(d.negated()).times(h.negated());
    let dh = d.times(h);
    assert(slope == b.times(dh)) by {
        ring::lemma_mul_neg(b, d);
        let bd = b.times(d);
        ring::lemma_mul_neg(bd.negated(), h);
        F::law_mul_comm(bd.negated(), h);
        ring::lemma_mul_neg(h, bd);
        F::law_mul_comm(h, bd);
        ring::lemma_neg_neg(bd.times(h));
        ring::lemma_mul_reduced(bd, h);
        F::law_mul_assoc(b, d, h);
    }
    // (beta - x) d h = t d - d / 2
    let t = twiddle(beta, log_half, i);
    ring::lemma_mul_sub(dh, beta, x);
    assert(beta.times(dh) == t.times(d)) by {
        F::law_mul_assoc(beta, hf, gk);
        F::law_mul_assoc(beta, h, d);
        F::law_mul_comm(h, d);
    }
    assert(x.times(dh) == hf.times(d)) by {
        ring::lemma_mul_left_comm(x, d, h);
        F::law_mul_comm(d, hf);
    }
    // r0 = (r0 + r1) / 2 + d / 2
    let s = hf.times(r0.plus(r1));
    let e = hf.times(d);
    lemma_halves(r0, r1);
    ring::lemma_add_reduced(r0, ring::minus(t.times(d), e));
    ring::lemma_add_swap(s, e, t.times(d), e.negated());
    F::law_neg(e);
    ring::lemma_add_reduced(s, t.times(d));
}

} // verus!
