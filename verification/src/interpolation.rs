//! Evaluation of committed columns at points outside of their domain.

use vstd::prelude::*;
use vstd::arithmetic::power2::*;
use vstd::arithmetic::mul::*;
use vstd::arithmetic::div_mod::*;
use crate::babybear;
use crate::babybear::{Felt, P};
use crate::barycentric;
use crate::bits;
use crate::domain;
use crate::domain::TwoAdic;
use crate::ext;
use crate::ext::Ext;
use crate::field;
use crate::field::Field;
use crate::matrix::Matrix;
use crate::prime;
use crate::ring;
use crate::ring::Ring;

verus! {

/// The weight of the value at the coset point with index `i`.
pub open spec fn weight(log_h: nat, diff_invs: Seq<Ext>, i: int) -> Ext {
    diff_invs[i].times(ext::embed(ring::pow(Felt::root(log_h), i as nat)))
}

/// The factor `n shift^(n - 1)` of a coset of order `n = 2^log_h`.
pub open spec fn coset_denominator(log_h: nat, shift: Felt) -> Felt {
    babybear::felt(pow2(log_h) as int).times(ring::pow(shift, (pow2(log_h) - 1) as nat))
}

/// The common factor of the values at `point`.
pub open spec fn point_scale(log_h: nat, shift: Felt, point: Ext) -> Ext {
    ring::minus(
        ring::pow(point, pow2(log_h)),
        ring::pow(ext::embed(shift), pow2(log_h)),
    ).times(ext::embed(ring::inv(coset_denominator(log_h, shift))))
}

/// The value at `point` of column `c`, from the first `2^log_h` rows of `mat`, which hold its
/// values on the coset of `shift` in bit-reversed order.
pub open spec fn interpolated(
    mat: Matrix<Felt>,
    log_h: nat,
    shift: Felt,
    point: Ext,
    diff_invs: Seq<Ext>,
    c: int,
) -> Ext {
    point_scale(log_h, shift, point).times(
        ring::sum(
            pow2(log_h),
            |i: int|
                weight(log_h, diff_invs, i).times(
                    ext::embed(mat.at(bits::bitrev(i as nat, log_h) as int, c)),
                ),
        ),
    )
}

pub proof fn lemma_felt_mul(a: int, b: int)
    ensures
        babybear::felt(a).times(babybear::felt(b)) == babybear::felt(a * b),
{
    lemma_mul_mod_noop(a, b, P as int);
}

/// The number `2^k` has an inverse in BabyBear.
pub proof fn lemma_pow2_invertible(k: nat) -> (r: Felt)
    ensures
        babybear::felt(pow2(k) as int).times(r) == Felt::one_spec(),
{
    let two = Felt::one_spec().plus(Felt::one_spec());
    let half = Felt::law_half();
    lemma_felt_pow2(k);
    ring::lemma_pow_mul(two, half, k);
    ring::lemma_pow_base_one::<Felt>(k);
    ring::pow(half, k)
}

proof fn lemma_felt_pow2(k: nat)
    ensures
        ring::pow(Felt::one_spec().plus(Felt::one_spec()), k) == babybear::felt(pow2(k) as int),
    decreases k,
{
    lemma2_to64();
    if k > 0 {
        lemma_felt_pow2((k - 1) as nat);
        lemma_felt_mul(pow2((k - 1) as nat) as int, 2);
        lemma_pow2_unfold(k);
    }
}

/// The factor of a coset has an inverse.
pub proof fn lemma_denominator_invertible(log_h: nat, shift: Felt)
    requires
        ring::reduced(shift) != Felt::zero_spec(),
    ensures
        ring::invertible(coset_denominator(log_h, shift)),
        ring::reduced(coset_denominator(log_h, shift)) != Felt::zero_spec(),
        coset_denominator(log_h, shift).times(ring::inv(coset_denominator(log_h, shift)))
            == Felt::one_spec(),
{
    let n = pow2(log_h);
    lemma_pow2_pos(log_h);
    let m = (n - 1) as nat;
    let r = lemma_pow2_invertible(log_h);
    prime::law_nonzero_is_invertible(shift);
    let s = choose|s: Felt| shift.times(s) == Felt::one_spec();
    ring::lemma_pow_mul(shift, s, m);
    ring::lemma_pow_base_one::<Felt>(m);
    ring::lemma_inv_mul(babybear::felt(n as int), ring::pow(shift, m), r, ring::pow(s, m));
    ring::lemma_inv(coset_denominator(log_h, shift), r.times(ring::pow(s, m)));
}

/// The weights of a coset's values.
fn column_scale(log_h: usize, diff_invs: &[Ext]) -> (r: Vec<Ext>)
    requires
        log_h <= 27,
    ensures
        r@.len() == diff_invs@.len(),
        forall|i: int|
            0 <= i < r@.len() ==> #[trigger] r@[i] == weight(log_h as nat, diff_invs@, i),
{
    let g: Felt = Felt::two_adic_generator(log_h);
    let mut scale: Vec<Ext> = Vec::new();
    let mut power: Felt = Felt::one();
    let mut i: usize = 0;
    while i < diff_invs.len()
        invariant
            i <= diff_invs@.len(),
            g == Felt::root(log_h as nat),
            power == ring::pow(g, i as nat),
            scale@.len() == i,
            forall|k: int|
                0 <= k < i ==> #[trigger] scale@[k] == weight(log_h as nat, diff_invs@, k),
        decreases diff_invs@.len() - i,
    {
        scale.push(diff_invs[i].mul(Ext::from_base(power)));
        power = power.mul(g);
        i = i + 1;
    }
    scale
}

/// The inverse of the factor of a coset.
fn denominator_inverse(log_h: usize, shift: Felt) -> (r: Felt)
    requires
        log_h <= 27,
        ring::reduced(shift) != Felt::zero_spec(),
    ensures
        r == ring::inv(coset_denominator(log_h as nat, shift)),
{
    proof {
        lemma2_to64();
        if log_h < 27 {
            lemma_pow2_strictly_increases(log_h as nat, 27);
        }
        lemma_pow2_pos(log_h as nat);
        lemma_denominator_invertible(log_h as nat, shift);
        vstd::bits::lemma_u64_shl_is_mul(1, log_h as u64);
    }
    let height: u64 = 1u64 << (log_h as u64);
    let n: Felt = Felt { value: (height % (P as u64)) as u32 };
    let denominator: Felt = n.mul(field::exp_u64(shift, height - 1));
    let r: Felt = denominator.inverse();
    proof {
        ring::lemma_inv(denominator, r);
    }
    r
}

/// The common factor of the values at a point.
fn scale_at(log_h: usize, shift: Felt, point: Ext, denominator_inv: Felt) -> (r: Ext)
    requires
        denominator_inv == ring::inv(coset_denominator(log_h as nat, shift)),
    ensures
        r == point_scale(log_h as nat, shift, point),
{
    let zerofier: Ext = field::exp_power_of_2(point, log_h).sub(
        field::exp_power_of_2(Ext::from_base(shift), log_h),
    );
    zerofier.mul(Ext::from_base(denominator_inv))
}

/// Adds the multiple by `s` of a row to the columns' sums.
fn add_scaled_row(acc: &mut Vec<Ext>, mat: &Matrix<Felt>, row: usize, s: Ext)
    requires
        mat.width > 0,
        row < mat.rows(),
        old(acc)@.len() == mat.width,
    ensures
        final(acc)@.len() == mat.width,
        forall|j: int|
            0 <= j < mat.width ==> #[trigger] final(acc)@[j] == old(acc)@[j].plus(
                s.times(ext::embed(mat.at(row as int, j))),
            ),
{
    let ghost before = acc@;
    let mut j: usize = 0;
    while j < mat.width
        invariant
            mat.width > 0,
            row < mat.rows(),
            j <= mat.width,
            acc@.len() == mat.width,
            before.len() == mat.width,
            forall|k: int|
                0 <= k < j ==> #[trigger] acc@[k] == before[k].plus(
                    s.times(ext::embed(mat.at(row as int, k))),
                ),
            forall|k: int| j <= k < mat.width ==> #[trigger] acc@[k] == before[k],
        decreases mat.width - j,
    {
        let value: Ext = acc[j].add(s.mul(Ext::from_base(mat.get(row, j))));
        acc.set(j, value);
        j = j + 1;
    }
}

/// The sums of the columns before scaling.
pub open spec fn partial_sums(
    mat: Matrix<Felt>,
    log_h: nat,
    diff_invs: Seq<Ext>,
    n: nat,
    c: int,
) -> Ext {
    ring::sum(
        n,
        |i: int|
            weight(log_h, diff_invs, i).times(
                ext::embed(mat.at(bits::bitrev(i as nat, log_h) as int, c)),
            ),
    )
}

fn zero_row(width: usize) -> (r: Vec<Ext>)
    ensures
        r@ == Seq::new(width as nat, |j: int| Ext::zero_spec()),
{
    let mut r: Vec<Ext> = Vec::new();
    let mut j: usize = 0;
    while j < width
        invariant
            j <= width,
            r@ == Seq::new(j as nat, |k: int| Ext::zero_spec()),
        decreases width - j,
    {
        r.push(Ext::zero());
        j = j + 1;
        assert(r@ =~= Seq::new(j as nat, |k: int| Ext::zero_spec()));
    }
    r
}

/// Multiplies every entry with `s`.
fn scale_vec(s: Ext, v: Vec<Ext>) -> (r: Vec<Ext>)
    ensures
        r@ == Seq::new(v@.len(), |j: int| s.times(v@[j])),
{
    let mut r: Vec<Ext> = Vec::new();
    let mut j: usize = 0;
    while j < v.len()
        invariant
            j <= v@.len(),
            r@ == Seq::new(j as nat, |k: int| s.times(v@[k])),
        decreases v@.len() - j,
    {
        r.push(s.mul(v[j]));
        j = j + 1;
        assert(r@ =~= Seq::new(j as nat, |k: int| s.times(v@[k])));
    }
    r
}

/// The values at `point` of the columns of a matrix whose first `2^log_h` rows are evaluations on
/// the coset of `shift` in bit-reversed order; `diff_invs[i]` is the inverse of `point - x_i`, for
/// the coset points `x_i` in natural order.
pub fn interpolate_coset_precomputed(
    mat: &Matrix<Felt>,
    log_h: usize,
    shift: Felt,
    point: Ext,
    diff_invs: &[Ext],
) -> (r: Vec<Ext>)
    requires
        log_h <= 27,
        mat.width > 0,
        pow2(log_h as nat) <= mat.rows(),
        diff_invs@.len() == pow2(log_h as nat),
        ring::reduced(shift) != Felt::zero_spec(),
    ensures
        r@ == Seq::new(
            mat.width as nat,
            |c: int| interpolated(*mat, log_h as nat, shift, point, diff_invs@, c),
        ),
{
    let col_scale: Vec<Ext> = column_scale(log_h, diff_invs);
    let mut acc: Vec<Ext> = zero_row(mat.width);
    let mut i: usize = 0;
    while i < diff_invs.len()
        invariant
            log_h <= 27,
            mat.width > 0,
            i <= diff_invs@.len(),
            diff_invs@.len() == pow2(log_h as nat),
            pow2(log_h as nat) <= mat.rows(),
            col_scale@.len() == diff_invs@.len(),
            forall|k: int|
                0 <= k < col_scale@.len() ==> #[trigger] col_scale@[k] == weight(
                    log_h as nat,
                    diff_invs@,
                    k,
                ),
            acc@.len() == mat.width,
            forall|c: int|
                0 <= c < mat.width ==> #[trigger] acc@[c] == partial_sums(
                    *mat,
                    log_h as nat,
                    diff_invs@,
                    i as nat,
                    c,
                ),
        decreases diff_invs@.len() - i,
    {
        proof {
            bits::lemma_bitrev_bound(i as nat, log_h as nat);
            lemma2_to64();
        }
        let row: usize = p3_util::reverse_bits_len(i, log_h);
        add_scaled_row(&mut acc, mat, row, col_scale[i]);
        i = i + 1;
    }
    let denominator_inv: Felt = denominator_inverse(log_h, shift);
    let r: Vec<Ext> = scale_vec(scale_at(log_h, shift, point, denominator_inv), acc);
    assert(r@ =~= Seq::new(
        mat.width as nat,
        |c: int| interpolated(*mat, log_h as nat, shift, point, diff_invs@, c),
    ));
    r
}

/// The values at two points, reading the matrix once.
pub fn interpolate_coset_precomputed_2point(
    mat: &Matrix<Felt>,
    log_h: usize,
    shift: Felt,
    point0: Ext,
    diff_invs0: &[Ext],
    point1: Ext,
    diff_invs1: &[Ext],
) -> (r: (Vec<Ext>, Vec<Ext>))
    requires
        log_h <= 27,
        mat.width > 0,
        pow2(log_h as nat) <= mat.rows(),
        diff_invs0@.len() == pow2(log_h as nat),
        diff_invs1@.len() == pow2(log_h as nat),
        ring::reduced(shift) != Felt::zero_spec(),
    ensures
        r.0@ == Seq::new(
            mat.width as nat,
            |c: int| interpolated(*mat, log_h as nat, shift, point0, diff_invs0@, c),
        ),
        r.1@ == Seq::new(
            mat.width as nat,
            |c: int| interpolated(*mat, log_h as nat, shift, point1, diff_invs1@, c),
        ),
{
    let col_scale0: Vec<Ext> = column_scale(log_h, diff_invs0);
    let col_scale1: Vec<Ext> = column_scale(log_h, diff_invs1);
    let mut acc0: Vec<Ext> = zero_row(mat.width);
    let mut acc1: Vec<Ext> = zero_row(mat.width);
    let mut i: usize = 0;
    while i < diff_invs0.len()
        invariant
            log_h <= 27,
            mat.width > 0,
            i <= diff_invs0@.len(),
            diff_invs0@.len() == pow2(log_h as nat),
            diff_invs1@.len() == pow2(log_h as nat),
            pow2(log_h as nat) <= mat.rows(),
            col_scale0@.len() == diff_invs0@.len(),
            col_scale1@.len() == diff_invs1@.len(),
            forall|k: int|
                0 <= k < col_scale0@.len() ==> #[trigger] col_scale0@[k] == weight(
                    log_h as nat,
                    diff_invs0@,
                    k,
                ),
            forall|k: int|
                0 <= k < col_scale1@.len() ==> #[trigger] col_scale1@[k] == weight(
                    log_h as nat,
                    diff_invs1@,
                    k,
                ),
            acc0@.len() == mat.width,
            acc1@.len() == mat.width,
            forall|c: int|
                0 <= c < mat.width ==> #[trigger] acc0@[c] == partial_sums(
                    *mat,
                    log_h as nat,
                    diff_invs0@,
                    i as nat,
                    c,
                ),
            forall|c: int|
                0 <= c < mat.width ==> #[trigger] acc1@[c] == partial_sums(
                    *mat,
                    log_h as nat,
                    diff_invs1@,
                    i as nat,
                    c,
                ),
        decreases diff_invs0@.len() - i,
    {
        proof {
            bits::lemma_bitrev_bound(i as nat, log_h as nat);
            lemma2_to64();
        }
        let row: usize = p3_util::reverse_bits_len(i, log_h);
        add_scaled_row(&mut acc0, mat, row, col_scale0[i]);
        add_scaled_row(&mut acc1, mat, row, col_scale1[i]);
        i = i + 1;
    }
    let denominator_inv: Felt = denominator_inverse(log_h, shift);
    let r0: Vec<Ext> = scale_vec(scale_at(log_h, shift, point0, denominator_inv), acc0);
    let r1: Vec<Ext> = scale_vec(scale_at(log_h, shift, point1, denominator_inv), acc1);
    assert(r0@ =~= Seq::new(
        mat.width as nat,
        |c: int| interpolated(*mat, log_h as nat, shift, point0, diff_invs0@, c),
    ));
    assert(r1@ =~= Seq::new(
        mat.width as nat,
        |c: int| interpolated(*mat, log_h as nat, shift, point1, diff_invs1@, c),
    ));
    (r0, r1)
}

/// Coefficients in BabyBear as coefficients in the extension.
pub open spec fn embedded(coeffs: Seq<Felt>) -> Seq<Ext> {
    Seq::new(coeffs.len(), |i: int| ext::embed(coeffs[i]))
}

/// A polynomial over BabyBear has the same values in the extension.
pub proof fn lemma_embed_poly(coeffs: Seq<Felt>, x: Felt)
    ensures
        ext::embed(ring::poly(coeffs, x)) == ring::poly(embedded(coeffs), ext::embed(x)),
{
    let f = |i: int| coeffs[i].times(ring::pow(x, i as nat));
    let g = |i: int| embedded(coeffs)[i].times(ring::pow(ext::embed(x), i as nat));
    assert forall|i: int| 0 <= i < coeffs.len() implies ext::embed(#[trigger] f(i)) == g(i) by {
        ext::lemma_embed_pow(x, i as nat);
        ext::lemma_embed(coeffs[i], ring::pow(x, i as nat));
    }
    lemma_embed_sum(coeffs.len(), f, g);
}

proof fn lemma_embed_sum(n: nat, f: spec_fn(int) -> Felt, g: spec_fn(int) -> Ext)
    requires
        forall|i: int| 0 <= i < n ==> ext::embed(#[trigger] f(i)) == g(i),
    ensures
        ext::embed(ring::sum(n, f)) == ring::sum(n, g),
    decreases n,
{
    if n > 0 {
        lemma_embed_sum((n - 1) as nat, f, g);
        ext::lemma_embed(ring::sum((n - 1) as nat, f), f(n - 1));
    }
}

proof fn lemma_count(n: nat)
    ensures
        barycentric::count::<Ext>(n) == ext::embed(babybear::felt(n as int)),
    decreases n,
{
    if n > 0 {
        lemma_count((n - 1) as nat);
        ext::lemma_embed(babybear::felt(n - 1), Felt::one_spec());
        lemma_add_mod_noop(n - 1, 1, P as int);
    }
}

/// What is interpolated at a point is the value there of the polynomial that the rows of the
/// matrix evaluate.
pub proof fn law_interpolation(
    mat: Matrix<Felt>,
    log_h: nat,
    shift: Felt,
    point: Ext,
    diff_invs: Seq<Ext>,
    c: int,
    coeffs: Seq<Felt>,
)
    requires
        log_h <= 27,
        ring::reduced(shift) != Felt::zero_spec(),
        coeffs.len() <= pow2(log_h),
        diff_invs.len() == pow2(log_h),
        forall|i: int|
            0 <= i < pow2(log_h) ==> #[trigger] diff_invs[i].times(
                ring::minus(point, ext::embed(barycentric::coset_point(shift, log_h, i as nat))),
            ) == Ext::one_spec(),
        forall|i: int|
            0 <= i < pow2(log_h) ==> #[trigger] mat.at(bits::bitrev(i as nat, log_h) as int, c)
                == ring::poly(coeffs, barycentric::coset_point(shift, log_h, i as nat)),
    ensures
        interpolated(mat, log_h, shift, point, diff_invs, c) == ring::poly(embedded(coeffs), point),
{
    let n = pow2(log_h);
    let s = ext::embed(shift);
    let ec = embedded(coeffs);
    assert forall|i: int| 0 <= i < n implies ext::embed(
        #[trigger] barycentric::coset_point(shift, log_h, i as nat),
    ) == barycentric::coset_point(s, log_h, i as nat) by {
        domain::lemma_root_embed(log_h);
        ext::lemma_embed_pow(Felt::root(log_h), i as nat);
        ext::lemma_embed(ring::pow(Felt::root(log_h), i as nat), shift);
    }
    assert forall|i: int| 0 <= i < n implies #[trigger] diff_invs[i].times(
        ring::minus(point, barycentric::coset_point(s, log_h, i as nat)),
    ) == Ext::one_spec() by {
        let x = barycentric::coset_point(shift, log_h, i as nat);
        assert(ext::embed(x) == barycentric::coset_point(s, log_h, i as nat));
        assert(diff_invs[i].times(ring::minus(point, ext::embed(x))) == Ext::one_spec());
    }
    barycentric::law_barycentric(log_h, s, point, diff_invs, ec);
    let f = |i: int|
        weight(log_h, diff_invs, i).times(
            ext::embed(mat.at(bits::bitrev(i as nat, log_h) as int, c)),
        );
    let g = |i: int|
        diff_invs[i].times(ring::pow(Ext::root(log_h), i as nat)).times(
            ring::poly(ec, barycentric::coset_point(s, log_h, i as nat)),
        );
    assert forall|i: int| 0 <= i < n implies #[trigger] f(i) == g(i) by {
        domain::lemma_root_embed(log_h);
        ext::lemma_embed_pow(Felt::root(log_h), i as nat);
        lemma_embed_poly(coeffs, barycentric::coset_point(shift, log_h, i as nat));
    }
    ring::lemma_sum_ext(n, f, g);
    let total = ring::sum(n, g);
    let zer = ring::minus(ring::pow(point, n), ring::pow(s, n));
    let value = ring::poly(ec, point);
    // the factor of the coset cancels
    let d = coset_denominator(log_h, shift);
    let di = ring::inv(d);
    lemma_denominator_invertible(log_h, shift);
    lemma_count(n);
    ext::lemma_embed_pow(shift, (n - 1) as nat);
    ext::lemma_embed(babybear::felt(n as int), ring::pow(shift, (n - 1) as nat));
    ext::lemma_embed(d, di);
    let ed = ext::embed(d);
    let edi = ext::embed(di);
    ring::lemma_mul_left_comm(zer, edi, total);
    Ext::law_mul_comm(zer.times(total), edi);
    Ext::law_mul_assoc(edi, ed, value);
    Ext::law_mul_comm(edi, ed);
    ring::lemma_mul_one(value);
    ring::lemma_sum_reduced(ec.len(), |i: int| ec[i].times(ring::pow(point, i as nat)));
}

} // verus!
