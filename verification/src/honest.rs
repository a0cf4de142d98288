//! An honest opening is accepted: the combined codewords of committed matrices are of low degree,
//! the commit phase is left with a constant, and every query walks from the combined rows to that
//! constant.

use vstd::prelude::*;
use vstd::arithmetic::power2::*;
use vstd::arithmetic::div_mod::*;
use vstd::arithmetic::mul::*;
use crate::babybear::Felt;
use crate::barycentric;
use crate::bits;
use crate::denominators;
use crate::domain;
use crate::domain::TwoAdic;
use crate::ext;
use crate::ext::Ext;
use crate::fold;
use crate::fri;
use crate::interpolation;
use crate::lde;
use crate::lde::Coset;
use crate::matrix::Matrix;
use crate::pcs;
use crate::pcs::Opening;
use crate::polynomials;
use crate::prime;
use crate::query;
use crate::query::MatrixClaim;
use crate::reducer;
use crate::reduction;
use crate::reduction::Combined;
use crate::ring;
use crate::ring::Ring;
use crate::verify;
use crate::verify::QueryOpening;

verus! {

/// The point that row `j` of a committed matrix of height `2^l` belongs to.
pub open spec fn row_point(l: nat, j: nat) -> Ext {
    ext::embed(denominators::reversed_point(lde::generator(), l, j))
}

/// Whether a matrix is what is committed of the evaluations `evals` on `domain`.
pub open spec fn commits(domain: Coset, evals: Matrix<Felt>, log_blowup: nat, mat: Matrix<Felt>) -> bool {
    &&& lde::is_lde(domain, evals, log_blowup, mat)
    &&& evals.well_formed()
    &&& evals.rows() == pow2(domain.log_n as nat)
    &&& ring::reduced(domain.shift) != Felt::zero_spec()
}

/// Whether each matrix of the rounds is what is committed of some evaluations.
pub open spec fn all_committed(
    rounds: Seq<(&Vec<Matrix<Felt>>, &Vec<Vec<Ext>>)>,
    log_blowup: nat,
) -> bool {
    forall|k: int, i: int|
        0 <= k < rounds.len() && 0 <= i < rounds[k].0@.len() ==> exists|
            domain: Coset,
            evals: Matrix<Felt>,
        | commits(domain, evals, log_blowup, #[trigger] rounds[k].0@[i])
}

/// There are coefficients for every column of a matrix of evaluations.
proof fn lemma_column_coeffs(domain: Coset, evals: Matrix<Felt>, c: int) -> (coeffs: Seq<Felt>)
    requires
        evals.well_formed(),
        evals.rows() == pow2(domain.log_n as nat),
        domain.log_n <= 27,
        ring::reduced(domain.shift) != Felt::zero_spec(),
        0 <= c < evals.width,
    ensures
        coeffs.len() == pow2(domain.log_n as nat),
        lde::column_is(evals, c, domain.log_n as nat, domain.shift, coeffs),
{
    let n = domain.log_n as nat;
    let w = Felt::root(n);
    let values = Seq::new(pow2(n), |i: int| evals.at(i, c));
    let q = polynomials::lemma_interpolant(values, n);
    prime::law_nonzero_is_invertible(domain.shift);
    let s = choose|s: Felt| domain.shift.times(s) == Felt::one_spec();
    let coeffs = lde::scaled_coeffs(q, s);
    assert forall|i: nat| i < pow2(n) implies ring::reduced(#[trigger] evals.at(i as int, c))
        == ring::poly(coeffs, barycentric::coset_point(domain.shift, n, i)) by {
        let x = ring::pow(w, i);
        lde::lemma_poly_scaled(q, s, x.times(domain.shift));
        Felt::law_mul_assoc(x, domain.shift, s);
        ring::lemma_mul_one(x);
        ring::lemma_pow_reduced(w, i);
        assert(ring::poly(q, ring::pow(w, i)) == ring::reduced(values[i as int]));
    }
    coeffs
}

/// What is committed of evaluations is determined by them: extending them again gives the same
/// matrix.
pub proof fn law_extension_is_determined(
    domain: Coset,
    evals: Matrix<Felt>,
    log_blowup: nat,
    a: Matrix<Felt>,
    b: Matrix<Felt>,
)
    requires
        commits(domain, evals, log_blowup, a),
        commits(domain, evals, log_blowup, b),
        domain.log_n + log_blowup <= 27,
    ensures
        a.width == b.width,
        a.values@ == b.values@,
{
    let w = a.width as int;
    let large = domain.log_n as nat + log_blowup;
    lde::lemma_lde_rows(evals, log_blowup, a);
    lemma_pow2_adds(domain.log_n as nat, log_blowup);
    assert forall|p: int| 0 <= p < a.values@.len() implies #[trigger] a.values@[p]
        == b.values@[p] by {
        let (j, c) = (p / w, p % w);
        lemma_fundamental_div_mod(p, w);
        lemma_mul_is_commutative(w, j);
        lemma_fundamental_div_mod(a.values@.len() as int, w);
        lemma_mul_is_commutative(w, a.rows() as int);
        assert(0 <= j < pow2(large)) by {
            lemma_div_pos_is_pos(p, w);
            lemma_div_by_multiple_is_strongly_ordered(
                p,
                a.values@.len() as int,
                a.rows() as int,
                w,
            );
        }
        let coeffs = lemma_column_coeffs(domain, evals, c);
        assert(a.at(j as nat as int, c) == ring::poly(
            coeffs,
            denominators::reversed_point(lde::generator(), large, j as nat),
        ));
        assert(b.at(j as nat as int, c) == a.at(j as nat as int, c));
    }
    assert(a.values@ =~= b.values@);
}

/// Whether `p` is the combination of the columns of a matrix of height `2^l`: row by row over the
/// matrix, and over the opened values at each point.
spec fn combines(
    p: Seq<Ext>,
    mat: Matrix<Felt>,
    points: Seq<Ext>,
    ys: Seq<Vec<Ext>>,
    alpha: Ext,
    l: nat,
    log_blowup: nat,
) -> bool {
    &&& p.len() == pow2((l - log_blowup) as nat)
    &&& bits::log2(mat.rows()) == l
    &&& forall|j: nat|
        j < pow2(l) ==> #[trigger] reduction::row_sum(mat, alpha, j as int) == ring::poly(
            p,
            row_point(l, j),
        )
    &&& forall|t: int|
        0 <= t < points.len() ==> reduction::value_sum((#[trigger] ys[t])@, alpha) == ring::poly(
            p,
            points[t],
        )
    &&& forall|t: int, j: nat|
        0 <= t < points.len() && j < pow2(l) ==> ring::invertible(
            ring::minus(#[trigger] row_point(l, j), #[trigger] points[t]),
        )
}

/// What the opening of a matrix at a point adds is a multiple of a quotient polynomial.
proof fn lemma_claim(
    p: Seq<Ext>,
    mat: Matrix<Felt>,
    points: Seq<Ext>,
    ys: Seq<Vec<Ext>>,
    alpha: Ext,
    l: nat,
    log_blowup: nat,
    t: int,
    offset: nat,
    j: nat,
)
    requires
        combines(p, mat, points, ys, alpha, l, log_blowup),
        0 <= t < points.len(),
        j < pow2(l),
    ensures
        reduction::claim(mat, points[t], ys[t]@, alpha, offset, j) == ring::pow(alpha, offset).times(
            ring::poly(polynomials::divided(p, points[t]), row_point(l, j)),
        ),
{
    let z = points[t];
    let x = row_point(l, j);
    let d = ring::minus(x, z);
    let a = ring::pow(alpha, offset);
    let q = ring::poly(polynomials::divided(p, z), x);
    assert(ring::invertible(ring::minus(row_point(l, j), points[t])));
    let s = choose|s: Ext| d.times(s) == Ext::one_spec();
    ring::lemma_inv(d, s);
    let i = ring::inv(d);
    polynomials::lemma_divided(p, z, x);
    assert(reduction::value_sum(ys[t]@, alpha) == ring::poly(p, z));
    assert(reduction::row_sum(mat, alpha, j as int) == ring::poly(p, x));
    ring::lemma_mul_swap(i, a, d, q);
    Ext::law_mul_comm(d, i);
    ring::lemma_mul_one(a.times(q));
    ring::lemma_mul_reduced(a, q);
}

/// Adding the points of a matrix keeps the combination a polynomial.
proof fn lemma_points(
    s: spec_fn(nat) -> Combined,
    offset: nat,
    w: Seq<Ext>,
    p: Seq<Ext>,
    mat: Matrix<Felt>,
    points: Seq<Ext>,
    ys: Seq<Vec<Ext>>,
    alpha: Ext,
    l: nat,
    log_blowup: nat,
    n: nat,
) -> (r: (nat, Seq<Ext>))
    requires
        n <= points.len(),
        combines(p, mat, points, ys, alpha, l, log_blowup),
        w.len() == pow2((l - log_blowup) as nat),
        forall|j: nat|
            j < pow2(l) ==> #[trigger] s(j) == (offset, ring::poly(w, row_point(l, j))),
    ensures
        r.1.len() == pow2((l - log_blowup) as nat),
        forall|j: nat|
            j < pow2(l) ==> #[trigger] reduction::add_points(s(j), mat, points, ys, alpha, j, n) == (
                r.0,
                ring::poly(r.1, row_point(l, j)),
            ),
    decreases n,
{
    if n == 0 {
        (offset, w)
    } else {
        let m = (n - 1) as nat;
        let t = lemma_points(s, offset, w, p, mat, points, ys, alpha, l, log_blowup, m);
        let z = points[m as int];
        let a = ring::pow(alpha, t.0);
        let q = polynomials::divided(p, z);
        polynomials::lemma_divided(p, z, z);
        let r = (t.0 + mat.width as nat, polynomials::linear(t.1, q, a));
        assert forall|j: nat| j < pow2(l) implies #[trigger] reduction::add_points(
            s(j),
            mat,
            points,
            ys,
            alpha,
            j,
            n,
        ) == (r.0, ring::poly(r.1, row_point(l, j))) by {
            assert(reduction::add_points(s(j), mat, points, ys, alpha, j, m) == (
                t.0,
                ring::poly(t.1, row_point(l, j)),
            ));
            lemma_claim(p, mat, points, ys, alpha, l, log_blowup, m as int, t.0, j);
            polynomials::lemma_poly_linear(t.1, q, a, row_point(l, j));
        }
        r
    }
}

/// Whether a matrix of height `2^l` has a combination.
spec fn has_combination(
    mat: Matrix<Felt>,
    points: Seq<Ext>,
    ys: Seq<Vec<Ext>>,
    alpha: Ext,
    l: nat,
    log_blowup: nat,
) -> bool {
    exists|p: Seq<Ext>| combines(p, mat, points, ys, alpha, l, log_blowup)
}

/// Adding the matrices of a round keeps the combination a polynomial.
proof fn lemma_matrices(
    s: spec_fn(nat) -> Combined,
    offset: nat,
    w: Seq<Ext>,
    mats: Seq<Matrix<Felt>>,
    points: Seq<Vec<Ext>>,
    opened: Seq<Vec<Vec<Ext>>>,
    alpha: Ext,
    l: nat,
    log_blowup: nat,
    n: nat,
) -> (r: (nat, Seq<Ext>))
    requires
        w.len() == pow2((l - log_blowup) as nat),
        forall|j: nat|
            j < pow2(l) ==> #[trigger] s(j) == (offset, ring::poly(w, row_point(l, j))),
        forall|i: int|
            0 <= i < n && bits::log2((#[trigger] mats[i]).rows()) == l ==> has_combination(
                mats[i],
                points[i]@,
                opened[i]@,
                alpha,
                l,
                log_blowup,
            ),
    ensures
        r.1.len() == pow2((l - log_blowup) as nat),
        forall|j: nat|
            j < pow2(l) ==> #[trigger] reduction::add_matrices(
                s(j),
                l,
                mats,
                points,
                opened,
                alpha,
                j,
                n,
            ) == (r.0, ring::poly(r.1, row_point(l, j))),
    decreases n,
{
    if n == 0 {
        (offset, w)
    } else {
        let m = (n - 1) as nat;
        let t = lemma_matrices(s, offset, w, mats, points, opened, alpha, l, log_blowup, m);
        let before = |j: nat| reduction::add_matrices(s(j), l, mats, points, opened, alpha, j, m);
        let mat = mats[m as int];
        if bits::log2(mat.rows()) == l {
            assert(has_combination(mat, points[m as int]@, opened[m as int]@, alpha, l, log_blowup));
            let p = choose|p: Seq<Ext>|
                combines(p, mat, points[m as int]@, opened[m as int]@, alpha, l, log_blowup);
            let r = lemma_points(
                before,
                t.0,
                t.1,
                p,
                mat,
                points[m as int]@,
                opened[m as int]@,
                alpha,
                l,
                log_blowup,
                points[m as int]@.len(),
            );
            assert forall|j: nat| j < pow2(l) implies #[trigger] reduction::add_matrices(
                s(j),
                l,
                mats,
                points,
                opened,
                alpha,
                j,
                n,
            ) == (r.0, ring::poly(r.1, row_point(l, j))) by {
                assert(reduction::add_points(
                    before(j),
                    mat,
                    points[m as int]@,
                    opened[m as int]@,
                    alpha,
                    j,
                    points[m as int]@.len(),
                ) == (r.0, ring::poly(r.1, row_point(l, j))));
            }
            r
        } else {
            assert forall|j: nat| j < pow2(l) implies #[trigger] reduction::add_matrices(
                s(j),
                l,
                mats,
                points,
                opened,
                alpha,
                j,
                n,
            ) == (t.0, ring::poly(t.1, row_point(l, j))) by {
                assert(before(j) == (t.0, ring::poly(t.1, row_point(l, j))));
            }
            t
        }
    }
}

/// The combination of the first `n` rounds at height `2^l` is a polynomial.
proof fn lemma_rounds(
    rounds: Seq<(&Vec<Matrix<Felt>>, &Vec<Vec<Ext>>)>,
    opened: Seq<Vec<Vec<Vec<Ext>>>>,
    alpha: Ext,
    l: nat,
    log_blowup: nat,
    n: nat,
) -> (r: (nat, Seq<Ext>))
    requires
        n <= rounds.len(),
        forall|k: int, i: int|
            0 <= k < n && 0 <= i < pcs::opened_count(rounds[k].0@, rounds[k].1@) && bits::log2(
                (#[trigger] rounds[k].0@[i]).rows(),
            ) == l ==> has_combination(
                rounds[k].0@[i],
                rounds[k].1@[i]@,
                opened[k]@[i]@,
                alpha,
                l,
                log_blowup,
            ),
    ensures
        r.1.len() == pow2((l - log_blowup) as nat),
        forall|j: nat|
            j < pow2(l) ==> #[trigger] reduction::add_rounds(l, rounds, opened, alpha, j, n) == (
                r.0,
                ring::poly(r.1, row_point(l, j)),
            ),
    decreases n,
{
    if n == 0 {
        let w = Seq::new(pow2((l - log_blowup) as nat), |k: int| Ext::zero_spec());
        assert forall|j: nat| j < pow2(l) implies #[trigger] reduction::add_rounds(
            l,
            rounds,
            opened,
            alpha,
            j,
            n,
        ) == (0nat, ring::poly(w, row_point(l, j))) by {
            let x = row_point(l, j);
            let f = |i: int| w[i].times(ring::pow(x, i as nat));
            assert forall|i: int| 0 <= i < w.len() implies #[trigger] f(i) == Ext::zero_spec() by {
                ring::lemma_mul_zero(ring::pow(x, i as nat));
            }
            ring::lemma_sum_zero(w.len(), f);
        }
        (0, w)
    } else {
        let m = (n - 1) as nat;
        let t = lemma_rounds(rounds, opened, alpha, l, log_blowup, m);
        let before = |j: nat| reduction::add_rounds(l, rounds, opened, alpha, j, m);
        let (mats, points) = (rounds[m as int].0@, rounds[m as int].1@);
        let count = pcs::opened_count(mats, points);
        let r = lemma_matrices(
            before,
            t.0,
            t.1,
            mats,
            points,
            opened[m as int]@,
            alpha,
            l,
            log_blowup,
            count,
        );
        assert forall|j: nat| j < pow2(l) implies #[trigger] reduction::add_rounds(
            l,
            rounds,
            opened,
            alpha,
            j,
            n,
        ) == (r.0, ring::poly(r.1, row_point(l, j))) by {
            assert(reduction::add_matrices(
                before(j),
                l,
                mats,
                points,
                opened[m as int]@,
                alpha,
                j,
                count,
            ) == (r.0, ring::poly(r.1, row_point(l, j))));
        }
        r
    }
}

/// A committed matrix has a combination with its opened values.
proof fn lemma_combination(
    rounds: Seq<(&Vec<Matrix<Felt>>, &Vec<Vec<Ext>>)>,
    opening: Opening,
    log_blowup: nat,
    alpha: Ext,
    k: int,
    i: int,
    domain: Coset,
    evals: Matrix<Felt>,
)
    requires
        pcs::openable(rounds, log_blowup),
        opening.opens(rounds, log_blowup),
        0 <= k < rounds.len(),
        0 <= i < pcs::opened_count(rounds[k].0@, rounds[k].1@),
        commits(domain, evals, log_blowup, rounds[k].0@[i]),
    ensures
        has_combination(
            rounds[k].0@[i],
            rounds[k].1@[i]@,
            opening.opened_values@[k]@[i]@,
            alpha,
            bits::log2(rounds[k].0@[i].rows()),
            log_blowup,
        ),
{
    let mat = rounds[k].0@[i];
    let points = rounds[k].1@[i]@;
    let ys = opening.opened_values@[k]@[i]@;
    let log_n = domain.log_n as nat;
    let l = log_n + log_blowup;
    assert(pcs::is_leaf(rounds[k].0@[i], log_blowup));
    lde::lemma_lde_rows(evals, log_blowup, mat);
    lemma_pow2_adds(log_n, log_blowup);
    bits::lemma_log2_pow2(l);
    assert(bits::log2(mat.rows()) == l);
    assert forall|c: int| 0 <= c < evals.width implies #[trigger] has_column(domain, evals, c) by {
        let coeffs = lemma_column_coeffs(domain, evals, c);
        assert(is_column(domain, evals, c, coeffs));
    }
    let columns = Seq::new(
        evals.width as nat,
        |c: int| choose|coeffs: Seq<Felt>| is_column(domain, evals, c, coeffs),
    );
    let polys = Seq::new(evals.width as nat, |c: int| interpolation::embedded(columns[c]));
    assert forall|c: int| 0 <= c < evals.width implies is_column(
        domain,
        evals,
        c,
        #[trigger] columns[c],
    ) by {
        assert(has_column(domain, evals, c));
    }
    let n = pow2(log_n);
    assert forall|c: int| 0 <= c < polys.len() implies (#[trigger] polys[c]).len() == n by {
        assert(is_column(domain, evals, c, columns[c]));
    }
    let p = polynomials::mixed(polys, alpha, n);
    assert forall|j: nat| j < pow2(l) implies #[trigger] reduction::row_sum(mat, alpha, j as int)
        == ring::poly(p, row_point(l, j)) by {
        let x = denominators::reversed_point(lde::generator(), l, j);
        polynomials::lemma_poly_mixed(polys, alpha, n, row_point(l, j));
        let f = |c: int| ring::pow(alpha, c as nat).times(ext::embed(mat.at(j as int, c)));
        let g = |c: int| ring::pow(alpha, c as nat).times(ring::poly(polys[c], row_point(l, j)));
        assert forall|c: int| 0 <= c < mat.width implies #[trigger] f(c) == g(c) by {
            assert(is_column(domain, evals, c, columns[c]));
            assert(mat.at(j as int, c) == ring::poly(columns[c], x));
            interpolation::lemma_embed_poly(columns[c], x);
        }
        ring::lemma_sum_ext(mat.width as nat, f, g);
    }
    assert(pcs::round_opened(
        rounds[k].0@,
        rounds[k].1@,
        log_blowup,
        opening.opened_values@[k]@,
    ));
    assert forall|t: int| 0 <= t < points.len() implies reduction::value_sum(
        (#[trigger] ys[t])@,
        alpha,
    ) == ring::poly(p, points[t]) by {
        let y = ys[t]@;
        assert(opening.opened_values@[k]@[i]@[t]@ == pcs::opened_row(mat, log_blowup, points[t]));
        polynomials::lemma_poly_mixed(polys, alpha, n, points[t]);
        let f = |c: int| ring::pow(alpha, c as nat).times(y[c]);
        let g = |c: int| ring::pow(alpha, c as nat).times(ring::poly(polys[c], points[t]));
        assert forall|c: int| 0 <= c < y.len() implies #[trigger] f(c) == g(c) by {
            assert(is_column(domain, evals, c, columns[c]));
            pcs::law_open_returns_committed(
                rounds,
                opening,
                log_blowup,
                k,
                i,
                t,
                c,
                domain,
                evals,
                columns[c],
            );
        }
        ring::lemma_sum_ext(y.len(), f, g);
    }
    pcs::lemma_covers_rounds(rounds, log_blowup, opening.inv_denoms@);
    assert(pcs::covers_round(opening.inv_denoms@, rounds[k].0@, rounds[k].1@));
    assert forall|t: int, j: nat| 0 <= t < points.len() && j < pow2(l) implies ring::invertible(
        ring::minus(#[trigger] row_point(l, j), #[trigger] points[t]),
    ) by {
        assert(pcs::covers(opening.inv_denoms@, rounds[k].1@[i]@[t], l));
        assert(row_point(l, j) == ext::embed(
            denominators::reversed_point(lde::generator(), l, j),
        ));
    }
    assert(combines(p, mat, points, ys, alpha, l, log_blowup));
}

spec fn has_column(domain: Coset, evals: Matrix<Felt>, c: int) -> bool {
    exists|coeffs: Seq<Felt>| is_column(domain, evals, c, coeffs)
}

spec fn is_column(domain: Coset, evals: Matrix<Felt>, c: int, coeffs: Seq<Felt>) -> bool {
    coeffs.len() == pow2(domain.log_n as nat) && lde::column_is(
        evals,
        c,
        domain.log_n as nat,
        domain.shift,
        coeffs,
    )
}

/// Whether `coeffs` is a polynomial of a degree below the length over the blowup factor, of which
/// the codeword of length `2^l` holds the evaluations.
spec fn is_word(word: Seq<Ext>, coeffs: Seq<Ext>, l: nat, log_blowup: nat) -> bool {
    coeffs.len() == pow2((l - log_blowup) as nat) && word == fold::evaluations(coeffs, l)
}

spec fn word_coeffs(word: Seq<Ext>, l: nat, log_blowup: nat) -> Seq<Ext> {
    choose|coeffs: Seq<Ext>| is_word(word, coeffs, l, log_blowup)
}

proof fn lemma_word(
    rounds: Seq<(&Vec<Matrix<Felt>>, &Vec<Vec<Ext>>)>,
    opening: Opening,
    words: Seq<Option<Vec<Ext>>>,
    log_blowup: nat,
    alpha: Ext,
    l: nat,
) -> (coeffs: Seq<Ext>)
    requires
        pcs::openable(rounds, log_blowup),
        opening.opens(rounds, log_blowup),
        all_committed(rounds, log_blowup),
        reduction::combined(words, rounds, opening.opened_values@, alpha),
        l < 32,
        words[l as int] is Some,
    ensures
        log_blowup <= l <= 27,
        words[l as int]->0@.len() == pow2(l),
        is_word(words[l as int]->0@, coeffs, l, log_blowup),
{
    let opened = opening.opened_values@;
    assert(reduction::has_height(l, rounds, rounds.len()));
    let (k0, i0) = choose|k: int, i: int|
        0 <= k < rounds.len() && 0 <= i < pcs::opened_count(rounds[k].0@, rounds[k].1@)
            && bits::log2((#[trigger] rounds[k].0@[i]).rows()) == l;
    assert(pcs::is_leaf(rounds[k0].0@[i0], log_blowup));
    assert forall|k: int, i: int|
        0 <= k < rounds.len() && 0 <= i < pcs::opened_count(rounds[k].0@, rounds[k].1@)
            && bits::log2((#[trigger] rounds[k].0@[i]).rows()) == l implies has_combination(
        rounds[k].0@[i],
        rounds[k].1@[i]@,
        opened[k]@[i]@,
        alpha,
        l,
        log_blowup,
    ) by {
        let (domain, evals) = choose|domain: Coset, evals: Matrix<Felt>|
            commits(domain, evals, log_blowup, rounds[k].0@[i]);
        lemma_combination(rounds, opening, log_blowup, alpha, k, i, domain, evals);
    }
    let (_, w) = lemma_rounds(rounds, opened, alpha, l, log_blowup, rounds.len());
    let g = ext::embed(lde::generator());
    let coeffs = lde::scaled_coeffs(w, g);
    let word = words[l as int]->0@;
    assert(word =~= fold::evaluations(coeffs, l)) by {
        assert forall|j: int| 0 <= j < word.len() implies #[trigger] word[j] == fold::evaluations(
            coeffs,
            l,
        )[j] by {
            assert(reduction::add_rounds(l, rounds, opened, alpha, j as nat, rounds.len()).1
                == ring::poly(w, row_point(l, j as nat)));
            let b = bits::bitrev(j as nat, l);
            let y = ring::pow(Felt::root(l), b);
            ext::lemma_embed(y, lde::generator());
            ext::lemma_embed_pow(Felt::root(l), b);
            domain::lemma_root_embed(l);
            lde::lemma_poly_scaled(w, g, ring::pow(Ext::root(l), b));
        }
    }
    coeffs
}

/// The combined codewords of committed matrices are evaluations of low-degree polynomials: the
/// quotients by which they are combined leave no remainder.
pub proof fn law_combined_of_low_degree(
    rounds: Seq<(&Vec<Matrix<Felt>>, &Vec<Vec<Ext>>)>,
    opening: Opening,
    words: Seq<Option<Vec<Ext>>>,
    log_blowup: nat,
    alpha: Ext,
) -> (coeffs: Seq<Seq<Ext>>)
    requires
        pcs::openable(rounds, log_blowup),
        opening.opens(rounds, log_blowup),
        all_committed(rounds, log_blowup),
        reduction::combined(words, rounds, opening.opened_values@, alpha),
    ensures
        fri::inputs_ok(words),
        fri::low_degree(words, coeffs, log_blowup),
{
    let coeffs = Seq::new(32, |l: int| word_coeffs(words[l]->0@, l as nat, log_blowup));
    assert forall|l: nat| l < words.len() && (#[trigger] words[l as int]) is Some implies {
        &&& words[l as int]->0@.len() == pow2(l)
        &&& l <= 29
        &&& is_word(words[l as int]->0@, coeffs[l as int], l, log_blowup)
    } by {
        let c = lemma_word(rounds, opening, words, log_blowup, alpha, l);
        assert(is_word(words[l as int]->0@, c, l, log_blowup));
    }
    coeffs
}

/// What a query computes on its way through the codewords: it starts with the combination at the
/// largest height, and at each step folds the pair that it makes with the sibling and adds the
/// combination at the new height.
#[verifier::opaque]
pub open spec fn walk(
    reduced_openings: Seq<Ext>,
    siblings: Seq<Ext>,
    log_max: nat,
    betas: Seq<Ext>,
    index: nat,
    n: nat,
) -> Ext
    decreases n,
{
    if n == 0 {
        reduced_openings[log_max as int]
    } else {
        let m = (n - 1) as nat;
        let value = walk(reduced_openings, siblings, log_max, betas, index, m);
        let i = index / pow2(m);
        let (r0, r1) = if i % 2 == 0 {
            (value, siblings[m as int])
        } else {
            (siblings[m as int], value)
        };
        fold::fold_pair(betas[m as int], (log_max - n) as nat, i / 2, r0, r1).plus(
            reduced_openings[log_max - n],
        )
    }
}

/// Whether the siblings are the entries next to those that the query points to.
pub open spec fn are_siblings(
    siblings: Seq<Ext>,
    input: Seq<Option<Vec<Ext>>>,
    log_max: nat,
    betas: Seq<Ext>,
    index: nat,
) -> bool {
    &&& siblings.len() == betas.len()
    &&& forall|n: nat|
        n < siblings.len() ==> #[trigger] siblings[n as int] == fri::codeword(
            input,
            log_max,
            betas,
            n,
        )[fri::sibling(index / pow2(n)) as int]
}

/// The entry of the input of height `2^l` that a query points to, zero where there is none.
pub open spec fn entry(input: Seq<Option<Vec<Ext>>>, log_max: nat, index: nat, l: nat) -> Ext {
    match input[l as int] {
        Some(v) => v@[(index / pow2((log_max - l) as nat)) as int],
        None => Ext::zero_spec(),
    }
}

/// Whether a query's combinations are the entries of the inputs that it points to.
pub open spec fn follows(
    reduced_openings: Seq<Ext>,
    input: Seq<Option<Vec<Ext>>>,
    log_max: nat,
    index: nat,
) -> bool {
    forall|l: nat|
        l <= log_max ==> #[trigger] reduced_openings[l as int] == entry(input, log_max, index, l)
}

/// One step of a walk meets the next codeword.
proof fn lemma_walk_step(
    word: Seq<Ext>,
    beta: Ext,
    input: Seq<Option<Vec<Ext>>>,
    l: nat,
    i: nat,
    sibling: Ext,
    added: Ext,
)
    requires
        word.len() == pow2(l + 1),
        i < pow2(l + 1),
        sibling == word[fri::sibling(i) as int],
        input[l as int] matches Some(v) ==> v@.len() == pow2(l) && added == v@[(i / 2) as int],
        input[l as int] is None ==> added == Ext::zero_spec(),
    ensures
        fri::fold_step(word, beta, input, l).len() == pow2(l),
        i / 2 < pow2(l),
        ({
            let (r0, r1) = if i % 2 == 0 {
                (word[i as int], sibling)
            } else {
                (sibling, word[i as int])
            };
            fold::fold_pair(beta, l, i / 2, r0, r1).plus(added)
        }) == fri::fold_step(word, beta, input, l)[(i / 2) as int],
{
    fold::lemma_folded_at(word, beta, l, i, sibling);
}

proof fn lemma_halved(index: nat, m: nat)
    ensures
        index / pow2(m + 1) == index / pow2(m) / 2,
{
    lemma_pow2_unfold(m + 1);
    lemma_pow2_pos(m);
    lemma_div_denominator(index as int, pow2(m) as int, 2);
    lemma_mul_is_commutative(pow2(m) as int, 2);
}

/// A walk from the entries of the inputs meets the codewords.
proof fn lemma_walk(
    reduced_openings: Seq<Ext>,
    siblings: Seq<Ext>,
    input: Seq<Option<Vec<Ext>>>,
    log_max: nat,
    betas: Seq<Ext>,
    index: nat,
    n: nat,
)
    requires
        fri::inputs_ok(input),
        fri::is_log_max(input, log_max),
        are_siblings(siblings, input, log_max, betas, index),
        index < pow2(log_max),
        n <= log_max,
        n <= betas.len(),
        follows(reduced_openings, input, log_max, index),
    ensures
        fri::codeword(input, log_max, betas, n).len() == pow2((log_max - n) as nat),
        index / pow2(n) < pow2((log_max - n) as nat),
        walk(reduced_openings, siblings, log_max, betas, index, n) == fri::codeword(
            input,
            log_max,
            betas,
            n,
        )[(index / pow2(n)) as int],
    decreases n,
{
    reveal_with_fuel(walk, 1);
    if n == 0 {
        lemma2_to64();
        assert(input[log_max as nat as int] is Some);
        assert(reduced_openings[log_max as int] == entry(input, log_max, index, log_max));
    } else {
        let m = (n - 1) as nat;
        lemma_walk(reduced_openings, siblings, input, log_max, betas, index, m);
        let l = (log_max - n) as nat;
        let word = fri::codeword(input, log_max, betas, m);
        let i = index / pow2(m);
        lemma_halved(index, m);
        assert((log_max - m) as nat == l + 1 && (log_max - l) as nat == n);
        assert(siblings[m as int] == word[fri::sibling(i) as int]);
        assert(reduced_openings[l as int] == entry(input, log_max, index, l));
        lemma_walk_step(
            word,
            betas[m as int],
            input,
            l,
            i,
            siblings[m as int],
            reduced_openings[l as int],
        );
    }
}

proof fn lemma_constant(word: Seq<Ext>, log_blowup: nat, j: int)
    requires
        fri::is_constant(word, log_blowup),
        0 <= j < word.len(),
    ensures
        ring::reduced(word[j]) == ring::reduced(word[0]),
{
}

/// A walk through codewords of low degree ends with the constant that the commit phase leaves.
proof fn lemma_walk_ends(
    reduced_openings: Seq<Ext>,
    siblings: Seq<Ext>,
    input: Seq<Option<Vec<Ext>>>,
    coeffs: Seq<Seq<Ext>>,
    log_blowup: nat,
    log_max: nat,
    betas: Seq<Ext>,
    index: nat,
)
    requires
        fri::inputs_ok(input),
        fri::is_log_max(input, log_max),
        fri::low_degree(input, coeffs, log_blowup),
        log_blowup <= log_max,
        betas.len() == log_max - log_blowup,
        are_siblings(siblings, input, log_max, betas, index),
        index < pow2(log_max),
        follows(reduced_openings, input, log_max, index),
    ensures
        fri::is_constant(fri::codeword(input, log_max, betas, betas.len()), log_blowup),
        ring::reduced(walk(reduced_openings, siblings, log_max, betas, index, betas.len()))
            == ring::reduced(fri::codeword(input, log_max, betas, betas.len())[0]),
{
    let n = betas.len();
    let word = fri::codeword(input, log_max, betas, n);
    let value = walk(reduced_openings, siblings, log_max, betas, index, n);
    let j = index / pow2(n);
    lemma_pow2_pos(n);
    lemma_div_pos_is_pos(index as int, pow2(n) as int);
    assert(word.len() == pow2(log_blowup) && j < pow2(log_blowup) && value == word[j as int]) by {
        lemma_walk(reduced_openings, siblings, input, log_max, betas, index, n);
        assert((log_max - n) as nat == log_blowup);
    }
    assert(fri::is_constant(word, log_blowup)) by {
        fri::law_commit_phase_completes(input, coeffs, log_blowup, log_max, betas);
    }
    lemma_constant(word, log_blowup, j as int);
}

/// The combination at a height at which no matrix is opened is zero.
proof fn lemma_no_height(
    rounds: Seq<(&Vec<Matrix<Felt>>, &Vec<Vec<Ext>>)>,
    opened: Seq<Vec<Vec<Vec<Ext>>>>,
    batches: Seq<Vec<MatrixClaim>>,
    rows: Seq<Vec<Vec<Felt>>>,
    log_blowup: nat,
    log_global: nat,
    index: nat,
    alpha: Ext,
    l: nat,
    n: nat,
)
    requires
        query::claims_match(rounds, opened, batches, rows, log_blowup, log_global, index),
        !reduction::has_height(l, rounds, rounds.len()),
        n <= rounds.len(),
    ensures
        query::add_batches(l, log_blowup, batches, rows, log_global, index, alpha, n).1
            == Ext::zero_spec(),
    decreases n,
{
    if n > 0 {
        let m = (n - 1) as nat;
        lemma_no_height(rounds, opened, batches, rows, log_blowup, log_global, index, alpha, l, m);
        let k = m as int;
        assert(query::batch_matches(
            rounds[k].0@,
            rounds[k].1@,
            opened[k]@,
            batches[k]@,
            rows[k]@,
            log_blowup,
            log_global,
            index,
        ));
        assert forall|i: int| 0 <= i < batches[k]@.len() implies (
        #[trigger] batches[k]@[i]).domain.log_n + log_blowup != l by {
            assert(bits::log2(rounds[k].0@[i].rows()) != l);
        }
        lemma_no_height_batch(
            query::add_batches(l, log_blowup, batches, rows, log_global, index, alpha, m),
            l,
            log_blowup,
            batches[k]@,
            rows[k]@,
            log_global,
            index,
            alpha,
            reducer::shorter(batches[k]@.len(), rows[k]@.len()),
        );
    }
}

proof fn lemma_no_height_batch(
    s: query::Running,
    l: nat,
    log_blowup: nat,
    mats: Seq<MatrixClaim>,
    rows: Seq<Vec<Felt>>,
    log_global: nat,
    index: nat,
    alpha: Ext,
    n: nat,
)
    requires
        n <= mats.len(),
        forall|i: int|
            0 <= i < mats.len() ==> (#[trigger] mats[i]).domain.log_n + log_blowup != l,
    ensures
        query::add_batch(s, l, log_blowup, mats, rows, log_global, index, alpha, n) == s,
    decreases n,
{
    if n > 0 {
        lemma_no_height_batch(
            s,
            l,
            log_blowup,
            mats,
            rows,
            log_global,
            index,
            alpha,
            (n - 1) as nat,
        );
        assert(mats[n - 1].domain.log_n + log_blowup != l);
    }
}

/// The rows that a query of an honest opening reads can be combined.
proof fn lemma_combinable<E>(
    rounds: Seq<(&Vec<Matrix<Felt>>, &Vec<Vec<Ext>>)>,
    opening: Opening,
    batches: Seq<Vec<MatrixClaim>>,
    query: QueryOpening<E>,
    log_blowup: nat,
)
    requires
        pcs::openable(rounds, log_blowup),
        opening.opens(rounds, log_blowup),
        query::claims_match(
            rounds,
            opening.opened_values@,
            batches,
            query.rows@,
            log_blowup,
            opening.log_global_max_height as nat,
            query.index as nat,
        ),
        query.index < pow2(opening.log_global_max_height as nat),
    ensures
        verify::combinable(query, batches, log_blowup, opening.log_global_max_height as nat),
{
    let g = opening.log_global_max_height as nat;
    let index = query.index as nat;
    pcs::lemma_covers_rounds(rounds, log_blowup, opening.inv_denoms@);
    assert forall|k: int|
        0 <= k < batches.len() && k < query.rows@.len() implies query::batch_ok(
        (#[trigger] batches[k])@,
        query.rows@[k]@,
        log_blowup,
        g,
        index,
    ) by {
        let mats = batches[k]@;
        assert(query::batch_matches(
            rounds[k].0@,
            rounds[k].1@,
            opening.opened_values@[k]@,
            mats,
            query.rows@[k]@,
            log_blowup,
            g,
            index,
        ));
        assert(pcs::covers_round(opening.inv_denoms@, rounds[k].0@, rounds[k].1@));
        assert forall|i: int| 0 <= i < mats.len() && i < query.rows@[k]@.len() implies {
            let log_height = (#[trigger] mats[i]).domain.log_n + log_blowup;
            &&& log_height <= g
            &&& log_height <= 27
            &&& forall|p: int|
                0 <= p < mats[i].points@.len() ==> ring::minus(
                    ext::embed(query::queried_point(log_height as nat, g, index)),
                    (#[trigger] mats[i].points@[p]).0,
                ) != Ext::zero_spec()
        } by {
            let l = bits::log2(rounds[k].0@[i].rows());
            assert(pcs::is_leaf(rounds[k].0@[i], log_blowup));
            let b = (g - l) as nat;
            lemma_pow2_adds(l, b);
            lemma_pow2_pos(b);
            lemma_mul_is_commutative(pow2(l) as int, pow2(b) as int);
            lemma_multiply_divide_lt(index as int, pow2(b) as int, pow2(l) as int);
            let j = index / pow2(b);
            assert forall|p: int| 0 <= p < mats[i].points@.len() implies ring::minus(
                ext::embed(query::queried_point(l, g, index)),
                (#[trigger] mats[i].points@[p]).0,
            ) != Ext::zero_spec() by {
                let z = rounds[k].1@[i]@[p];
                assert(mats[i].points@[p].0 == z);
                assert(pcs::covers(opening.inv_denoms@, rounds[k].1@[i]@[p], l));
                let x = denominators::reversed_point(lde::generator(), l, j);
                let d = ring::minus(ext::embed(x), z);
                assert(ring::invertible(d));
                let s = choose|s: Ext| d.times(s) == Ext::one_spec();
                ring::lemma_inv(d, s);
                ring::lemma_add_reduced(ext::embed(x), z.negated());
            }
        }
    }
}

/// The largest height is that of the highest combined codeword.
pub proof fn lemma_highest(
    rounds: Seq<(&Vec<Matrix<Felt>>, &Vec<Vec<Ext>>)>,
    opening: Opening,
    words: Seq<Option<Vec<Ext>>>,
    log_blowup: nat,
    alpha: Ext,
)
    requires
        pcs::openable(rounds, log_blowup),
        opening.opens(rounds, log_blowup),
        reduction::combined(words, rounds, opening.opened_values@, alpha),
        words[opening.log_global_max_height as int] is Some,
    ensures
        log_blowup <= opening.log_global_max_height <= 27,
        fri::is_log_max(words, opening.log_global_max_height as nat),
{
    let g = opening.log_global_max_height as nat;
    let (k, i) = choose|k: int, i: int|
        0 <= k < rounds.len() && 0 <= i < rounds[k].0@.len() && bits::log2(
            (#[trigger] rounds[k].0@[i]).rows(),
        ) == g;
    assert(pcs::is_leaf(rounds[k].0@[i], log_blowup));
    assert forall|k: int| g < k < words.len() implies (#[trigger] words[k]) is None by {
        assert(words[k as nat as int] is Some <==> reduction::has_height(
            k as nat,
            rounds,
            rounds.len(),
        ));
    }
}

/// The combination of a query's rows at a height is the entry of the codeword of that height, and
/// zero where there is none.
proof fn lemma_reduced_opening<E>(
    rounds: Seq<(&Vec<Matrix<Felt>>, &Vec<Vec<Ext>>)>,
    opening: Opening,
    words: Seq<Option<Vec<Ext>>>,
    batches: Seq<Vec<MatrixClaim>>,
    query: QueryOpening<E>,
    log_blowup: nat,
    alpha: Ext,
    l: nat,
)
    requires
        opening.opens(rounds, log_blowup),
        reduction::combined(words, rounds, opening.opened_values@, alpha),
        query::claims_match(
            rounds,
            opening.opened_values@,
            batches,
            query.rows@,
            log_blowup,
            opening.log_global_max_height as nat,
            query.index as nat,
        ),
        query.index < pow2(opening.log_global_max_height as nat),
        l <= opening.log_global_max_height,
        l < 32,
    ensures
        verify::reduced_opening(
            query,
            batches,
            log_blowup,
            opening.log_global_max_height as nat,
            alpha,
        )[l as int] == entry(
            words,
            opening.log_global_max_height as nat,
            query.index as nat,
            l,
        ),
{
    let g = opening.log_global_max_height as nat;
    let index = query.index as nat;
    assert(reducer::shorter(batches.len(), query.rows@.len()) == rounds.len());
    if words[l as int] is Some {
        query::law_verifier_agrees(
            rounds,
            opening,
            words,
            batches,
            query.rows@,
            log_blowup,
            index,
            alpha,
            l,
        );
    } else {
        lemma_no_height(
            rounds,
            opening.opened_values@,
            batches,
            query.rows@,
            log_blowup,
            g,
            index,
            alpha,
            l,
            rounds.len(),
        );
    }
}

/// An honest opening is accepted as a whole. Where every matrix is what is committed of some
/// evaluations, the values are those that the opening returns, and the rows and siblings that a
/// query reads are those of the prover, then whatever the challenges are: the rows can be combined,
/// the commit phase is left with a constant, and the query's walk from its combinations ends with
/// that constant.
pub proof fn law_honest_opening_is_accepted<E>(
    rounds: Seq<(&Vec<Matrix<Felt>>, &Vec<Vec<Ext>>)>,
    opening: Opening,
    words: Seq<Option<Vec<Ext>>>,
    batches: Seq<Vec<MatrixClaim>>,
    query: QueryOpening<E>,
    siblings: Seq<Ext>,
    log_blowup: nat,
    alpha: Ext,
    betas: Seq<Ext>,
)
    requires
        pcs::openable(rounds, log_blowup),
        opening.opens(rounds, log_blowup),
        all_committed(rounds, log_blowup),
        reduction::combined(words, rounds, opening.opened_values@, alpha),
        words[opening.log_global_max_height as int] is Some,
        query::claims_match(
            rounds,
            opening.opened_values@,
            batches,
            query.rows@,
            log_blowup,
            opening.log_global_max_height as nat,
            query.index as nat,
        ),
        query.index < pow2(opening.log_global_max_height as nat),
        betas.len() == opening.log_global_max_height - log_blowup,
        are_siblings(
            siblings,
            words,
            opening.log_global_max_height as nat,
            betas,
            query.index as nat,
        ),
    ensures
        fri::inputs_ok(words),
        fri::is_log_max(words, opening.log_global_max_height as nat),
        fri::is_constant(
            fri::codeword(words, opening.log_global_max_height as nat, betas, betas.len()),
            log_blowup,
        ),
        verify::combinable(query, batches, log_blowup, opening.log_global_max_height as nat),
        ring::reduced(
            walk(
                verify::reduced_opening(
                    query,
                    batches,
                    log_blowup,
                    opening.log_global_max_height as nat,
                    alpha,
                ),
                siblings,
                opening.log_global_max_height as nat,
                betas,
                query.index as nat,
                betas.len(),
            ),
        ) == ring::reduced(
            fri::codeword(words, opening.log_global_max_height as nat, betas, betas.len())[0],
        ),
{
    let g = opening.log_global_max_height as nat;
    let index = query.index as nat;
    lemma_highest(rounds, opening, words, log_blowup, alpha);
    let coeffs = law_combined_of_low_degree(rounds, opening, words, log_blowup, alpha);
    lemma_combinable(rounds, opening, batches, query, log_blowup);
    let ro = verify::reduced_opening(query, batches, log_blowup, g, alpha);
    assert(follows(ro, words, g, index)) by {
        assert forall|l: nat| l <= g implies #[trigger] ro[l as int] == entry(words, g, index, l) by {
            lemma_reduced_opening(rounds, opening, words, batches, query, log_blowup, alpha, l);
        }
    }
    lemma_walk_ends(ro, siblings, words, coeffs, log_blowup, g, betas, index);
}

} // verus!
