//! Inverses of the distances between coset points and opening points.

use vstd::prelude::*;
use vstd::arithmetic::power2::*;
use vstd::arithmetic::mul::*;
use p3_baby_bear::BabyBear;
use p3_field::{AbstractExtensionField, AbstractField, PrimeField32};
use p3_util::linear_map::LinearMap;
use crate::babybear::{Felt, P};
use crate::barycentric;
use crate::bits;
use crate::domain;
use crate::domain::TwoAdic;
use crate::ext;
use crate::ext::Ext;
use crate::field::Field;
use crate::matrix::{Dimensions, Matrix};
use crate::ring;
use crate::ring::Ring;

verus! {

/// The canonical coordinates of a point.
pub type PointKey = (u32, u32, u32, u32);

/// `p3_util::linear_map::LinearMap`, a map held as a list of pairs.
#[verifier::external_type_specification]
#[verifier::external_body]
#[verifier::reject_recursive_types(K)]
#[verifier::reject_recursive_types(V)]
pub struct ExLinearMap<K, V>(LinearMap<K, V>);

/// What a map from points to numbers holds.
pub uninterp spec fn linear_map_contents(m: LinearMap<(u32, u32, u32, u32), usize>) -> Map<(u32, u32, u32, u32), usize>;

/// Calls `LinearMap::new`: the new map holds nothing.
#[verifier::external_body]
fn linear_map_new() -> (r: LinearMap<PointKey, usize>)
    ensures
        linear_map_contents(r) =~= Map::empty(),
{
    LinearMap::new()
}

/// Calls `LinearMap::get`: the value of the key, if the map holds the key.
#[verifier::external_body]
fn linear_map_get(m: &LinearMap<PointKey, usize>, k: PointKey) -> (r: Option<usize>)
    ensures
        r == (if linear_map_contents(*m).contains_key(k) {
            Some(linear_map_contents(*m)[k])
        } else {
            None
        }),
{
    m.get(&k).copied()
}

/// Calls `LinearMap::insert`: the key has the new value; other keys are unchanged. The value
/// that the key had before is dropped.
#[verifier::external_body]
fn linear_map_insert(m: &mut LinearMap<PointKey, usize>, k: PointKey, v: usize)
    ensures
        linear_map_contents(*final(m)) == linear_map_contents(*old(m)).insert(k, v),
{
    m.insert(k, v);
}

/// Calls `LinearMap::into_iter`: every pair of the map, each key once.
#[verifier::external_body]
fn linear_map_entries(m: LinearMap<PointKey, usize>) -> (r: Vec<(PointKey, usize)>)
    ensures
        forall|i: int|
            0 <= i < r@.len() ==> linear_map_contents(m).contains_key((#[trigger] r@[i]).0)
                && linear_map_contents(m)[r@[i].0] == r@[i].1,
        forall|i: int, j: int| 0 <= i < j < r@.len() ==> (#[trigger] r@[i]).0 != (#[trigger] r@[j]).0,
        forall|k: PointKey| #[trigger]
            linear_map_contents(m).contains_key(k) ==> exists|i: int|
                0 <= i < r@.len() && (#[trigger] r@[i]).0 == k,
{
    m.into_iter().collect()
}

/// Calls `p3_field::batch_multiplicative_inverse` on extension elements, none of them zero: the
/// result holds the inverse of each, in canonical form.
#[verifier::external_body]
pub(crate) fn batch_multiplicative_inverse(xs: &Vec<Ext>) -> (r: Vec<Ext>)
    requires
        forall|i: int| 0 <= i < xs@.len() ==> ring::reduced(#[trigger] xs@[i]) != Ext::zero_spec(),
    ensures
        r@.len() == xs@.len(),
        forall|i: int|
            0 <= i < xs@.len() ==> xs@[i].times(#[trigger] r@[i]) == Ext::one_spec()
                && ring::reduced(r@[i]) == r@[i],
{
    let wide = |a: &Ext| {
        let c = [a.c0.value, a.c1.value, a.c2.value, a.c3.value].map(BabyBear::from_wrapped_u32);
        p3_field::extension::BinomialExtensionField::<BabyBear, 4>::from_base_slice(&c)
    };
    let narrow = |a: &p3_field::extension::BinomialExtensionField<BabyBear, 4>| {
        let v: &[BabyBear] = a.as_base_slice();
        let f = |i: usize| Felt { value: v[i].as_canonical_u32() };
        Ext { c0: f(0), c1: f(1), c2: f(2), c3: f(3) }
    };
    let ys: Vec<_> = xs.iter().map(wide).collect();
    p3_field::batch_multiplicative_inverse(&ys).iter().map(narrow).collect()
}

pub open spec fn point_key(z: Ext) -> PointKey {
    let r = ring::reduced(z);
    (r.c0.value, r.c1.value, r.c2.value, r.c3.value)
}

pub open spec fn key_point(k: PointKey) -> Ext {
    Ext { c0: Felt { value: k.0 }, c1: Felt { value: k.1 }, c2: Felt { value: k.2 }, c3: Felt { value: k.3 } }
}

pub fn to_key(z: Ext) -> (r: PointKey)
    ensures
        r == point_key(z),
{
    (z.c0.value % P, z.c1.value % P, z.c2.value % P, z.c3.value % P)
}

/// The heights of a round's matrices, and the points that each is opened at.
pub type RoundShape = (Seq<nat>, Seq<Seq<Ext>>);

/// The largest height, as a logarithm, that each point is opened at, with a matrix of height
/// `2^log_height` added that is opened at the first `n` of `points`.
pub open spec fn note_points(
    m: Map<PointKey, usize>,
    log_height: nat,
    points: Seq<Ext>,
    n: nat,
) -> Map<PointKey, usize>
    decreases n,
{
    if n == 0 {
        m
    } else {
        let before = note_points(m, log_height, points, (n - 1) as nat);
        let key = point_key(points[n - 1]);
        if before.contains_key(key) && before[key] >= log_height {
            before
        } else {
            before.insert(key, log_height as usize)
        }
    }
}

/// As [`note_points`], for the first `n` matrices of a round.
pub open spec fn note_matrices(m: Map<PointKey, usize>, round: RoundShape, n: nat) -> Map<
    PointKey,
    usize,
>
    decreases n,
{
    if n == 0 {
        m
    } else {
        note_points(
            note_matrices(m, round, (n - 1) as nat),
            bits::log2(round.0[n - 1]),
            round.1[n - 1],
            round.1[n - 1].len(),
        )
    }
}

/// How many matrices of a round are opened: those that have points.
pub open spec fn round_len(round: RoundShape) -> nat {
    if round.0.len() <= round.1.len() {
        round.0.len()
    } else {
        round.1.len()
    }
}

/// As [`note_points`], for the first `n` rounds.
pub open spec fn note_rounds(rounds: Seq<RoundShape>, n: nat) -> Map<PointKey, usize>
    decreases n,
{
    if n == 0 {
        Map::empty()
    } else {
        let round = rounds[n - 1];
        note_matrices(note_rounds(rounds, (n - 1) as nat), round, round_len(round))
    }
}

/// The largest height, as a logarithm, that each point is opened at.
pub open spec fn point_heights(rounds: Seq<RoundShape>) -> Map<PointKey, usize> {
    note_rounds(rounds, rounds.len())
}

/// The heights are powers of two that the roots of unity reach.
pub open spec fn heights_ok(rounds: Seq<RoundShape>) -> bool {
    forall|r: int, i: int|
        0 <= r < rounds.len() && 0 <= i < round_len(rounds[r]) ==> bits::is_pow2(
            #[trigger] rounds[r].0[i],
        ) && bits::log2(rounds[r].0[i]) <= 27
}

/// The point with index `j` of the coset of order `2^log_n`, in bit-reversed order.
pub open spec fn reversed_point(shift: Felt, log_n: nat, j: nat) -> Felt {
    barycentric::coset_point(shift, log_n, bits::bitrev(j, log_n))
}

/// No point is on the coset that it is opened with.
pub open spec fn points_off_coset(heights: Map<PointKey, usize>, shift: Felt) -> bool {
    forall|k: PointKey, j: nat|
        heights.contains_key(k) && j < pow2(heights[k] as nat) ==> ring::minus(
            ext::embed(#[trigger] reversed_point(shift, heights[k] as nat, j)),
            key_point(k),
        ) != Ext::zero_spec()
}

pub open spec fn heights_bounded(m: Map<PointKey, usize>) -> bool {
    forall|k: PointKey| #[trigger] m.contains_key(k) ==> m[k] <= 27
}

proof fn lemma_note_points(m: Map<PointKey, usize>, log_height: nat, points: Seq<Ext>, n: nat)
    requires
        n <= points.len(),
        log_height <= 27,
        heights_bounded(m),
    ensures
        heights_bounded(note_points(m, log_height, points, n)),
        forall|k: PointKey| #[trigger]
            m.contains_key(k) ==> note_points(m, log_height, points, n).contains_key(k)
                && note_points(m, log_height, points, n)[k] >= m[k],
        forall|i: int|
            0 <= i < n ==> note_points(m, log_height, points, n).contains_key(
                #[trigger] point_key(points[i]),
            ) && note_points(m, log_height, points, n)[point_key(points[i])] >= log_height,
    decreases n,
{
    if n > 0 {
        lemma_note_points(m, log_height, points, (n - 1) as nat);
    }
}

proof fn lemma_note_matrices(m: Map<PointKey, usize>, round: RoundShape, n: nat)
    requires
        n <= round_len(round),
        forall|i: int|
            0 <= i < n ==> bits::is_pow2(#[trigger] round.0[i]) && bits::log2(round.0[i]) <= 27,
        heights_bounded(m),
    ensures
        heights_bounded(note_matrices(m, round, n)),
        forall|k: PointKey| #[trigger]
            m.contains_key(k) ==> note_matrices(m, round, n).contains_key(k) && note_matrices(
                m,
                round,
                n,
            )[k] >= m[k],
        forall|i: int, p: int|
            0 <= i < n && 0 <= p < round.1[i].len() ==> note_matrices(m, round, n).contains_key(
                #[trigger] point_key(round.1[i][p]),
            ) && note_matrices(m, round, n)[point_key(round.1[i][p])] >= bits::log2(round.0[i]),
    decreases n,
{
    if n > 0 {
        let before = note_matrices(m, round, (n - 1) as nat);
        lemma_note_matrices(m, round, (n - 1) as nat);
        lemma_note_points(
            before,
            bits::log2(round.0[n - 1]),
            round.1[n - 1],
            round.1[n - 1].len(),
        );
    }
}

/// Every point has an entry that is at least the height of each matrix that is opened at it.
pub proof fn lemma_note_rounds(rounds: Seq<RoundShape>, n: nat)
    requires
        n <= rounds.len(),
        heights_ok(rounds),
    ensures
        heights_bounded(note_rounds(rounds, n)),
        forall|r: int, i: int, p: int|
            0 <= r < n && 0 <= i < round_len(rounds[r]) && 0 <= p < rounds[r].1[i].len()
                ==> note_rounds(rounds, n).contains_key(#[trigger] point_key(rounds[r].1[i][p]))
                && note_rounds(rounds, n)[point_key(rounds[r].1[i][p])] >= bits::log2(
                rounds[r].0[i],
            ),
    decreases n,
{
    if n > 0 {
        let before = note_rounds(rounds, (n - 1) as nat);
        let round = rounds[n - 1];
        lemma_note_rounds(rounds, (n - 1) as nat);
        assert forall|i: int| 0 <= i < round_len(round) implies bits::is_pow2(
            #[trigger] round.0[i],
        ) && bits::log2(round.0[i]) <= 27 by {
            assert(rounds[n - 1].0[i] == round.0[i]);
        }
        lemma_note_matrices(before, round, round_len(round));
    }
}

/// For each opening point `z`, the inverses of `x - z` for the points `x` of the largest coset
/// that a matrix opened at `z` has, in bit-reversed order.
pub struct InverseDenominators {
    index: LinearMap<PointKey, usize>,
    inverses: Vec<Vec<Ext>>,
}

impl InverseDenominators {
    /// The inverses by the key of their point.
    pub closed spec fn view(&self) -> Map<PointKey, Seq<Ext>> {
        Map::new(
            |k: PointKey| linear_map_contents(self.index).contains_key(k),
            |k: PointKey| self.inverses@[linear_map_contents(self.index)[k] as int]@,
        )
    }

    pub closed spec fn well_formed(&self) -> bool {
        forall|k: PointKey| #[trigger]
            linear_map_contents(self.index).contains_key(k) ==> linear_map_contents(self.index)[k]
                < self.inverses@.len()
    }

    /// The inverses that belong to an opening point.
    pub fn get(&self, z: Ext) -> (r: Option<&Vec<Ext>>)
        requires
            self.well_formed(),
        ensures
            r is Some <==> self@.contains_key(point_key(z)),
            r matches Some(v) ==> v@ == self@[point_key(z)],
    {
        match linear_map_get(&self.index, to_key(z)) {
            Some(i) => Some(&self.inverses[i]),
            None => None,
        }
    }
}

/// What the inverse denominators hold for openings whose points have the heights `heights`.
pub open spec fn inverts(
    view: Map<PointKey, Seq<Ext>>,
    heights: Map<PointKey, usize>,
    shift: Felt,
) -> bool {
    &&& view.dom() == heights.dom()
    &&& forall|k: PointKey| #[trigger]
        view.contains_key(k) ==> view[k] == Seq::new(
            pow2(heights[k] as nat),
            |j: int|
                ring::inv(
                    ring::minus(
                        ext::embed(reversed_point(shift, heights[k] as nat, j as nat)),
                        key_point(k),
                    ),
                ),
        )
    &&& forall|k: PointKey, j: nat|
        view.contains_key(k) && j < pow2(heights[k] as nat) ==> ring::invertible(
            ring::minus(
                ext::embed(#[trigger] reversed_point(shift, heights[k] as nat, j)),
                key_point(k),
            ),
        )
}

pub open spec fn dims_shape(rounds: Seq<(Vec<Dimensions>, &Vec<Vec<Ext>>)>) -> Seq<RoundShape> {
    rounds.map_values(
        |r: (Vec<Dimensions>, &Vec<Vec<Ext>>)|
            (
                r.0@.map_values(|d: Dimensions| d.height as nat),
                r.1@.map_values(|p: Vec<Ext>| p@),
            ),
    )
}

fn note_points_in(m: &mut LinearMap<PointKey, usize>, log_height: usize, points: &Vec<Ext>)
    ensures
        linear_map_contents(*final(m)) == note_points(
            linear_map_contents(*old(m)),
            log_height as nat,
            points@,
            points@.len(),
        ),
{
    let ghost before = linear_map_contents(*m);
    let mut i: usize = 0;
    while i < points.len()
        invariant
            i <= points@.len(),
            linear_map_contents(*m) == note_points(before, log_height as nat, points@, i as nat),
        decreases points@.len() - i,
    {
        let key: PointKey = to_key(points[i]);
        match linear_map_get(m, key) {
            Some(lh) => {
                if lh < log_height {
                    linear_map_insert(m, key, log_height);
                }
            },
            None => {
                linear_map_insert(m, key, log_height);
            },
        }
        i = i + 1;
    }
}

/// The points of the coset of order `2^log_n` in bit-reversed order.
fn reversed_coset(shift: Felt, log_n: usize) -> (r: Vec<Felt>)
    requires
        log_n <= 27,
    ensures
        r@ == Seq::new(
            pow2(log_n as nat),
            |j: int| reversed_point(shift, log_n as nat, j as nat),
        ),
{
    let g: Felt = Felt::two_adic_generator(log_n);
    proof {
        lemma2_to64();
        if log_n < 27 {
            lemma_pow2_strictly_increases(log_n as nat, 27);
        }
        vstd::bits::lemma_usize_shl_is_mul(1, log_n);
        bits::lemma_log2_pow2(log_n as nat);
    }
    let size: usize = 1usize << log_n;
    let mut coset: Vec<Felt> = Vec::new();
    let mut power: Felt = Felt::one();
    let mut i: usize = 0;
    while i < size
        invariant
            i <= size,
            g == Felt::root(log_n as nat),
            power == ring::pow(g, i as nat),
            coset@ == Seq::new(
                i as nat,
                |k: int| barycentric::coset_point(shift, log_n as nat, k as nat),
            ),
        decreases size - i,
    {
        coset.push(power.mul(shift));
        power = power.mul(g);
        i = i + 1;
        assert(coset@ =~= Seq::new(
            i as nat,
            |k: int| barycentric::coset_point(shift, log_n as nat, k as nat),
        ));
    }
    let ghost natural = coset@;
    p3_util::reverse_slice_index_bits(coset.as_mut_slice());
    assert forall|j: int| 0 <= j < size implies #[trigger] coset@[j] == reversed_point(
        shift,
        log_n as nat,
        j as nat,
    ) by {
        bits::lemma_bitrev_bound(j as nat, log_n as nat);
        assert(coset@[j] == natural[bits::bitrev(j as nat, log_n as nat) as int]);
    }
    assert(coset@ =~= Seq::new(
        pow2(log_n as nat),
        |j: int| reversed_point(shift, log_n as nat, j as nat),
    ));
    coset
}

/// A smaller coset is a prefix of a larger one with the same shift, in bit-reversed order.
pub proof fn lemma_reversed_prefix(shift: Felt, log_small: nat, log_large: nat, j: nat)
    requires
        log_small <= log_large <= 27,
        j < pow2(log_small),
    ensures
        reversed_point(shift, log_small, j) == reversed_point(shift, log_large, j),
{
    let k = (log_large - log_small) as nat;
    bits::lemma_bitrev_shift(j, log_small, k);
    let e = bits::bitrev(j, log_small);
    domain::lemma_root_pow2::<Felt>(log_large, k);
    ring::lemma_pow_pow(Felt::root(log_large), pow2(k), e);
    lemma_mul_is_commutative(pow2(k) as int, e as int);
}

/// The largest height of each point, over all rounds.
fn collect_heights(rounds: &Vec<(Vec<Dimensions>, &Vec<Vec<Ext>>)>) -> (m: LinearMap<PointKey, usize>)
    requires
        heights_ok(dims_shape(rounds@)),
    ensures
        linear_map_contents(m) == point_heights(dims_shape(rounds@)),
{
    let ghost shape = dims_shape(rounds@);
    let mut m: LinearMap<PointKey, usize> = linear_map_new();
    let mut r: usize = 0;
    while r < rounds.len()
        invariant
            r <= rounds@.len(),
            shape == dims_shape(rounds@),
            heights_ok(shape),
            linear_map_contents(m) == note_rounds(shape, r as nat),
        decreases rounds@.len() - r,
    {
        let dims: &Vec<Dimensions> = &rounds[r].0;
        let points: &Vec<Vec<Ext>> = rounds[r].1;
        let ghost round = shape[r as int];
        let ghost before = linear_map_contents(m);
        let mut i: usize = 0;
        while i < dims.len() && i < points.len()
            invariant
                r < rounds@.len(),
                shape == dims_shape(rounds@),
                heights_ok(shape),
                round == shape[r as int],
                dims@ == rounds@[r as int].0@,
                points@ == rounds@[r as int].1@,
                i <= round_len(round),
                linear_map_contents(m) == note_matrices(before, round, i as nat),
            decreases dims@.len() - i,
        {
            assert(round.0[i as int] == dims@[i as int].height as nat);
            assert(round.1[i as int] == points@[i as int]@);
            assert(bits::is_pow2(shape[r as int].0[i as int]));
            let log_height: usize = p3_util::log2_strict_usize(dims[i].height);
            note_points_in(&mut m, log_height, &points[i]);
            i = i + 1;
        }
        r = r + 1;
    }
    m
}

/// The inverses of `x - z` for the first `2^log_height` points `x` of a coset.
fn distances_inverted(coset: &Vec<Felt>, len: usize, z: Ext) -> (r: Vec<Ext>)
    requires
        len <= coset@.len(),
        forall|j: int|
            0 <= j < len ==> ring::minus(ext::embed(#[trigger] coset@[j]), z) != Ext::zero_spec(),
    ensures
        r@ == Seq::new(len as nat, |j: int| ring::inv(ring::minus(ext::embed(coset@[j]), z))),
        forall|j: int|
            0 <= j < len ==> ring::invertible(ring::minus(ext::embed(#[trigger] coset@[j]), z)),
{
    let mut diffs: Vec<Ext> = Vec::new();
    let mut j: usize = 0;
    while j < len
        invariant
            j <= len <= coset@.len(),
            diffs@ == Seq::new(j as nat, |k: int| ring::minus(ext::embed(coset@[k]), z)),
        decreases len - j,
    {
        diffs.push(Ext::from_base(coset[j]).sub(z));
        j = j + 1;
        assert(diffs@ =~= Seq::new(j as nat, |k: int| ring::minus(ext::embed(coset@[k]), z)));
    }
    assert forall|j: int| 0 <= j < diffs@.len() implies ring::reduced(#[trigger] diffs@[j])
        != Ext::zero_spec() by {
        ring::lemma_add_reduced(ext::embed(coset@[j]), z.negated());
        assert(ring::minus(ext::embed(coset@[j]), z) != Ext::zero_spec());
    }
    let r: Vec<Ext> = batch_multiplicative_inverse(&diffs);
    assert forall|j: int| 0 <= j < r@.len() implies #[trigger] r@[j] == ring::inv(
        ring::minus(ext::embed(coset@[j]), z),
    ) by {
        ring::lemma_inv(diffs@[j], r@[j]);
    }
    assert forall|j: int| 0 <= j < len implies ring::invertible(
        ring::minus(ext::embed(#[trigger] coset@[j]), z),
    ) by {
        ring::lemma_inv(diffs@[j], r@[j]);
    }
    assert(r@ =~= Seq::new(
        len as nat,
        |j: int| ring::inv(ring::minus(ext::embed(coset@[j]), z)),
    ));
    r
}

/// The inverses of the distances between the opening points and the coset points, from the
/// sizes of the opened matrices.
pub fn compute_inverse_denominators_from_dims(
    rounds: &Vec<(Vec<Dimensions>, &Vec<Vec<Ext>>)>,
    _log_blowup: usize,
    coset_shift: Felt,
) -> (r: InverseDenominators)
    requires
        heights_ok(dims_shape(rounds@)),
        exists|k: PointKey| point_heights(dims_shape(rounds@)).contains_key(k),
        points_off_coset(point_heights(dims_shape(rounds@)), coset_shift),
    ensures
        r.well_formed(),
        inverts(r@, point_heights(dims_shape(rounds@)), coset_shift),
{
    let ghost shape = dims_shape(rounds@);
    let ghost heights = point_heights(shape);
    proof {
        lemma_note_rounds(shape, shape.len());
    }
    let entries: Vec<(PointKey, usize)> = linear_map_entries(collect_heights(rounds));
    let mut max_log_height: usize = 0;
    let mut i: usize = 0;
    while i < entries.len()
        invariant
            i <= entries@.len(),
            heights_bounded(heights),
            forall|e: int|
                0 <= e < entries@.len() ==> heights.contains_key((#[trigger] entries@[e]).0)
                    && heights[entries@[e].0] == entries@[e].1,
            max_log_height <= 27,
            forall|e: int| 0 <= e < i ==> (#[trigger] entries@[e]).1 <= max_log_height,
        decreases entries@.len() - i,
    {
        if entries[i].1 > max_log_height {
            max_log_height = entries[i].1;
        }
        i = i + 1;
    }
    let subgroup: Vec<Felt> = reversed_coset(coset_shift, max_log_height);
    let mut index: LinearMap<PointKey, usize> = linear_map_new();
    let mut inverses: Vec<Vec<Ext>> = Vec::new();
    let ghost wanted = |k: PointKey|
        Seq::new(
            pow2(heights[k] as nat),
            |j: int|
                ring::inv(
                    ring::minus(
                        ext::embed(reversed_point(coset_shift, heights[k] as nat, j as nat)),
                        key_point(k),
                    ),
                ),
        );
    let mut i: usize = 0;
    while i < entries.len()
        invariant
            i <= entries@.len(),
            heights_bounded(heights),
            points_off_coset(heights, coset_shift),
            forall|e: int|
                0 <= e < entries@.len() ==> heights.contains_key((#[trigger] entries@[e]).0)
                    && heights[entries@[e].0] == entries@[e].1 && entries@[e].1 <= max_log_height,
            forall|e: int, f: int|
                0 <= e < f < entries@.len() ==> (#[trigger] entries@[e]).0 != (
                #[trigger] entries@[f]).0,
            max_log_height <= 27,
            subgroup@ == Seq::new(
                pow2(max_log_height as nat),
                |j: int| reversed_point(coset_shift, max_log_height as nat, j as nat),
            ),
            inverses@.len() == i,
            wanted == (|k: PointKey|
                Seq::new(
                    pow2(heights[k] as nat),
                    |j: int|
                        ring::inv(
                            ring::minus(
                                ext::embed(
                                    reversed_point(coset_shift, heights[k] as nat, j as nat),
                                ),
                                key_point(k),
                            ),
                        ),
                )),
            forall|k: PointKey| #[trigger]
                linear_map_contents(index).contains_key(k) <==> exists|e: int|
                    0 <= e < i && (#[trigger] entries@[e]).0 == k,
            forall|e: int|
                0 <= e < i ==> linear_map_contents(index).contains_key((#[trigger] entries@[e]).0)
                    && linear_map_contents(index)[entries@[e].0] == e,
            forall|e: int|
                0 <= e < i ==> (#[trigger] inverses@[e])@ == wanted(entries@[e].0),
            forall|e: int, j: nat|
                0 <= e < i && j < pow2(heights[entries@[e].0] as nat) ==> ring::invertible(
                    ring::minus(
                        ext::embed(
                            #[trigger] reversed_point(
                                coset_shift,
                                heights[entries@[e].0] as nat,
                                j,
                            ),
                        ),
                        key_point(entries@[e].0),
                    ),
                ),
        decreases entries@.len() - i,
    {
        let key: PointKey = entries[i].0;
        let log_height: usize = entries[i].1;
        let z = Ext {
            c0: Felt { value: key.0 },
            c1: Felt { value: key.1 },
            c2: Felt { value: key.2 },
            c3: Felt { value: key.3 },
        };
        proof {
            lemma2_to64();
            if log_height < max_log_height {
                lemma_pow2_strictly_increases(log_height as nat, max_log_height as nat);
            }
            if max_log_height < 27 {
                lemma_pow2_strictly_increases(max_log_height as nat, 27);
            }
            vstd::bits::lemma_usize_shl_is_mul(1, log_height);
        }
        let len: usize = 1usize << log_height;
        assert forall|j: int| 0 <= j < len implies #[trigger] subgroup@[j] == reversed_point(
            coset_shift,
            log_height as nat,
            j as nat,
        ) by {
            lemma_reversed_prefix(coset_shift, log_height as nat, max_log_height as nat, j as nat);
        }
        assert forall|j: int| 0 <= j < len implies ring::minus(
            ext::embed(#[trigger] subgroup@[j]),
            z,
        ) != Ext::zero_spec() by {
            assert(heights.contains_key(entries@[i as int].0));
            assert(subgroup@[j] == reversed_point(coset_shift, heights[key] as nat, j as nat));
        }
        let inverted: Vec<Ext> = distances_inverted(&subgroup, len, z);
        assert(inverted@ =~= wanted(key));
        assert forall|j: nat| j < pow2(heights[key] as nat) implies ring::invertible(
            ring::minus(
                ext::embed(#[trigger] reversed_point(coset_shift, heights[key] as nat, j)),
                key_point(key),
            ),
        ) by {
            assert(subgroup@[j as int] == reversed_point(coset_shift, log_height as nat, j));
        }
        inverses.push(inverted);
        linear_map_insert(&mut index, key, i);
        i = i + 1;
        assert forall|k: PointKey| #[trigger] linear_map_contents(index).contains_key(
            k,
        ) implies exists|e: int| 0 <= e < i && (#[trigger] entries@[e]).0 == k by {
            if k == key {
                assert(entries@[i - 1].0 == k);
            }
        }
    }
    let r = InverseDenominators { index, inverses };
    assert forall|k: PointKey| #[trigger] r@.contains_key(k) implies r@[k] == wanted(k) by {
        let e = choose|e: int| 0 <= e < i && (#[trigger] entries@[e]).0 == k;
        assert(inverses@[e]@ == wanted(entries@[e].0));
    }
    assert forall|k: PointKey, j: nat|
        r@.contains_key(k) && j < pow2(heights[k] as nat) implies ring::invertible(
        ring::minus(
            ext::embed(#[trigger] reversed_point(coset_shift, heights[k] as nat, j)),
            key_point(k),
        ),
    ) by {
        assert(linear_map_contents(index).contains_key(k));
        let e = choose|e: int| 0 <= e < i && (#[trigger] entries@[e]).0 == k;
        assert(reversed_point(coset_shift, heights[entries@[e].0] as nat, j) == reversed_point(
            coset_shift,
            heights[k] as nat,
            j,
        ));
    }
    assert(r@.dom() =~= heights.dom()) by {
        assert forall|k: PointKey| r@.contains_key(k) implies heights.contains_key(k) by {
            let e = choose|e: int| 0 <= e < i && (#[trigger] entries@[e]).0 == k;
            assert(heights.contains_key(entries@[e].0));
        }
        assert forall|k: PointKey| heights.contains_key(k) implies r@.contains_key(k) by {
            let e = choose|e: int| 0 <= e < entries@.len() && (#[trigger] entries@[e]).0 == k;
            assert(linear_map_contents(index).contains_key(entries@[e].0));
        }
    }
    r
}

pub open spec fn mats_shape(rounds: Seq<(&Vec<Matrix<Felt>>, &Vec<Vec<Ext>>)>) -> Seq<RoundShape> {
    rounds.map_values(
        |r: (&Vec<Matrix<Felt>>, &Vec<Vec<Ext>>)|
            (
                r.0@.map_values(|m: Matrix<Felt>| m.rows()),
                r.1@.map_values(|p: Vec<Ext>| p@),
            ),
    )
}

/// The sizes of matrices.
pub(crate) fn dimensions_of(mats: &Vec<Matrix<Felt>>) -> (r: Vec<Dimensions>)
    requires
        forall|i: int| 0 <= i < mats@.len() ==> (#[trigger] mats@[i]).width > 0,
    ensures
        r@ == mats@.map_values(
            |m: Matrix<Felt>| (Dimensions { width: m.width, height: m.rows() as usize }),
        ),
        forall|i: int| 0 <= i < r@.len() ==> (#[trigger] r@[i]).height == mats@[i].rows(),
{
    let mut r: Vec<Dimensions> = Vec::new();
    let mut i: usize = 0;
    while i < mats.len()
        invariant
            i <= mats@.len(),
            forall|k: int| 0 <= k < mats@.len() ==> (#[trigger] mats@[k]).width > 0,
            r@.len() == i,
            forall|k: int|
                0 <= k < i ==> #[trigger] r@[k] == (Dimensions {
                    width: mats@[k].width,
                    height: mats@[k].rows() as usize,
                }) && r@[k].height == mats@[k].rows(),
        decreases mats@.len() - i,
    {
        r.push(Dimensions { width: mats[i].width, height: mats[i].height() });
        i = i + 1;
    }
    r
}

/// The inverses of the distances between the opening points and the coset points.
pub fn compute_inverse_denominators(
    rounds: &Vec<(&Vec<Matrix<Felt>>, &Vec<Vec<Ext>>)>,
    coset_shift: Felt,
) -> (r: InverseDenominators)
    requires
        forall|r: int, i: int|
            0 <= r < rounds@.len() && 0 <= i < rounds@[r].0@.len() ==> (
            #[trigger] rounds@[r].0@[i]).width > 0,
        heights_ok(mats_shape(rounds@)),
        exists|k: PointKey| point_heights(mats_shape(rounds@)).contains_key(k),
        points_off_coset(point_heights(mats_shape(rounds@)), coset_shift),
    ensures
        r.well_formed(),
        inverts(r@, point_heights(mats_shape(rounds@)), coset_shift),
{
    let mut dims: Vec<(Vec<Dimensions>, &Vec<Vec<Ext>>)> = Vec::new();
    let mut i: usize = 0;
    while i < rounds.len()
        invariant
            i <= rounds@.len(),
            forall|r: int, i: int|
                0 <= r < rounds@.len() && 0 <= i < rounds@[r].0@.len() ==> (
                #[trigger] rounds@[r].0@[i]).width > 0,
            dims@.len() == i,
            forall|r: int|
                0 <= r < i ==> #[trigger] dims_shape(dims@)[r] == mats_shape(rounds@)[r],
        decreases rounds@.len() - i,
    {
        let ghost before = dims@;
        let sizes: Vec<Dimensions> = dimensions_of(rounds[i].0);
        dims.push((sizes, rounds[i].1));
        assert(dims_shape(dims@)[i as int].0 =~= mats_shape(rounds@)[i as int].0);
        assert forall|r: int| 0 <= r < i implies #[trigger] dims_shape(dims@)[r] == mats_shape(
            rounds@,
        )[r] by {
            assert(dims_shape(before)[r] == dims_shape(dims@)[r]);
        }
        i = i + 1;
    }
    assert(dims_shape(dims@) =~= mats_shape(rounds@));
    compute_inverse_denominators_from_dims(&dims, 0, coset_shift)
}

/// Two points have one key exactly if they are the same element, and the key gives it back.
pub proof fn law_key_is_of_element(a: Ext, b: Ext)
    ensures
        point_key(a) == point_key(b) <==> ring::reduced(a) == ring::reduced(b),
        key_point(point_key(a)) == ring::reduced(a),
{
}

proof fn lemma_noted_point(
    m: Map<PointKey, usize>,
    log_height: nat,
    points: Seq<Ext>,
    n: nat,
    k: PointKey,
) -> (p: Option<int>)
    requires
        n <= points.len(),
        log_height <= 27,
        note_points(m, log_height, points, n).contains_key(k),
    ensures
        match p {
            Some(p) => 0 <= p < n && point_key(points[p]) == k && note_points(
                m,
                log_height,
                points,
                n,
            )[k] == log_height,
            None => m.contains_key(k) && note_points(m, log_height, points, n)[k] == m[k],
        },
    decreases n,
{
    if n == 0 {
        None
    } else {
        let before = note_points(m, log_height, points, (n - 1) as nat);
        let key = point_key(points[n - 1]);
        if key == k && !(before.contains_key(key) && before[key] >= log_height) {
            Some(n - 1)
        } else {
            lemma_noted_point(m, log_height, points, (n - 1) as nat, k)
        }
    }
}

proof fn lemma_noted_matrix(m: Map<PointKey, usize>, round: RoundShape, n: nat, k: PointKey) -> (r:
    Option<(int, int)>)
    requires
        n <= round_len(round),
        forall|i: int| 0 <= i < n ==> bits::log2(#[trigger] round.0[i]) <= 27,
        note_matrices(m, round, n).contains_key(k),
    ensures
        match r {
            Some((i, p)) => 0 <= i < n && 0 <= p < round.1[i].len() && point_key(round.1[i][p])
                == k && note_matrices(m, round, n)[k] == bits::log2(round.0[i]),
            None => m.contains_key(k) && note_matrices(m, round, n)[k] == m[k],
        },
    decreases n,
{
    if n == 0 {
        None
    } else {
        let before = note_matrices(m, round, (n - 1) as nat);
        let points = round.1[n - 1];
        let h = bits::log2(round.0[n - 1]);
        match lemma_noted_point(before, h, points, points.len(), k) {
            Some(p) => Some((n - 1, p)),
            None => lemma_noted_matrix(m, round, (n - 1) as nat, k),
        }
    }
}

proof fn lemma_noted_round(rounds: Seq<RoundShape>, n: nat, k: PointKey) -> (r: (int, int, int))
    requires
        n <= rounds.len(),
        heights_ok(rounds),
        note_rounds(rounds, n).contains_key(k),
    ensures
        0 <= r.0 < n,
        0 <= r.1 < rounds[r.0].0.len(),
        r.1 < rounds[r.0].1.len(),
        0 <= r.2 < rounds[r.0].1[r.1].len(),
        point_key(rounds[r.0].1[r.1][r.2]) == k,
        note_rounds(rounds, n)[k] == bits::log2(rounds[r.0].0[r.1]),
    decreases n,
{
    let round = rounds[n - 1];
    assert forall|i: int| 0 <= i < round_len(round) implies bits::log2(#[trigger] round.0[i])
        <= 27 by {
        assert(rounds[n - 1].0[i] == round.0[i]);
    }
    match lemma_noted_matrix(
        note_rounds(rounds, (n - 1) as nat),
        round,
        round_len(round),
        k,
    ) {
        Some((i, p)) => (n - 1, i, p),
        None => lemma_noted_round(rounds, (n - 1) as nat, k),
    }
}

/// The height of a point is the largest one among the matrices that are opened at it: none of them is
/// higher, and one has this height. A point that no matrix is opened at has none.
pub proof fn law_height_is_largest(rounds: Seq<RoundShape>, k: PointKey)
    requires
        heights_ok(rounds),
    ensures
        forall|r: int, i: int, p: int|
            0 <= r < rounds.len() && 0 <= i < rounds[r].0.len() && i < rounds[r].1.len() && 0 <= p
                < rounds[r].1[i].len() && point_key(#[trigger] rounds[r].1[i][p]) == k
                ==> point_heights(rounds).contains_key(k) && point_heights(rounds)[k]
                >= bits::log2(rounds[r].0[i]),
        point_heights(rounds).contains_key(k) ==> exists|r: int, i: int, p: int|
            0 <= r < rounds.len() && 0 <= i < rounds[r].0.len() && i < rounds[r].1.len() && 0 <= p
                < rounds[r].1[i].len() && point_key(#[trigger] rounds[r].1[i][p]) == k
                && point_heights(rounds)[k] == bits::log2(rounds[r].0[i]),
{
    lemma_note_rounds(rounds, rounds.len());
    if point_heights(rounds).contains_key(k) {
        let (r, i, p) = lemma_noted_round(rounds, rounds.len(), k);
        assert(point_key(rounds[r].1[i][p]) == k);
    }
}

/// The inverses are inverses: times the distance from its point to the coset point, each is one.
pub proof fn law_inverse_times_distance(
    view: Map<PointKey, Seq<Ext>>,
    heights: Map<PointKey, usize>,
    shift: Felt,
    k: PointKey,
    j: nat,
)
    requires
        inverts(view, heights, shift),
        heights.contains_key(k),
        j < pow2(heights[k] as nat),
    ensures
        view[k].len() == pow2(heights[k] as nat),
        ring::minus(
            ext::embed(
                ring::pow(
                    Felt::root(heights[k] as nat),
                    bits::bitrev(j, heights[k] as nat),
                ).times(shift),
            ),
            key_point(k),
        ).times(view[k][j as int]) == Ext::one_spec(),
{
    let d = ring::minus(
        ext::embed(reversed_point(shift, heights[k] as nat, j)),
        key_point(k),
    );
    assert(view.contains_key(k));
    assert(ring::invertible(d));
    let r = choose|r: Ext| d.times(r) == Ext::one_spec();
    ring::lemma_inv(d, r);
}

} // verus!
