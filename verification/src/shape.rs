//! Shapes of recursion programs: the base-two logarithm of the height of each chip.

use vstd::prelude::*;
use vstd::arithmetic::power::*;
use vstd::arithmetic::power2::*;
use itertools::Itertools;
use crate::names;
use crate::names::NameMap;

verus! {

/// The logarithms of the heights of the chips, by name.
pub struct RecursionShape {
    pub inner: NameMap,
}

impl RecursionShape {
    /// A copy of the heights.
    pub fn clone_into_hash_map(&self) -> (r: NameMap)
        ensures
            r@ == self.inner@,
    {
        self.inner.duplicate()
    }
}

impl From<NameMap> for RecursionShape {
    fn from(value: NameMap) -> (r: Self) {
        RecursionShape { inner: value }
    }
}

impl vstd::std_specs::convert::FromSpecImpl<NameMap> for RecursionShape {
    open spec fn obeys_from_spec() -> bool {
        true
    }

    open spec fn from_spec(v: NameMap) -> Self {
        RecursionShape { inner: v }
    }
}

/// A shape as a list of pairs.
pub struct OrderedShape {
    pub inner: Vec<(String, usize)>,
}

/// The shapes that a program may take, in order of preference.
pub struct RecursionShapeConfig {
    pub allowed_shapes: Vec<NameMap>,
}

/// Whether a chip of each of the heights fits.
pub open spec fn fits(shape: Map<Seq<char>, usize>, heights: Seq<(String, usize)>) -> bool {
    forall|i: int|
        0 <= i < heights.len() ==> (#[trigger] heights[i]).1 <= pow2(
            shape[heights[i].0@] as nat,
        )
}

/// Whether every chip has a height in the shape that is a machine word.
pub open spec fn covers(shape: Map<Seq<char>, usize>, heights: Seq<(String, usize)>) -> bool {
    forall|i: int|
        0 <= i < heights.len() ==> shape.contains_key((#[trigger] heights[i]).0@)
            && shape[heights[i].0@] < usize::BITS
}

/// The larger of two heights, where a chip without one counts as zero.
pub open spec fn larger(a: Map<Seq<char>, usize>, b: Map<Seq<char>, usize>, k: Seq<char>) -> usize {
    let x = if a.contains_key(k) {
        a[k]
    } else {
        0
    };
    let y = if b.contains_key(k) {
        b[k]
    } else {
        0
    };
    if x < y {
        y
    } else {
        x
    }
}

/// The chips of two shapes, each with the larger of its heights.
pub open spec fn merged(a: Map<Seq<char>, usize>, b: Map<Seq<char>, usize>) -> Map<Seq<char>, usize> {
    Map::new(|k: Seq<char>| a.contains_key(k) || b.contains_key(k), |k: Seq<char>| larger(a, b, k))
}

/// The first `n` shapes, merged.
pub open spec fn merged_all(shapes: Seq<NameMap>, n: nat) -> Map<Seq<char>, usize>
    decreases n,
{
    if n == 0 {
        Map::empty()
    } else {
        merged(merged_all(shapes, (n - 1) as nat), shapes[n - 1]@)
    }
}

/// All heights raised by two, but that of the public values, which is four.
pub open spec fn with_extra_room(m: Map<Seq<char>, usize>) -> Map<Seq<char>, usize> {
    Map::new(|k: Seq<char>| m.contains_key(k), |k: Seq<char>| (m[k] + 2) as usize).insert(
        "PublicValues"@,
        4,
    )
}

/// Calls `Itertools::multi_cartesian_product` on `k` copies of the range `0..n`: all lists of `k`
/// numbers below `n`, in the order of a dictionary.
#[verifier::external_body]
fn multi_cartesian_product(n: usize, k: usize) -> (r: Vec<Vec<usize>>)
    requires
        pow(n as int, k as nat) <= usize::MAX,
    ensures
        r@.len() == pow(n as int, k as nat),
        forall|t: int| 0 <= t < r@.len() ==> (#[trigger] r@[t])@.len() == k,
        forall|t: int, j: int|
            0 <= t < r@.len() && 0 <= j < k ==> #[trigger] r@[t]@[j] == (t / pow(
                n as int,
                (k - 1 - j) as nat,
            )) % (n as int),
{
    (0..k).map(|_| 0..n).multi_cartesian_product().collect()
}

impl RecursionShapeConfig {
    /// Whether none of the first `n` shapes fits.
    pub open spec fn none_fits(&self, heights: Seq<(String, usize)>, n: int) -> bool {
        forall|t: int| 0 <= t < n ==> !fits((#[trigger] self.allowed_shapes@[t])@, heights)
    }

    /// Whether every chip has a height in each shape up to the first that fits. No later shape is
    /// looked at.
    pub open spec fn covers(&self, heights: Seq<(String, usize)>) -> bool {
        forall|s: int|
            0 <= s < self.allowed_shapes@.len() && self.none_fits(heights, s) ==> covers(
                (#[trigger] self.allowed_shapes@[s])@,
                heights,
            )
    }

    /// Whether the shape with number `s` is the first that fits.
    pub open spec fn is_closest(&self, heights: Seq<(String, usize)>, s: int) -> bool {
        &&& 0 <= s < self.allowed_shapes@.len()
        &&& fits(self.allowed_shapes@[s]@, heights)
        &&& self.none_fits(heights, s)
    }

    /// The first shape that fits, if there is one.
    pub fn closest_shape(&self, heights: &Vec<(String, usize)>) -> (r: Option<usize>)
        requires
            self.covers(heights@),
        ensures
            match r {
                Some(s) => self.is_closest(heights@, s as int),
                None => self.none_fits(heights@, self.allowed_shapes@.len() as int),
            },
    {
        let mut s: usize = 0;
        while s < self.allowed_shapes.len()
            invariant
                s <= self.allowed_shapes@.len(),
                self.covers(heights@),
                self.none_fits(heights@, s as int),
            decreases self.allowed_shapes@.len() - s,
        {
            let shape = &self.allowed_shapes[s];
            assert(covers(self.allowed_shapes@[s as int]@, heights@));
            let mut valid: bool = true;
            let mut i: usize = 0;
            while i < heights.len()
                invariant
                    i <= heights@.len(),
                    covers(shape@, heights@),
                    valid ==> forall|k: int|
                        0 <= k < i ==> (#[trigger] heights@[k]).1 <= pow2(
                            shape@[heights@[k].0@] as nat,
                        ),
                    !valid ==> !fits(shape@, heights@),
                decreases heights@.len() - i,
            {
                assert(shape@.contains_key(heights@[i as int].0@));
                let log: usize = match shape.get(&heights[i].0) {
                    Some(v) => v,
                    None => 0,
                };
                proof {
                    crate::bits::lemma_pow2_fits(log as nat);
                    vstd::bits::lemma_usize_shl_is_mul(1, log);
                }
                if heights[i].1 > (1 << log) {
                    valid = false;
                }
                i = i + 1;
            }
            if valid {
                return Some(s);
            }
            s = s + 1;
        }
        None
    }

    /// Gives a program the first shape that fits its heights.
    pub fn fix_shape(&self, heights: &Vec<(String, usize)>, shape: &mut Option<RecursionShape>)
        requires
            self.covers(heights@),
            exists|s: int| self.is_closest(heights@, s),
        ensures
            *final(shape) matches Some(chosen) && exists|s: int| #[trigger]
                self.is_closest(heights@, s) && chosen.inner@ == self.allowed_shapes@[s]@,
    {
        let found = self.closest_shape(heights);
        let ghost w = choose|s: int| self.is_closest(heights@, s);
        match found {
            Some(s) => {
                *shape = Some(RecursionShape::from(self.allowed_shapes[s].duplicate()));
                assert(self.is_closest(heights@, s as int));
            },
            None => {
                assert(self.is_closest(heights@, w));
                assert(false);
            },
        }
    }

    /// All ways to give `batch_size` programs one of the shapes each. The last program's shape
    /// changes fastest.
    pub fn get_all_shape_combinations(&self, batch_size: usize) -> (r: Vec<Vec<OrderedShape>>)
        requires
            pow(self.allowed_shapes@.len() as int, batch_size as nat) <= usize::MAX,
        ensures
            r@.len() == pow(self.allowed_shapes@.len() as int, batch_size as nat),
            forall|t: int| 0 <= t < r@.len() ==> (#[trigger] r@[t])@.len() == batch_size,
            forall|t: int, j: int|
                0 <= t < r@.len() && 0 <= j < batch_size ==> names::lists(
                    (#[trigger] r@[t]@[j]).inner@,
                    self.allowed_shapes@[self.combination(batch_size as nat, t, j)]@,
                ),
    {
        let n: usize = self.allowed_shapes.len();
        let product = multi_cartesian_product(n, batch_size);
        let mut r: Vec<Vec<OrderedShape>> = Vec::new();
        let mut t: usize = 0;
        while t < product.len()
            invariant
                t <= product@.len(),
                n == self.allowed_shapes@.len(),
                r@.len() == t,
                product@.len() == pow(n as int, batch_size as nat),
                forall|t: int| 0 <= t < product@.len() ==> (#[trigger] product@[t])@.len() == batch_size,
                forall|t: int, j: int|
                    0 <= t < product@.len() && 0 <= j < batch_size ==> #[trigger] product@[t]@[j]
                        == (t / pow(n as int, (batch_size - 1 - j) as nat)) % (n as int),
                forall|k: int| 0 <= k < t ==> (#[trigger] r@[k])@.len() == batch_size,
                forall|k: int, j: int|
                    0 <= k < t && 0 <= j < batch_size ==> names::lists(
                        (#[trigger] r@[k]@[j]).inner@,
                        self.allowed_shapes@[self.combination(batch_size as nat, k, j)]@,
                    ),
            decreases product@.len() - t,
        {
            let mut row: Vec<OrderedShape> = Vec::new();
            let mut j: usize = 0;
            assert(product@[t as int]@.len() == batch_size);
            while j < batch_size
                invariant
                    j <= batch_size,
                    t < product@.len(),
                    n == self.allowed_shapes@.len(),
                    product@.len() == pow(n as int, batch_size as nat),
                    product@[t as int]@.len() == batch_size,
                    forall|t: int, j: int|
                        0 <= t < product@.len() && 0 <= j < batch_size ==> #[trigger] product@[t]@[j]
                            == (t / pow(n as int, (batch_size - 1 - j) as nat)) % (n as int),
                    row@.len() == j,
                    forall|q: int|
                        0 <= q < j ==> names::lists(
                            (#[trigger] row@[q]).inner@,
                            self.allowed_shapes@[self.combination(batch_size as nat, t as int, q)]@,
                        ),
                decreases batch_size - j,
            {
                let s: usize = product[t][j];
                proof {
                    assert(product@[t as int]@[j as int] == s);
                    lemma_nonempty(n as int, batch_size as nat);
                    assert(s == self.combination(batch_size as nat, t as int, j as int));
                    vstd::arithmetic::div_mod::lemma_mod_bound(
                        t as int / pow(n as int, (batch_size - 1 - j) as nat),
                        n as int,
                    );
                }
                let ordered = OrderedShape { inner: self.allowed_shapes[s].entries() };
                row.push(ordered);
                j = j + 1;
            }
            r.push(row);
            t = t + 1;
        }
        r
    }

    /// The number of the shape that program `j` has in combination `t`.
    pub open spec fn combination(&self, batch_size: nat, t: int, j: int) -> int {
        let n = self.allowed_shapes@.len() as int;
        (t / pow(n, (batch_size - 1 - j) as nat)) % n
    }
}

/// Only the empty product has no factor.
proof fn lemma_nonempty(n: int, k: nat)
    requires
        n >= 0,
        k > 0,
        pow(n, k) > 0,
    ensures
        n > 0,
{
    if n == 0 {
        lemma0_pow(k);
    }
}

/// The heights of a merge, for each name.
proof fn lemma_merge_step(
    before: Map<Seq<char>, usize>,
    m: Map<Seq<char>, usize>,
    shape: Map<Seq<char>, usize>,
    pairs: Seq<(String, usize)>,
    i: int,
)
    requires
        names::lists(pairs, shape),
        0 <= i < pairs.len(),
        merges(m, before, pairs, i),
    ensures
        merges(
            m.insert(pairs[i].0@, larger(before, shape, pairs[i].0@)),
            before,
            pairs,
            i + 1,
        ),
        !m.contains_key(pairs[i].0@) ==> !before.contains_key(pairs[i].0@),
        m.contains_key(pairs[i].0@) ==> before.contains_key(pairs[i].0@) && m[pairs[i].0@]
            == before[pairs[i].0@],
{
    let name = pairs[i].0@;
    assert(shape.contains_key(name) && shape[name] == pairs[i].1);
    assert(!seen(pairs, i, name)) by {
        if seen(pairs, i, name) {
            let j = choose|j: int| 0 <= j < i && (#[trigger] pairs[j]).0@ == name;
            assert(pairs[j].0@ != pairs[i].0@);
        }
    }
    let m1 = m.insert(name, larger(before, shape, name));
    assert forall|k: Seq<char>| #[trigger] m1.contains_key(k) == (before.contains_key(k) || seen(
        pairs,
        i + 1,
        k,
    )) by {
        lemma_seen(pairs, i, k);
    }
    assert forall|k: Seq<char>| #[trigger] m1.contains_key(k) implies m1[k] == if seen(
        pairs,
        i + 1,
        k,
    ) {
        larger(before, as_map(pairs), k)
    } else {
        before[k]
    } by {
        lemma_seen(pairs, i, k);
        if k == name {
            lemma_as_map(pairs, shape);
        } else {
            assert(m.contains_key(k));
        }
    }
}

/// Whether one of the first `n` pairs has the name `k`.
spec fn seen(pairs: Seq<(String, usize)>, n: int, k: Seq<char>) -> bool {
    exists|j: int| 0 <= j < n && (#[trigger] pairs[j]).0@ == k
}

proof fn lemma_seen(pairs: Seq<(String, usize)>, n: int, k: Seq<char>)
    requires
        0 <= n < pairs.len(),
    ensures
        seen(pairs, n + 1, k) == (seen(pairs, n, k) || pairs[n].0@ == k),
{
    if seen(pairs, n, k) {
        let j = choose|j: int| 0 <= j < n && (#[trigger] pairs[j]).0@ == k;
        assert(pairs[j].0@ == k);
    }
    if pairs[n].0@ == k {
        assert(seen(pairs, n + 1, k));
    }
}

/// The map that pairs list.
spec fn as_map(pairs: Seq<(String, usize)>) -> Map<Seq<char>, usize> {
    Map::new(
        |k: Seq<char>| seen(pairs, pairs.len() as int, k),
        |k: Seq<char>|
            pairs[(choose|j: int| 0 <= j < pairs.len() && (#[trigger] pairs[j]).0@ == k)].1,
    )
}

proof fn lemma_as_map(pairs: Seq<(String, usize)>, m: Map<Seq<char>, usize>)
    requires
        names::lists(pairs, m),
    ensures
        as_map(pairs) == m,
{
    assert forall|k: Seq<char>| as_map(pairs).contains_key(k) == m.contains_key(k) by {
        if m.contains_key(k) {
            let j = choose|j: int| 0 <= j < pairs.len() && (#[trigger] pairs[j]).0@ == k;
            assert(pairs[j].0@ == k);
        }
    }
    assert(as_map(pairs) =~= m);
}

/// Whether `m` is `before` merged with the first `n` pairs.
spec fn merges(
    m: Map<Seq<char>, usize>,
    before: Map<Seq<char>, usize>,
    pairs: Seq<(String, usize)>,
    n: int,
) -> bool {
    &&& forall|k: Seq<char>| #[trigger]
        m.contains_key(k) == (before.contains_key(k) || seen(pairs, n, k))
    &&& forall|k: Seq<char>| #[trigger]
        m.contains_key(k) ==> m[k] == if seen(pairs, n, k) {
            larger(before, as_map(pairs), k)
        } else {
            before[k]
        }
}

/// Merges a shape into a map.
fn merge_into(map: &mut NameMap, shape: &NameMap)
    ensures
        final(map)@ == merged(old(map)@, shape@),
{
    let pairs = shape.entries();
    let ghost before = map@;
    proof {
        lemma_as_map(pairs@, shape@);
        assert forall|k: Seq<char>| !seen(pairs@, 0, k) by {}
    }
    let mut i: usize = 0;
    while i < pairs.len()
        invariant
            i <= pairs@.len(),
            names::lists(pairs@, shape@),
            as_map(pairs@) == shape@,
            merges(map@, before, pairs@, i as int),
        decreases pairs@.len() - i,
    {
        let name: String = pairs[i].0.clone();
        let value: usize = pairs[i].1;
        let current: usize = match map.get(&name) {
            Some(v) => v,
            None => 0,
        };
        proof {
            assert(shape@.contains_key(pairs@[i as int].0@));
            lemma_merge_step(before, map@, shape@, pairs@, i as int);
        }
        map.insert(
            name,
            if current < value {
                value
            } else {
                current
            },
        );
        i = i + 1;
    }
    proof {
        let want = merged(before, shape@);
        assert forall|k: Seq<char>| map@.contains_key(k) == want.contains_key(k) by {
            assert(as_map(pairs@).contains_key(k) == seen(pairs@, pairs@.len() as int, k));
        }
        assert forall|k: Seq<char>| map@.contains_key(k) implies map@[k] == want[k] by {
            assert(as_map(pairs@).contains_key(k) == seen(pairs@, pairs@.len() as int, k));
        }
        assert(map@ =~= want);
    }
}

/// Raises all heights by two.
fn raise_all(map: &mut NameMap)
    requires
        forall|k: Seq<char>| #[trigger] old(map)@.contains_key(k) ==> old(map)@[k] + 2 <= usize::MAX,
    ensures
        final(map)@ == Map::new(
            |k: Seq<char>| old(map)@.contains_key(k),
            |k: Seq<char>| (old(map)@[k] + 2) as usize,
        ),
{
    let pairs = map.entries();
    let ghost before = map@;
    proof {
        assert forall|k: Seq<char>| !seen(pairs@, 0, k) by {}
    }
    let mut i: usize = 0;
    while i < pairs.len()
        invariant
            i <= pairs@.len(),
            names::lists(pairs@, before),
            forall|k: Seq<char>| #[trigger] before.contains_key(k) ==> before[k] + 2 <= usize::MAX,
            forall|k: Seq<char>| #[trigger] map@.contains_key(k) == before.contains_key(k),
            forall|k: Seq<char>| #[trigger]
                map@.contains_key(k) ==> map@[k] == if seen(pairs@, i as int, k) {
                    (before[k] + 2) as usize
                } else {
                    before[k]
                },
        decreases pairs@.len() - i,
    {
        let name: String = pairs[i].0.clone();
        let ghost m0 = map@;
        assert(before.contains_key(pairs@[i as int].0@));
        map.insert(name, pairs[i].1 + 2);
        proof {
            assert forall|k: Seq<char>| #[trigger] map@.contains_key(k) implies map@[k] == if seen(
                pairs@,
                i + 1,
                k,
            ) {
                (before[k] + 2) as usize
            } else {
                before[k]
            } by {
                lemma_seen(pairs@, i as int, k);
                if k != name@ {
                    assert(m0.contains_key(k));
                }
            }
        }
        i = i + 1;
    }
    proof {
        let want = Map::new(
            |k: Seq<char>| before.contains_key(k),
            |k: Seq<char>| (before[k] + 2) as usize,
        );
        assert forall|k: Seq<char>| map@.contains_key(k) implies map@[k] == want[k] by {
            let j = choose|j: int| 0 <= j < pairs@.len() && (#[trigger] pairs@[j]).0@ == k;
            assert(before.contains_key(k));
            assert(pairs@[j].0@ == k);
            assert(seen(pairs@, pairs@.len() as int, k));
        }
        assert(map@ =~= want);
    }
}

/// A merge of heights is one of them.
proof fn lemma_merged_bound(shapes: Seq<NameMap>, n: nat, bound: int)
    requires
        n <= shapes.len(),
        bound >= 0,
        forall|s: int, k: Seq<char>|
            0 <= s < shapes.len() && #[trigger] shapes[s]@.contains_key(k) ==> shapes[s]@[k] <= bound,
    ensures
        forall|k: Seq<char>| #[trigger]
            merged_all(shapes, n).contains_key(k) ==> merged_all(shapes, n)[k] <= bound,
    decreases n,
{
    if n > 0 {
        lemma_merged_bound(shapes, (n - 1) as nat, bound);
        let before = merged_all(shapes, (n - 1) as nat);
        assert forall|k: Seq<char>| #[trigger] merged_all(shapes, n).contains_key(k) implies merged_all(
            shapes,
            n,
        )[k] <= bound by {
            if before.contains_key(k) {
            }
            if shapes[n - 1]@.contains_key(k) {
            }
        }
    }
}

impl RecursionShapeConfig {
    /// The only shape: every chip that a shape has, with its largest height and room for two more
    /// doublings; the public values keep their height.
    pub fn union_config_with_extra_room(&self) -> (r: Self)
        requires
            forall|s: int, k: Seq<char>|
                0 <= s < self.allowed_shapes@.len() && #[trigger] self.allowed_shapes@[s]@.contains_key(k)
                    ==> self.allowed_shapes@[s]@[k] <= usize::MAX - 2,
        ensures
            r.allowed_shapes@.len() == 1,
            r.allowed_shapes@[0]@ == with_extra_room(
                merged_all(self.allowed_shapes@, self.allowed_shapes@.len()),
            ),
    {
        let mut map = NameMap::new();
        let mut s: usize = 0;
        while s < self.allowed_shapes.len()
            invariant
                s <= self.allowed_shapes@.len(),
                map@ == merged_all(self.allowed_shapes@, s as nat),
            decreases self.allowed_shapes@.len() - s,
        {
            merge_into(&mut map, &self.allowed_shapes[s]);
            s = s + 1;
        }
        proof {
            lemma_merged_bound(self.allowed_shapes@, s as nat, usize::MAX - 2);
        }
        raise_all(&mut map);
        map.insert("PublicValues".to_owned(), 4);
        let mut allowed_shapes: Vec<NameMap> = Vec::new();
        allowed_shapes.push(map);
        RecursionShapeConfig { allowed_shapes }
    }

    /// The only shape is the given one.
    pub fn from_hash_map(hash_map: &NameMap) -> (r: Self)
        ensures
            r.allowed_shapes@.len() == 1,
            r.allowed_shapes@[0]@ == hash_map@,
    {
        let mut allowed_shapes: Vec<NameMap> = Vec::new();
        allowed_shapes.push(hash_map.duplicate());
        RecursionShapeConfig { allowed_shapes }
    }

    /// The first shape.
    pub fn first(&self) -> (r: Option<&NameMap>)
        ensures
            match r {
                Some(m) => self.allowed_shapes@.len() > 0 && *m == self.allowed_shapes@[0],
                None => self.allowed_shapes@.len() == 0,
            },
    {
        if self.allowed_shapes.len() > 0 {
            Some(&self.allowed_shapes[0])
        } else {
            None
        }
    }
}

/// The names of the recursion chips.
#[derive(Debug)]
pub struct ChipNames {
    pub mem_var: String,
    pub select: String,
    pub mem_const: String,
    pub batch_fri: String,
    pub base_alu: String,
    pub ext_alu: String,
    pub exp_reverse_bits_len: String,
    pub poseidon2_wide: String,
    pub public_values: String,
}

/// The height of the public values chip.
pub const PUB_VALUES_LOG_HEIGHT: usize = 4;

/// The number of default shapes.
pub const NUM_DEFAULT_SHAPES: usize = 10;

/// The heights of the default shapes, smallest first: of variable memory, select, constant memory,
/// batch FRI, base and extension arithmetic, reversed exponentiation, and wide Poseidon2.
pub open spec fn default_heights(i: int) -> Seq<usize> {
    if i == 0 {
        seq![14usize, 13, 14, 12, 13, 15, 12, 12]
    } else if i == 1 {
        seq![15usize, 15, 14, 14, 13, 15, 14, 13]
    } else if i == 2 {
        seq![16usize, 16, 15, 15, 14, 15, 15, 14]
    } else if i == 3 {
        seq![17usize, 17, 16, 16, 15, 15, 16, 15]
    } else if i == 4 {
        seq![18usize, 18, 16, 17, 15, 16, 17, 16]
    } else if i == 5 {
        seq![19usize, 19, 17, 19, 16, 16, 18, 17]
    } else if i == 6 {
        seq![19usize, 20, 18, 19, 17, 17, 18, 17]
    } else if i == 7 {
        seq![20usize, 20, 18, 19, 17, 17, 18, 18]
    } else if i == 8 {
        seq![20usize, 20, 18, 21, 17, 19, 18, 18]
    } else {
        seq![21usize, 21, 19, 21, 18, 20, 19, 19]
    }
}

fn default_row(i: usize) -> (r: Vec<usize>)
    ensures
        r@ == default_heights(i as int),
        r@.len() == 8,
{
    if i == 0 {
        vec![14, 13, 14, 12, 13, 15, 12, 12]
    } else if i == 1 {
        vec![15, 15, 14, 14, 13, 15, 14, 13]
    } else if i == 2 {
        vec![16, 16, 15, 15, 14, 15, 15, 14]
    } else if i == 3 {
        vec![17, 17, 16, 16, 15, 15, 16, 15]
    } else if i == 4 {
        vec![18, 18, 16, 17, 15, 16, 17, 16]
    } else if i == 5 {
        vec![19, 19, 17, 19, 16, 16, 18, 17]
    } else if i == 6 {
        vec![19, 20, 18, 19, 17, 17, 18, 17]
    } else if i == 7 {
        vec![20, 20, 18, 19, 17, 17, 18, 18]
    } else if i == 8 {
        vec![20, 20, 18, 21, 17, 19, 18, 18]
    } else {
        vec![21, 21, 19, 21, 18, 20, 19, 19]
    }
}

/// The shape with the given heights.
pub open spec fn shape_map(names: ChipNames, h: Seq<usize>) -> Map<Seq<char>, usize> {
    Map::empty().insert(names.mem_var@, h[0]).insert(names.select@, h[1]).insert(
        names.mem_const@,
        h[2],
    ).insert(names.batch_fri@, h[3]).insert(names.base_alu@, h[4]).insert(
        names.ext_alu@,
        h[5],
    ).insert(names.exp_reverse_bits_len@, h[6]).insert(names.poseidon2_wide@, h[7]).insert(
        names.public_values@,
        PUB_VALUES_LOG_HEIGHT,
    )
}

impl RecursionShapeConfig {
    /// The default shapes of the recursion chips.
    pub fn default_shapes(names: &ChipNames) -> (r: Self)
        ensures
            r.allowed_shapes@.len() == NUM_DEFAULT_SHAPES,
            forall|i: int|
                0 <= i < NUM_DEFAULT_SHAPES ==> (#[trigger] r.allowed_shapes@[i])@ == shape_map(
                    *names,
                    default_heights(i),
                ),
    {
        let mut allowed_shapes: Vec<NameMap> = Vec::new();
        let mut i: usize = 0;
        while i < NUM_DEFAULT_SHAPES
            invariant
                i <= NUM_DEFAULT_SHAPES,
                allowed_shapes@.len() == i,
                forall|k: int|
                    0 <= k < i ==> (#[trigger] allowed_shapes@[k])@ == shape_map(
                        *names,
                        default_heights(k),
                    ),
            decreases NUM_DEFAULT_SHAPES - i,
        {
            let h = default_row(i);
            let mut map = NameMap::new();
            map.insert(names.mem_var.clone(), h[0]);
            map.insert(names.select.clone(), h[1]);
            map.insert(names.mem_const.clone(), h[2]);
            map.insert(names.batch_fri.clone(), h[3]);
            map.insert(names.base_alu.clone(), h[4]);
            map.insert(names.ext_alu.clone(), h[5]);
            map.insert(names.exp_reverse_bits_len.clone(), h[6]);
            map.insert(names.poseidon2_wide.clone(), h[7]);
            map.insert(names.public_values.clone(), PUB_VALUES_LOG_HEIGHT);
            allowed_shapes.push(map);
            i = i + 1;
        }
        RecursionShapeConfig { allowed_shapes }
    }
}

/// The union of shapes has every chip of each of them, with room for two more doublings, but for
/// the public values.
pub proof fn law_union_has_room(shapes: Seq<NameMap>, s: int, k: Seq<char>)
    requires
        0 <= s < shapes.len(),
        shapes[s]@.contains_key(k),
        forall|t: int, q: Seq<char>|
            0 <= t < shapes.len() && #[trigger] shapes[t]@.contains_key(q) ==> shapes[t]@[q]
                <= usize::MAX - 2,
    ensures
        ({
            let union = with_extra_room(merged_all(shapes, shapes.len()));
            &&& union.contains_key(k)
            &&& k != "PublicValues"@ ==> union[k] >= shapes[s]@[k] + 2
        }),
{
    lemma_merged_bound(shapes, shapes.len(), usize::MAX - 2);
    lemma_merged_above(shapes, shapes.len(), s, k);
}

proof fn lemma_merged_above(shapes: Seq<NameMap>, n: nat, s: int, k: Seq<char>)
    requires
        0 <= s < n <= shapes.len(),
        shapes[s]@.contains_key(k),
    ensures
        merged_all(shapes, n).contains_key(k),
        merged_all(shapes, n)[k] >= shapes[s]@[k],
    decreases n,
{
    if s < n - 1 {
        lemma_merged_above(shapes, (n - 1) as nat, s, k);
    }
}

/// Heights that fit one of the default shapes fit every later one.
pub proof fn law_default_shapes_increase(
    names: ChipNames,
    heights: Seq<(String, usize)>,
    i: int,
    j: int,
)
    requires
        0 <= i <= j < NUM_DEFAULT_SHAPES,
        covers(shape_map(names, default_heights(i)), heights),
        fits(shape_map(names, default_heights(i)), heights),
    ensures
        fits(shape_map(names, default_heights(j)), heights),
{
    let a = shape_map(names, default_heights(i));
    let b = shape_map(names, default_heights(j));
    assert forall|c: int| 0 <= c < 8 implies default_heights(i)[c] <= default_heights(j)[c] by {}
    assert forall|q: int| 0 <= q < heights.len() implies (#[trigger] heights[q]).1 <= pow2(
        b[heights[q].0@] as nat,
    ) by {
        let k = heights[q].0@;
        assert(a.contains_key(k));
        assert(a[k] <= b[k]);
        if a[k] < b[k] {
            lemma_pow2_strictly_increases(a[k] as nat, b[k] as nat);
        }
    }
}

/// A shape admits a program exactly if it admits each of its chips, and a chip exactly if its rows are
/// at most two to the power of the height: one more row does not fit.
pub proof fn law_shape_admits(
    shape: Map<Seq<char>, usize>,
    a: Seq<(String, usize)>,
    b: Seq<(String, usize)>,
    chip: (String, usize),
)
    ensures
        fits(shape, a + b) <==> fits(shape, a) && fits(shape, b),
        fits(shape, seq![chip]) <==> chip.1 <= pow2(shape[chip.0@] as nat),
        fits(shape, Seq::empty()),
{
    let both = a + b;
    assert forall|i: int| 0 <= i < a.len() implies a[i] == both[i] by {}
    assert forall|i: int| 0 <= i < b.len() implies b[i] == both[a.len() + i] by {}
    if fits(shape, both) {
        assert forall|i: int| 0 <= i < a.len() implies (#[trigger] a[i]).1 <= pow2(
            shape[a[i].0@] as nat,
        ) by {
            assert(both[i].1 <= pow2(shape[both[i].0@] as nat));
        }
        assert forall|i: int| 0 <= i < b.len() implies (#[trigger] b[i]).1 <= pow2(
            shape[b[i].0@] as nat,
        ) by {
            assert(both[a.len() + i].1 <= pow2(shape[both[a.len() + i].0@] as nat));
        }
    }
    if fits(shape, seq![chip]) {
        assert(seq![chip][0].1 <= pow2(shape[seq![chip][0].0@] as nat));
    }
}

/// The shape that is chosen admits every chip, and each shape before it is too low for some chip. So
/// there is only one such shape.
pub proof fn law_closest_shape_is_first(
    config: RecursionShapeConfig,
    heights: Seq<(String, usize)>,
    s: int,
    t: int,
)
    requires
        config.is_closest(heights, s),
    ensures
        forall|i: int|
            0 <= i < heights.len() ==> (#[trigger] heights[i]).1 <= pow2(
                config.allowed_shapes@[s]@[heights[i].0@] as nat,
            ),
        0 <= t < s ==> exists|i: int|
            0 <= i < heights.len() && (#[trigger] heights[i]).1 > pow2(
                config.allowed_shapes@[t]@[heights[i].0@] as nat,
            ),
        config.is_closest(heights, t) ==> t == s,
{
    if 0 <= t < s {
        assert(!fits(config.allowed_shapes@[t]@, heights));
    }
    if config.is_closest(heights, t) && t > s {
        assert(!fits(config.allowed_shapes@[s]@, heights));
    }
}

/// The union of shapes has no room to spare: each of its heights but that of the public values is two
/// above one that some shape has, and none of its chips but the public values is new. The height of
/// the public values is always the same.
pub proof fn law_union_is_tight(shapes: Seq<NameMap>, k: Seq<char>) -> (s: int)
    requires
        forall|t: int, q: Seq<char>|
            0 <= t < shapes.len() && #[trigger] shapes[t]@.contains_key(q) ==> shapes[t]@[q]
                <= usize::MAX - 2,
    ensures
        with_extra_room(merged_all(shapes, shapes.len())).contains_key("PublicValues"@),
        with_extra_room(merged_all(shapes, shapes.len()))["PublicValues"@] == 4,
        k != "PublicValues"@ && with_extra_room(
            merged_all(shapes, shapes.len()),
        ).contains_key(k) ==> {
            &&& 0 <= s < shapes.len()
            &&& shapes[s]@.contains_key(k)
            &&& with_extra_room(merged_all(shapes, shapes.len()))[k] == shapes[s]@[k] + 2
        },
{
    lemma_merged_bound(shapes, shapes.len(), usize::MAX - 2);
    if merged_all(shapes, shapes.len()).contains_key(k) {
        lemma_merged_attained(shapes, shapes.len(), k)
    } else {
        0
    }
}

proof fn lemma_merged_attained(shapes: Seq<NameMap>, n: nat, k: Seq<char>) -> (s: int)
    requires
        n <= shapes.len(),
        merged_all(shapes, n).contains_key(k),
    ensures
        0 <= s < n,
        shapes[s]@.contains_key(k),
        merged_all(shapes, n)[k] == shapes[s]@[k],
    decreases n,
{
    let before = merged_all(shapes, (n - 1) as nat);
    let last = shapes[n - 1]@;
    if before.contains_key(k) {
        let s = lemma_merged_attained(shapes, (n - 1) as nat, k);
        if last.contains_key(k) && before[k] < last[k] {
            n - 1
        } else {
            s
        }
    } else {
        n - 1
    }
}

/// Whether no two chips have the same name.
pub open spec fn all_distinct(names: ChipNames) -> bool {
    let all = seq![
        names.mem_var@,
        names.select@,
        names.mem_const@,
        names.batch_fri@,
        names.base_alu@,
        names.ext_alu@,
        names.exp_reverse_bits_len@,
        names.poseidon2_wide@,
        names.public_values@,
    ];
    forall|i: int, j: int| 0 <= i < j < 9 ==> all[i] != all[j]
}

/// The heights of each chip in the default shapes, from the smallest shape to the largest.
pub proof fn law_default_heights_of_chips(names: ChipNames, i: int)
    requires
        all_distinct(names),
        0 <= i < 10,
    ensures
        ({
            let shape = shape_map(names, default_heights(i));
            &&& shape[names.mem_var@] == seq![14usize, 15, 16, 17, 18, 19, 19, 20, 20, 21][i]
            &&& shape[names.select@] == seq![13usize, 15, 16, 17, 18, 19, 20, 20, 20, 21][i]
            &&& shape[names.mem_const@] == seq![14usize, 14, 15, 16, 16, 17, 18, 18, 18, 19][i]
            &&& shape[names.batch_fri@] == seq![12usize, 14, 15, 16, 17, 19, 19, 19, 21, 21][i]
            &&& shape[names.base_alu@] == seq![13usize, 13, 14, 15, 15, 16, 17, 17, 17, 18][i]
            &&& shape[names.ext_alu@] == seq![15usize, 15, 15, 15, 16, 16, 17, 17, 19, 20][i]
            &&& shape[names.exp_reverse_bits_len@] == seq![
                12usize,
                14,
                15,
                16,
                17,
                18,
                18,
                18,
                18,
                19,
            ][i]
            &&& shape[names.poseidon2_wide@] == seq![12usize, 13, 14, 15, 16, 17, 17, 18, 18, 19][i]
            &&& shape[names.public_values@] == 4
            &&& shape.contains_key(names.mem_var@) && shape.contains_key(names.select@)
            &&& shape.contains_key(names.mem_const@) && shape.contains_key(names.batch_fri@)
            &&& shape.contains_key(names.base_alu@) && shape.contains_key(names.ext_alu@)
            &&& shape.contains_key(names.exp_reverse_bits_len@)
            &&& shape.contains_key(names.poseidon2_wide@)
            &&& shape.contains_key(names.public_values@)
        }),
        NUM_DEFAULT_SHAPES == 10,
{
    let all = seq![
        names.mem_var@,
        names.select@,
        names.mem_const@,
        names.batch_fri@,
        names.base_alu@,
        names.ext_alu@,
        names.exp_reverse_bits_len@,
        names.poseidon2_wide@,
        names.public_values@,
    ];
    assert(all[0] == names.mem_var@ && all[1] == names.select@ && all[2] == names.mem_const@);
    assert(all[3] == names.batch_fri@ && all[4] == names.base_alu@ && all[5] == names.ext_alu@);
    assert(all[6] == names.exp_reverse_bits_len@ && all[7] == names.poseidon2_wide@ && all[8]
        == names.public_values@);
}

/// Combinations are counted like numbers, with a digit for each program: the last program's shape is
/// the number of the combination modulo the number of shapes, and the others have those of the
/// combination of one program less whose number is the quotient.
pub proof fn law_combinations_count_up(config: RecursionShapeConfig, batch_size: nat, t: int)
    requires
        config.allowed_shapes@.len() > 0,
        batch_size > 0,
        0 <= t,
    ensures
        config.combination(batch_size, t, batch_size - 1) == t % (
        config.allowed_shapes@.len() as int),
        forall|j: int|
            0 <= j < batch_size - 1 ==> #[trigger] config.combination(batch_size, t, j)
                == config.combination(
                (batch_size - 1) as nat,
                t / (config.allowed_shapes@.len() as int),
                j,
            ),
{
    let n = config.allowed_shapes@.len() as int;
    lemma_pow0(n);
    assert(t / 1 == t);
    assert forall|j: int| 0 <= j < batch_size - 1 implies #[trigger] config.combination(
        batch_size,
        t,
        j,
    ) == config.combination((batch_size - 1) as nat, t / n, j) by {
        let e = (batch_size - 1 - 1 - j) as nat;
        assert((batch_size - 1 - j) as nat == e + 1);
        reveal(pow);
        assert(pow(n, e + 1) == n * pow(n, e));
        lemma_pow_positive(n, e);
        vstd::arithmetic::div_mod::lemma_div_denominator(t, n, pow(n, e));
    }
}

} // verus!
