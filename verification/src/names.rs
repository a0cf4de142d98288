//! Names, and maps from names to numbers.

use vstd::prelude::*;

verus! {

/// A map from names to numbers, held as a `hashbrown::HashMap`.
#[verifier::external_body]
pub struct NameMap {
    inner: hashbrown::HashMap<String, usize>,
}

/// What a map holds.
pub uninterp spec fn name_map_contents(m: NameMap) -> Map<Seq<char>, usize>;

impl View for NameMap {
    type V = Map<Seq<char>, usize>;

    open spec fn view(&self) -> Map<Seq<char>, usize> {
        name_map_contents(*self)
    }
}

impl NameMap {
    /// Calls `hashbrown::HashMap::new`: the new map holds nothing.
    #[verifier::external_body]
    pub(crate) fn hash_map_new() -> (r: NameMap)
        ensures
            name_map_contents(r) =~= Map::empty(),
    {
        NameMap { inner: hashbrown::HashMap::new() }
    }

    /// Calls `hashbrown::HashMap::get`: the value of the name, if the map holds it.
    #[verifier::external_body]
    pub(crate) fn hash_map_get(&self, name: &String) -> (r: Option<usize>)
        ensures
            r == (if name_map_contents(*self).contains_key(name@) {
                Some(name_map_contents(*self)[name@])
            } else {
                None
            }),
    {
        self.inner.get(name).copied()
    }

    /// Calls `hashbrown::HashMap::insert`: the name has the new value; other names are unchanged.
    /// The value that the name had before is dropped.
    #[verifier::external_body]
    pub(crate) fn hash_map_insert(&mut self, name: String, value: usize)
        ensures
            name_map_contents(*final(self)) == name_map_contents(*old(self)).insert(name@, value),
    {
        self.inner.insert(name, value);
    }

    /// Calls `hashbrown::HashMap::iter`: every pair of the map, each name once. The order of the
    /// pairs is not stated: it depends on the hasher.
    #[verifier::external_body]
    pub(crate) fn hash_map_iter(&self) -> (r: Vec<(String, usize)>)
        ensures
            forall|i: int|
                0 <= i < r@.len() ==> name_map_contents(*self).contains_key((#[trigger] r@[i]).0@)
                    && name_map_contents(*self)[r@[i].0@] == r@[i].1,
            forall|i: int, j: int|
                0 <= i < j < r@.len() ==> (#[trigger] r@[i]).0@ != (#[trigger] r@[j]).0@,
            forall|k: Seq<char>| #[trigger]
                name_map_contents(*self).contains_key(k) ==> exists|i: int|
                    0 <= i < r@.len() && (#[trigger] r@[i]).0@ == k,
    {
        self.inner.iter().map(|(name, value)| (name.clone(), *value)).collect()
    }

    /// An empty map.
    pub fn new() -> (r: NameMap)
        ensures
            r@ == Map::<Seq<char>, usize>::empty(),
    {
        Self::hash_map_new()
    }

    pub fn get(&self, name: &String) -> (r: Option<usize>)
        ensures
            r == (if self@.contains_key(name@) {
                Some(self@[name@])
            } else {
                None
            }),
    {
        self.hash_map_get(name)
    }

    pub fn insert(&mut self, name: String, value: usize)
        ensures
            final(self)@ == old(self)@.insert(name@, value),
    {
        self.hash_map_insert(name, value)
    }

    /// The pairs of the map, each name once, in some order.
    pub fn entries(&self) -> (r: Vec<(String, usize)>)
        ensures
            lists(r@, self@),
    {
        self.hash_map_iter()
    }

    /// A map with the same contents.
    pub fn duplicate(&self) -> (r: NameMap)
        ensures
            r@ == self@,
    {
        let pairs = self.entries();
        from_entries(&pairs, Ghost(self@))
    }
}

/// Whether `pairs` holds the pairs of a map, each name once.
pub open spec fn lists(pairs: Seq<(String, usize)>, m: Map<Seq<char>, usize>) -> bool {
    &&& forall|i: int|
        0 <= i < pairs.len() ==> m.contains_key((#[trigger] pairs[i]).0@) && m[pairs[i].0@]
            == pairs[i].1
    &&& forall|i: int, j: int|
        0 <= i < j < pairs.len() ==> (#[trigger] pairs[i]).0@ != (#[trigger] pairs[j]).0@
    &&& forall|k: Seq<char>| #[trigger]
        m.contains_key(k) ==> exists|i: int| 0 <= i < pairs.len() && (#[trigger] pairs[i]).0@ == k
}

fn from_entries(pairs: &Vec<(String, usize)>, Ghost(m): Ghost<Map<Seq<char>, usize>>) -> (r: NameMap)
    requires
        lists(pairs@, m),
    ensures
        r@ == m,
{
    let mut r = NameMap::new();
    let mut i: usize = 0;
    while i < pairs.len()
        invariant
            i <= pairs@.len(),
            lists(pairs@, m),
            forall|k: Seq<char>| #[trigger]
                r@.contains_key(k) <==> exists|j: int|
                    0 <= j < i && (#[trigger] pairs@[j]).0@ == k,
            forall|k: Seq<char>| #[trigger] r@.contains_key(k) ==> m.contains_key(k) && r@[k] == m[k],
        decreases pairs@.len() - i,
    {
        let name: String = pairs[i].0.clone();
        let ghost before = r@;
        r.insert(name, pairs[i].1);
        proof {
            assert forall|k: Seq<char>| #[trigger] r@.contains_key(k) <==> exists|j: int|
                0 <= j < i + 1 && (#[trigger] pairs@[j]).0@ == k by {
                if before.contains_key(k) {
                    let j = choose|j: int| 0 <= j < i && (#[trigger] pairs@[j]).0@ == k;
                    assert(pairs@[j].0@ == k);
                }
                if k == name@ {
                    assert(pairs@[i as int].0@ == k);
                }
                if r@.contains_key(k) && k != name@ {
                    assert(before.contains_key(k));
                }
                if exists|j: int| 0 <= j < i + 1 && (#[trigger] pairs@[j]).0@ == k {
                    let j = choose|j: int| 0 <= j < i + 1 && (#[trigger] pairs@[j]).0@ == k;
                    if j < i {
                        assert(before.contains_key(k));
                    }
                }
            }
        }
        i = i + 1;
    }
    proof {
        assert forall|k: Seq<char>| r@.contains_key(k) == m.contains_key(k) by {
            if m.contains_key(k) {
                let j = choose|j: int| 0 <= j < pairs@.len() && (#[trigger] pairs@[j]).0@ == k;
                assert(pairs@[j].0@ == k);
            }
        }
        assert(r@ =~= m);
    }
    r
}

/// Whether `a` comes before `b` in the order of a dictionary.
pub open spec fn name_before(a: Seq<char>, b: Seq<char>) -> bool
    decreases b.len(),
{
    if b.len() == 0 {
        false
    } else if a.len() == 0 {
        true
    } else if a[0] != b[0] {
        a[0] < b[0]
    } else {
        name_before(a.drop_first(), b.drop_first())
    }
}

/// Calls `<` on two `String`s, which compares them character by character.
#[verifier::external_body]
pub(crate) fn string_lt(a: &String, b: &String) -> (r: bool)
    ensures
        r == name_before(a@, b@),
{
    a < b
}

pub proof fn lemma_name_irreflexive(a: Seq<char>)
    ensures
        !name_before(a, a),
    decreases a.len(),
{
    if a.len() > 0 {
        lemma_name_irreflexive(a.drop_first());
    }
}

pub proof fn lemma_name_total(a: Seq<char>, b: Seq<char>)
    ensures
        name_before(a, b) || name_before(b, a) || a == b,
    decreases b.len(),
{
    if a.len() > 0 && b.len() > 0 && a[0] == b[0] {
        lemma_name_total(a.drop_first(), b.drop_first());
        if a.drop_first() == b.drop_first() {
            assert(a =~= seq![a[0]] + a.drop_first());
            assert(b =~= seq![b[0]] + b.drop_first());
        }
    } else if a.len() == 0 && b.len() == 0 {
        assert(a =~= b);
    }
}

pub proof fn lemma_name_trans(a: Seq<char>, b: Seq<char>, c: Seq<char>)
    requires
        name_before(a, b),
        name_before(b, c),
    ensures
        name_before(a, c),
    decreases c.len(),
{
    if a.len() > 0 && a[0] == b[0] && b[0] == c[0] {
        lemma_name_trans(a.drop_first(), b.drop_first(), c.drop_first());
    }
}

/// Names are in the order of a dictionary: the first character that differs decides, and where none
/// does the shorter name comes first.
pub proof fn law_first_difference_decides(a: Seq<char>, b: Seq<char>, k: int)
    requires
        0 <= k <= a.len(),
        k <= b.len(),
        forall|i: int| 0 <= i < k ==> a[i] == b[i],
    ensures
        k < a.len() && k < b.len() && a[k] != b[k] ==> (name_before(a, b) <==> a[k] < b[k]),
        k == a.len() ==> (name_before(a, b) <==> a.len() < b.len()),
        k == b.len() ==> !name_before(a, b),
    decreases k,
{
    if k > 0 {
        law_first_difference_decides(a.drop_first(), b.drop_first(), k - 1);
    }
}

} // verus!
