//! The order of the tables of a shard: the tallest first, and by name where heights are equal.

use vstd::prelude::*;
use crate::babybear::Felt;
use crate::matrix::Matrix;
use crate::names;
use crate::names::NameMap;

verus! {

/// A table with its name.
pub type NamedTrace = (String, Matrix<Felt>);

/// Whether table `a` has its place before table `b`.
pub open spec fn goes_before(a: NamedTrace, b: NamedTrace) -> bool {
    a.1.rows() > b.1.rows() || (a.1.rows() == b.1.rows() && names::name_before(a.0@, b.0@))
}

/// The place of a table among others that are in order: behind those that it does not go before.
pub open spec fn place(sorted: Seq<NamedTrace>, x: NamedTrace, n: nat) -> nat
    decreases n,
{
    if n == 0 {
        0
    } else if goes_before(x, sorted[n - 1]) {
        place(sorted, x, (n - 1) as nat)
    } else {
        n
    }
}

/// The first `n` tables in order. Tables that go before neither keep their order.
pub open spec fn ordered(traces: Seq<NamedTrace>, n: nat) -> Seq<NamedTrace>
    decreases n,
{
    if n == 0 {
        Seq::empty()
    } else {
        let before = ordered(traces, (n - 1) as nat);
        before.insert(place(before, traces[n - 1], before.len()) as int, traces[n - 1])
    }
}

/// Puts the tables of a shard in order.
pub fn order_traces(traces: Vec<NamedTrace>) -> (r: Vec<NamedTrace>)
    requires
        forall|i: int| 0 <= i < traces@.len() ==> (#[trigger] traces@[i]).1.width > 0,
    ensures
        r@ == ordered(traces@, traces@.len()),
{
    let ghost all = traces@;
    let mut left: Vec<NamedTrace> = traces;
    let mut r: Vec<NamedTrace> = Vec::new();
    let ghost mut i: nat = 0;
    while left.len() > 0
        invariant
            i + left@.len() == all.len(),
            left@ == all.skip(i as int),
            r@ == ordered(all, i),
            r@.len() == i,
            forall|k: int| 0 <= k < all.len() ==> (#[trigger] all[k]).1.width > 0,
            forall|k: int| 0 <= k < r@.len() ==> (#[trigger] r@[k]).1.width > 0,
        decreases left@.len(),
    {
        let x: NamedTrace = left.remove(0);
        assert(x == all[i as int]);
        assert(left@ =~= all.skip((i + 1) as int));
        let height: usize = x.1.height();
        let mut p: usize = r.len();
        while p > 0
            invariant
                p <= r@.len(),
                height == x.1.rows(),
                forall|k: int| 0 <= k < r@.len() ==> (#[trigger] r@[k]).1.width > 0,
                place(r@, x, r@.len()) == place(r@, x, p as nat),
            ensures
                p == place(r@, x, r@.len()),
                p <= r@.len(),
            decreases p,
        {
            assert(r@[p - 1].1.width > 0);
            let other: usize = r[p - 1].1.height();
            if height > other || (height == other && names::string_lt(&x.0, &r[p - 1].0)) {
                p = p - 1;
            } else {
                break;
            }
        }
        let ghost before = r@;
        r.insert(p, x);
        proof {
            i = i + 1;
            assert forall|k: int| 0 <= k < r@.len() implies (#[trigger] r@[k]).1.width > 0 by {
                if k < p {
                    assert(r@[k] == before[k]);
                } else if k > p {
                    assert(r@[k] == before[k - 1]);
                }
            }
        }
    }
    r
}

/// What the order of tables is: a total order up to equal heights and names.
proof fn lemma_goes_before(a: NamedTrace, b: NamedTrace, c: NamedTrace)
    ensures
        !goes_before(a, a),
        goes_before(a, b) ==> !goes_before(b, a),
        !goes_before(b, a) && !goes_before(c, b) ==> !goes_before(c, a),
{
    names::lemma_name_irreflexive(a.0@);
    if names::name_before(a.0@, b.0@) && names::name_before(b.0@, a.0@) {
        names::lemma_name_trans(a.0@, b.0@, a.0@);
    }
    names::lemma_name_total(a.0@, b.0@);
    names::lemma_name_total(b.0@, c.0@);
    if names::name_before(c.0@, a.0@) && names::name_before(a.0@, b.0@) {
        names::lemma_name_trans(c.0@, a.0@, b.0@);
    }
}

/// Whether no table has its place before an earlier one.
pub open spec fn in_order(s: Seq<NamedTrace>) -> bool {
    forall|i: int, j: int| 0 <= i < j < s.len() ==> !goes_before(#[trigger] s[j], #[trigger] s[i])
}

proof fn lemma_place(s: Seq<NamedTrace>, x: NamedTrace, n: nat)
    requires
        in_order(s),
        n <= s.len(),
        forall|i: int| n <= i < s.len() ==> goes_before(x, #[trigger] s[i]),
    ensures
        place(s, x, n) <= n,
        forall|i: int| 0 <= i < place(s, x, n) ==> !goes_before(x, #[trigger] s[i]),
        forall|i: int| place(s, x, n) <= i < s.len() ==> goes_before(x, #[trigger] s[i]),
    decreases n,
{
    if n > 0 {
        if goes_before(x, s[n - 1]) {
            lemma_place(s, x, (n - 1) as nat);
        } else {
            assert forall|i: int| 0 <= i < n implies !goes_before(x, #[trigger] s[i]) by {
                if i < n - 1 {
                    assert(!goes_before(s[n - 1], s[i]));
                    lemma_goes_before(s[i], s[n - 1], x);
                }
            }
        }
    }
}

/// The tables in order are the same tables, the tallest first, and by name where heights are
/// equal.
pub proof fn law_order_sorts(traces: Seq<NamedTrace>, n: nat)
    requires
        n <= traces.len(),
    ensures
        ordered(traces, n).len() == n,
        in_order(ordered(traces, n)),
        ordered(traces, n).to_multiset() == traces.take(n as int).to_multiset(),
    decreases n,
{
    if n == 0 {
        assert(traces.take(0) =~= Seq::empty());
    } else {
        law_order_sorts(traces, (n - 1) as nat);
        let s = ordered(traces, (n - 1) as nat);
        let x = traces[n - 1];
        let p = place(s, x, s.len());
        lemma_place(s, x, s.len());
        let t = s.insert(p as int, x);
        assert forall|i: int, j: int| 0 <= i < j < t.len() implies !goes_before(
            #[trigger] t[j],
            #[trigger] t[i],
        ) by {
            if j == p {
                assert(t[i] == s[i]);
            } else if i == p {
                assert(t[j] == s[j - 1]);
                lemma_goes_before(x, s[j - 1], x);
            } else {
                let a = if i < p {
                    i
                } else {
                    i - 1
                };
                let b = if j < p {
                    j
                } else {
                    j - 1
                };
                assert(t[i] == s[a] && t[j] == s[b]);
            }
        }
        s.to_multiset_ensures();
        vstd::seq_lib::to_multiset_insert(s, p as int, x);
        traces.take(n - 1).to_multiset_ensures();
        assert(traces.take(n as int) =~= traces.take(n - 1).push(x));
    }
}

/// The places of the first `n` names; of equal names the last one counts.
pub open spec fn places(traces: Seq<NamedTrace>, n: nat) -> Map<Seq<char>, usize>
    decreases n,
{
    if n == 0 {
        Map::empty()
    } else {
        places(traces, (n - 1) as nat).insert(traces[n - 1].0@, (n - 1) as usize)
    }
}

/// The place of each table, by name.
pub fn chip_ordering(traces: &Vec<NamedTrace>) -> (r: NameMap)
    ensures
        r@ == places(traces@, traces@.len()),
{
    let mut r = NameMap::new();
    let mut i: usize = 0;
    while i < traces.len()
        invariant
            i <= traces@.len(),
            r@ == places(traces@, i as nat),
        decreases traces@.len() - i,
    {
        r.insert(traces[i].0.clone(), i);
        i = i + 1;
    }
    r
}

/// The tables of a shard stand by height, the tallest first; among tables of the same height no name
/// comes before that of an earlier table.
pub proof fn law_taller_first(traces: Seq<NamedTrace>, n: nat, i: int, j: int)
    requires
        n <= traces.len(),
        0 <= i < j < n,
    ensures
        ordered(traces, n)[i].1.rows() >= ordered(traces, n)[j].1.rows(),
        ordered(traces, n)[i].1.rows() == ordered(traces, n)[j].1.rows() ==> !names::name_before(
            ordered(traces, n)[j].0@,
            ordered(traces, n)[i].0@,
        ),
{
    law_order_sorts(traces, n);
    let s = ordered(traces, n);
    assert(!goes_before(s[j], s[i]));
}

/// A table that is put in order after others of its height and name comes after them: among the
/// tables in order, those before its place are no lower, and those after it are lower, or as high
/// with a later name.
pub proof fn law_equal_tables_keep_order(traces: Seq<NamedTrace>, n: nat) -> (p: int)
    requires
        0 < n <= traces.len(),
    ensures
        0 <= p < n,
        ordered(traces, n) == ordered(traces, (n - 1) as nat).insert(p, traces[n - 1]),
        forall|k: int|
            0 <= k < p ==> (#[trigger] ordered(traces, (n - 1) as nat)[k]).1.rows() >= traces[n
                - 1].1.rows(),
        forall|k: int|
            p <= k < n - 1 ==> {
                let other = #[trigger] ordered(traces, (n - 1) as nat)[k];
                other.1.rows() < traces[n - 1].1.rows() || (other.1.rows() == traces[n
                    - 1].1.rows() && names::name_before(traces[n - 1].0@, other.0@))
            },
{
    let s = ordered(traces, (n - 1) as nat);
    let x = traces[n - 1];
    law_order_sorts(traces, (n - 1) as nat);
    lemma_place(s, x, s.len());
    let p = place(s, x, s.len()) as int;
    assert forall|k: int| 0 <= k < p implies (#[trigger] s[k]).1.rows() >= x.1.rows() by {
        assert(!goes_before(x, s[k]));
    }
    assert forall|k: int| p <= k < n - 1 implies {
        let other = #[trigger] s[k];
        other.1.rows() < x.1.rows() || (other.1.rows() == x.1.rows() && names::name_before(
            x.0@,
            other.0@,
        ))
    } by {
        assert(goes_before(x, s[k]));
    }
    p
}

/// The place of a table is found by its name, where no later table has the same one; and no other
/// names are there.
pub proof fn law_places_find_tables(traces: Seq<NamedTrace>, n: nat, i: int, name: Seq<char>)
    requires
        n <= traces.len(),
        n <= usize::MAX,
        0 <= i < n,
    ensures
        (forall|j: int| i < j < n ==> (#[trigger] traces[j]).0@ != traces[i].0@) ==> places(
            traces,
            n,
        ).contains_key(traces[i].0@) && places(traces, n)[traces[i].0@] == i,
        places(traces, n).contains_key(name) ==> {
            let k = places(traces, n)[name] as int;
            k < n && traces[k].0@ == name
        },
    decreases n,
{
    if n == 1 {
        reveal_with_fuel(places, 2);
    } else if i < n - 1 {
        law_places_find_tables(traces, (n - 1) as nat, i, name);
        if forall|j: int| i < j < n ==> (#[trigger] traces[j]).0@ != traces[i].0@ {
            assert(traces[n - 1].0@ != traces[i].0@);
        }
    } else {
        law_places_find_tables(traces, (n - 1) as nat, 0, name);
    }
}

} // verus!
