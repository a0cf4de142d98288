//! Interactions between chips: what a row sends to and receives from the lookup bus.

use vstd::prelude::*;
use crate::babybear::{Felt, P};
use crate::field::Field;
use crate::ring;
use crate::ring::Ring;

verus! {

/// A column of a row, of the preprocessed or of the main trace.
#[derive(Clone, Copy, PartialEq, Eq, Structural, Debug)]
pub enum PairCol {
    Preprocessed(usize),
    Main(usize),
}

impl PairCol {
    pub open spec fn value(&self, prep: Seq<Felt>, main: Seq<Felt>) -> Felt {
        match self {
            PairCol::Preprocessed(i) => prep[*i as int],
            PairCol::Main(i) => main[*i as int],
        }
    }

    pub open spec fn in_range(&self, prep_width: nat, main_width: nat) -> bool {
        match self {
            PairCol::Preprocessed(i) => *i < prep_width,
            PairCol::Main(i) => *i < main_width,
        }
    }

    pub fn get(&self, prep: &[Felt], main: &[Felt]) -> (r: Felt)
        requires
            self.in_range(prep@.len(), main@.len()),
        ensures
            r == self.value(prep@, main@),
    {
        match self {
            PairCol::Preprocessed(i) => prep[*i],
            PairCol::Main(i) => main[*i],
        }
    }
}

/// An affine function of the columns of a row.
#[derive(Debug)]
pub struct VirtualPairCol {
    pub column_weights: Vec<(PairCol, Felt)>,
    pub constant: Felt,
}

impl VirtualPairCol {
    /// The constant plus the first `n` weighted columns.
    pub open spec fn partial(&self, prep: Seq<Felt>, main: Seq<Felt>, n: nat) -> Felt
        decreases n,
    {
        if n == 0 {
            self.constant
        } else {
            let (col, weight) = self.column_weights@[n - 1];
            self.partial(prep, main, (n - 1) as nat).plus(col.value(prep, main).times(weight))
        }
    }

    /// The value on a row.
    pub open spec fn value(&self, prep: Seq<Felt>, main: Seq<Felt>) -> Felt {
        self.partial(prep, main, self.column_weights@.len())
    }

    pub open spec fn in_range(&self, prep_width: nat, main_width: nat) -> bool {
        forall|i: int|
            0 <= i < self.column_weights@.len() ==> (#[trigger] self.column_weights@[i]).0.in_range(
                prep_width,
                main_width,
            )
    }

    pub fn apply(&self, prep: &[Felt], main: &[Felt]) -> (r: Felt)
        requires
            self.in_range(prep@.len(), main@.len()),
        ensures
            r == self.value(prep@, main@),
    {
        let mut result: Felt = self.constant;
        let mut i: usize = 0;
        while i < self.column_weights.len()
            invariant
                i <= self.column_weights@.len(),
                self.in_range(prep@.len(), main@.len()),
                result == self.partial(prep@, main@, i as nat),
            decreases self.column_weights@.len() - i,
        {
            let (col, weight) = self.column_weights[i];
            assert(self.column_weights@[i as int].0.in_range(prep@.len(), main@.len()));
            result = result.add(col.get(prep, main).mul(weight));
            i = i + 1;
        }
        result
    }
}

/// Whether an interaction stays within a shard.
#[derive(Clone, Copy, PartialEq, Eq, Structural, Debug, PartialOrd, Ord, Hash)]
pub enum InteractionScope {
    Global,
    Local,
}

/// A message on the lookup bus: its kind, its fields, and how often it is sent.
#[derive(Debug)]
pub struct Interaction {
    pub values: Vec<VirtualPairCol>,
    pub multiplicity: VirtualPairCol,
    pub argument_index: usize,
    pub scope: InteractionScope,
}

impl Interaction {
    /// The columns exist, and the kind is a field element.
    pub open spec fn in_range(&self, prep_width: nat, main_width: nat) -> bool {
        &&& forall|i: int|
            0 <= i < self.values@.len() ==> (#[trigger] self.values@[i]).in_range(
                prep_width,
                main_width,
            )
        &&& self.multiplicity.in_range(prep_width, main_width)
        &&& self.argument_index < P
    }
}

/// The interactions of a scope, in order.
pub open spec fn of_scope(ints: Seq<&Interaction>, scope: InteractionScope) -> Seq<&Interaction>
    decreases ints.len(),
{
    if ints.len() == 0 {
        Seq::empty()
    } else {
        let rest = of_scope(ints.drop_last(), scope);
        if ints.last().scope == scope {
            rest.push(ints.last())
        } else {
            rest
        }
    }
}

/// Interactions grouped by scope.
pub struct ScopedInteractions<'a> {
    pub global: Vec<&'a Interaction>,
    pub local: Vec<&'a Interaction>,
}

impl<'a> ScopedInteractions<'a> {
    pub open spec fn groups(&self, ints: Seq<&Interaction>) -> bool {
        &&& self.global@ == of_scope(ints, InteractionScope::Global)
        &&& self.local@ == of_scope(ints, InteractionScope::Local)
    }

    /// The interactions of a scope, if there are any.
    pub fn get(&self, scope: InteractionScope) -> (r: Option<&Vec<&'a Interaction>>)
        ensures
            ({
                let group = match scope {
                    InteractionScope::Global => self.global,
                    InteractionScope::Local => self.local,
                };
                &&& r is Some <==> group@.len() > 0
                &&& r matches Some(v) ==> *v == group
            }),
    {
        let group: &Vec<&'a Interaction> = match scope {
            InteractionScope::Global => &self.global,
            InteractionScope::Local => &self.local,
        };
        if group.len() > 0 {
            Some(group)
        } else {
            None
        }
    }
}

fn group_by_scope<'a>(ints: &Vec<&'a Interaction>) -> (r: ScopedInteractions<'a>)
    ensures
        r.groups(ints@),
{
    let mut global: Vec<&'a Interaction> = Vec::new();
    let mut local: Vec<&'a Interaction> = Vec::new();
    let mut i: usize = 0;
    while i < ints.len()
        invariant
            i <= ints@.len(),
            global@ == of_scope(ints@.take(i as int), InteractionScope::Global),
            local@ == of_scope(ints@.take(i as int), InteractionScope::Local),
        decreases ints@.len() - i,
    {
        let one: &'a Interaction = ints[i];
        proof {
            assert(ints@.take(i + 1).drop_last() =~= ints@.take(i as int));
            assert(ints@.take(i + 1).last() == one);
        }
        match one.scope {
            InteractionScope::Global => {
                global.push(one);
            },
            InteractionScope::Local => {
                local.push(one);
            },
        }
        i = i + 1;
    }
    assert(ints@.take(i as int) =~= ints@);
    ScopedInteractions { global, local }
}

/// The sends and the receives, grouped by scope.
pub fn scoped_interactions<'a>(
    sends: &Vec<&'a Interaction>,
    receives: &Vec<&'a Interaction>,
) -> (r: (ScopedInteractions<'a>, ScopedInteractions<'a>))
    ensures
        r.0.groups(sends@),
        r.1.groups(receives@),
{
    (group_by_scope(sends), group_by_scope(receives))
}

/// The entry that a column names, times its weight.
pub open spec fn weighted(col: VirtualPairCol, prep: Seq<Felt>, main: Seq<Felt>, i: int) -> Felt {
    let (place, weight) = col.column_weights@[i];
    (match place {
        PairCol::Preprocessed(k) => prep[k as int],
        PairCol::Main(k) => main[k as int],
    }).times(weight)
}

/// The constant of an affine column, plus the sum of weight times entry over its columns.
pub open spec fn affine(col: VirtualPairCol, prep: Seq<Felt>, main: Seq<Felt>) -> Felt {
    col.constant.plus(
        ring::sum(col.column_weights@.len(), |i: int| weighted(col, prep, main, i)),
    )
}

proof fn lemma_partial(col: VirtualPairCol, prep: Seq<Felt>, main: Seq<Felt>, n: nat)
    requires
        n <= col.column_weights@.len(),
    ensures
        ring::reduced(col.partial(prep, main, n)) == col.constant.plus(
            ring::sum(n, |i: int| weighted(col, prep, main, i)),
        ),
    decreases n,
{
    let f = |i: int| weighted(col, prep, main, i);
    if n > 0 {
        let m = (n - 1) as nat;
        lemma_partial(col, prep, main, m);
        let t = f(m as int);
        ring::lemma_add_reduced(col.partial(prep, main, m), t);
        Felt::law_add_assoc(col.constant, ring::sum(m, f), t);
    }
}

/// The value of an affine column on a row is its constant plus the sum of weight times entry. So a
/// column without weights has its constant as value.
pub proof fn law_affine_value(col: VirtualPairCol, prep: Seq<Felt>, main: Seq<Felt>)
    ensures
        ring::reduced(col.value(prep, main)) == affine(col, prep, main),
        col.column_weights@.len() == 0 ==> col.value(prep, main) == col.constant,
{
    lemma_partial(col, prep, main, col.column_weights@.len());
}

/// Of two affine columns with the same weights, the values differ by as much as the constants.
pub proof fn law_constant_shifts_value(
    a: VirtualPairCol,
    b: VirtualPairCol,
    prep: Seq<Felt>,
    main: Seq<Felt>,
    d: Felt,
)
    requires
        a.column_weights@ == b.column_weights@,
        b.constant == a.constant.plus(d),
    ensures
        ring::reduced(b.value(prep, main)) == a.value(prep, main).plus(d),
{
    law_affine_value(a, prep, main);
    law_affine_value(b, prep, main);
    let n = a.column_weights@.len();
    let (f, g) = (|i: int| weighted(a, prep, main, i), |i: int| weighted(b, prep, main, i));
    ring::lemma_sum_ext(n, f, g);
    let s = ring::sum(n, f);
    ring::lemma_sum_ext(n, g, |i: int| weighted(b, prep, main, i));
    ring::lemma_sum_ext(n, f, |i: int| weighted(a, prep, main, i));
    Felt::law_add_assoc(a.constant, d, s);
    Felt::law_add_comm(d, s);
    Felt::law_add_assoc(a.constant, s, d);
    ring::lemma_add_reduced(a.value(prep, main), d);
}

/// A column reads the entry that it names and no other: whatever is put there is read back, and
/// nothing changes when anything else does.
pub proof fn law_column_reads_its_entry(
    prep: Seq<Felt>,
    main: Seq<Felt>,
    others: Seq<Felt>,
    k: usize,
    j: int,
    x: Felt,
    y: Felt,
)
    requires
        k < prep.len(),
        k < main.len(),
        0 <= j < prep.len(),
        j < main.len(),
        j != k,
    ensures
        PairCol::Main(k).value(others, main.update(k as int, x)) == x,
        PairCol::Main(k).value(others, main.update(j, y)) == PairCol::Main(k).value(prep, main),
        PairCol::Preprocessed(k).value(prep.update(k as int, x), others) == x,
        PairCol::Preprocessed(k).value(prep.update(j, y), others) == PairCol::Preprocessed(
            k,
        ).value(prep, main),
{
}

/// An interaction is of a scope exactly if it is among those of that scope, and no interaction is
/// lost: those of the two scopes are as many as all, and together they are all.
pub proof fn law_scopes_part_interactions(ints: Seq<&Interaction>)
    ensures
        of_scope(ints, InteractionScope::Global).len() + of_scope(
            ints,
            InteractionScope::Local,
        ).len() == ints.len(),
        of_scope(ints, InteractionScope::Global).to_multiset().add(
            of_scope(ints, InteractionScope::Local).to_multiset(),
        ) =~= ints.to_multiset(),
        forall|i: int|
            0 <= i < of_scope(ints, InteractionScope::Global).len() ==> (
            #[trigger] of_scope(ints, InteractionScope::Global)[i]).scope is Global,
        forall|i: int|
            0 <= i < of_scope(ints, InteractionScope::Local).len() ==> (
            #[trigger] of_scope(ints, InteractionScope::Local)[i]).scope is Local,
    decreases ints.len(),
{
    broadcast use vstd::seq_lib::group_to_multiset_ensures;
    if ints.len() > 0 {
        let (init, last) = (ints.drop_last(), ints.last());
        law_scopes_part_interactions(init);
        assert(ints =~= init.push(last));
        let (g, l) = (
            of_scope(init, InteractionScope::Global),
            of_scope(init, InteractionScope::Local),
        );
        assert(ints.to_multiset() =~= init.to_multiset().insert(last));
        if last.scope is Global {
            assert(of_scope(ints, InteractionScope::Global) == g.push(last));
            assert(of_scope(ints, InteractionScope::Local) == l);
            assert(g.push(last).to_multiset() =~= g.to_multiset().insert(last));
        } else {
            assert(of_scope(ints, InteractionScope::Local) == l.push(last));
            assert(of_scope(ints, InteractionScope::Global) == g);
            assert(l.push(last).to_multiset() =~= l.to_multiset().insert(last));
        }
    }
}

/// The interactions of a scope keep their order: those of a list are those of its first part,
/// followed by those of the rest.
pub proof fn law_scope_keeps_order(
    a: Seq<&Interaction>,
    b: Seq<&Interaction>,
    scope: InteractionScope,
)
    ensures
        of_scope(a + b, scope) == of_scope(a, scope) + of_scope(b, scope),
    decreases b.len(),
{
    if b.len() == 0 {
        assert(a + b =~= a);
        assert(of_scope(a, scope) + of_scope(b, scope) =~= of_scope(a, scope));
    } else {
        law_scope_keeps_order(a, b.drop_last(), scope);
        assert((a + b).drop_last() =~= a + b.drop_last());
        assert((a + b).last() == b.last());
        let (x, y) = (of_scope(a, scope), of_scope(b.drop_last(), scope));
        assert((x + y).push(b.last()) =~= x + y.push(b.last()));
    }
}

} // verus!
