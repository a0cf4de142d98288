//! The rounds of proving a shard. Between them a host draws challenges and commits to matrices.

use vstd::prelude::*;
use vstd::arithmetic::div_mod::*;
use vstd::arithmetic::power2::*;
use crate::babybear::Felt;
use crate::builder::SepticDigest;
use crate::chip;
use crate::chip::Chip;
use crate::ext::Ext;
use crate::field::Field;
use crate::folder;
use crate::ir;
use crate::lookup::{Interaction, InteractionScope};
use crate::matrix::Matrix;
use crate::names::NameMap;
use crate::permutation;
use crate::ring::Ring;

verus! {

/// What a setting that is read from the environment says.
pub open spec fn says(value: Option<String>, want: Seq<char>) -> bool {
    value matches Some(v) && v@ == want
}

fn setting_is(value: &Option<String>, want: &str) -> (r: bool)
    ensures
        r == says(*value, want@),
{
    match value {
        Some(v) => *v == want.to_owned(),
        None => false,
    }
}

/// Whether constraints are evaluated on the accelerator: its own setting decides, or else that of
/// the transform.
pub fn gpu_constraints_enabled(metal_constraints: &Option<String>, metal_dft: &Option<String>) -> (r:
    bool)
    ensures
        r == if metal_constraints is Some {
            says(*metal_constraints, "1"@)
        } else {
            says(*metal_dft, "1"@)
        },
{
    match metal_constraints {
        Some(_) => setting_is(metal_constraints, "1"),
        None => setting_is(metal_dft, "1"),
    }
}

/// Whether commitments are opened one at a time: unless switched off.
pub fn use_sequential_open(setting: &Option<String>) -> (r: bool)
    ensures
        r == !says(*setting, "0"@),
{
    !setting_is(setting, "0")
}

/// Whether a setting that is off by default is switched on.
pub fn switched_on(setting: &Option<String>) -> (r: bool)
    ensures
        r == says(*setting, "1"@),
{
    setting_is(setting, "1")
}

/// How the shards of a program are proved.
#[derive(Clone, Copy, PartialEq, Eq, Structural, Debug)]
pub enum ProveMode {
    /// Every shard on its own, all of them at the same time.
    Parallel,
    /// All commitments first, then one opening after the other. What is in use stays close
    /// together; the proofs are the same.
    Batched,
}

/// The mode for a batch size, where one is set.
pub fn prove_mode(batch_size: Option<usize>) -> (r: ProveMode)
    ensures
        r == (if batch_size is None || batch_size->0 <= 1 {
            ProveMode::Parallel
        } else {
            ProveMode::Batched
        }),
{
    match batch_size {
        Some(n) => if n <= 1 {
            ProveMode::Parallel
        } else {
            ProveMode::Batched
        },
        None => ProveMode::Parallel,
    }
}

/// The number of shards that a number of cycles takes.
pub fn shards_for_cycles(cycles: u64) -> (r: u64)
    ensures
        r == cycles / 524288 + 1,
{
    cycles / 524288 + 1
}

/// An error of the prover.
#[derive(Clone, Copy, PartialEq, Eq, Structural, Debug)]
pub struct CpuProverError;

impl CpuProverError {
    pub fn message(&self) -> (r: String)
        ensures
            r@ == "DefaultProverError"@,
    {
        "DefaultProverError".to_owned()
    }
}

/// A proving key.
pub struct StarkProvingKey {
    /// The commitment to the preprocessed traces.
    pub commit: Vec<Felt>,
    pub pc_start: Felt,
    pub initial_global_cumulative_sum: SepticDigest,
    /// The preprocessed traces.
    pub traces: Vec<Matrix<Felt>>,
    /// The matrices that are committed for them.
    pub ldes: Vec<Matrix<Felt>>,
    /// The trace of each chip that has one.
    pub chip_ordering: NameMap,
    /// Whether only the current row of a trace is read.
    pub local_only: Vec<bool>,
}

fn append_all(out: &mut Vec<Felt>, xs: &[Felt])
    ensures
        final(out)@ == old(out)@ + xs@,
{
    let mut i: usize = 0;
    assert(out@ =~= old(out)@ + xs@.take(0));
    while i < xs.len()
        invariant
            i <= xs@.len(),
            out@ == old(out)@ + xs@.take(i as int),
        decreases xs@.len() - i,
    {
        out.push(xs[i]);
        i = i + 1;
        assert(out@ =~= old(out)@ + xs@.take(i as int));
    }
    assert(xs@.take(i as int) =~= xs@);
}

impl StarkProvingKey {
    /// As many matrices and flags as traces, and every chip's trace among them.
    pub open spec fn well_formed(&self) -> bool {
        &&& self.ldes@.len() == self.traces@.len()
        &&& self.local_only@.len() == self.traces@.len()
        &&& forall|k: Seq<char>| #[trigger]
            self.chip_ordering@.contains_key(k) ==> self.chip_ordering@[k] < self.traces@.len()
    }

    /// The preprocessed trace of a chip, where it has one.
    pub open spec fn trace_of(&self, name: Seq<char>) -> Option<&Matrix<Felt>> {
        if self.chip_ordering@.contains_key(name) {
            Some(&self.traces@[self.chip_ordering@[name] as int])
        } else {
            None
        }
    }

    /// The preprocessed traces of the chips of a shard.
    pub open spec fn traces_of<A>(&self, chips: Seq<ShardChip<A>>) -> Seq<Option<&Matrix<Felt>>> {
        Seq::new(chips.len(), |i: int| self.trace_of(chips[i].name@))
    }

    /// The preprocessed trace of each chip, where it has one.
    pub fn preprocessed_traces<A>(&self, chips: &Vec<ShardChip<A>>) -> (r: Vec<
        Option<&Matrix<Felt>>,
    >)
        requires
            self.well_formed(),
        ensures
            r@ == self.traces_of(chips@),
    {
        let mut r: Vec<Option<&Matrix<Felt>>> = Vec::new();
        let mut i: usize = 0;
        while i < chips.len()
            invariant
                i <= chips@.len(),
                self.well_formed(),
                r@.len() == i,
                forall|k: int| 0 <= k < i ==> #[trigger] r@[k] == self.trace_of(chips@[k].name@),
            decreases chips@.len() - i,
        {
            match self.chip_ordering.get(&chips[i].name) {
                Some(index) => r.push(Some(&self.traces[index])),
                None => r.push(None),
            }
            i = i + 1;
        }
        assert(r@ =~= self.traces_of(chips@));
        r
    }
}

/// A key to prove the shards of a program with.
pub trait MachineProvingKey {
    /// The commitment to the preprocessed traces.
    spec fn commit_spec(&self) -> Seq<Felt>;

    spec fn pc_start_spec(&self) -> Felt;

    spec fn initial_sum_spec(&self) -> SepticDigest;

    /// The commitment to the preprocessed traces.
    fn preprocessed_commit(&self) -> (r: Vec<Felt>)
        ensures
            r@ == self.commit_spec(),
    ;

    /// The first program counter.
    fn pc_start(&self) -> (r: Felt)
        ensures
            r == self.pc_start_spec(),
    ;

    /// The global sum that a program starts with.
    fn initial_global_cumulative_sum(&self) -> (r: SepticDigest)
        ensures
            r == self.initial_sum_spec(),
    ;

    /// The values that are observed, in order: the commitment, the first program counter, the two
    /// coordinates of the initial sum, and a zero.
    fn observe_into(&self) -> (r: Vec<Felt>)
        ensures
            r@ == self.commit_spec().push(self.pc_start_spec()) + self.initial_sum_spec().x@
                + self.initial_sum_spec().y@ + seq![Felt::zero_spec()],
    ;
}

impl MachineProvingKey for StarkProvingKey {
    open spec fn commit_spec(&self) -> Seq<Felt> {
        self.commit@
    }

    open spec fn pc_start_spec(&self) -> Felt {
        self.pc_start
    }

    open spec fn initial_sum_spec(&self) -> SepticDigest {
        self.initial_global_cumulative_sum
    }

    fn preprocessed_commit(&self) -> (r: Vec<Felt>) {
        let mut r: Vec<Felt> = Vec::new();
        append_all(&mut r, self.commit.as_slice());
        assert(r@ =~= self.commit@);
        r
    }

    fn pc_start(&self) -> (r: Felt) {
        self.pc_start
    }

    fn initial_global_cumulative_sum(&self) -> (r: SepticDigest) {
        self.initial_global_cumulative_sum
    }

    fn observe_into(&self) -> (r: Vec<Felt>) {
        let mut r: Vec<Felt> = self.preprocessed_commit();
        r.push(self.pc_start());
        let sum: SepticDigest = self.initial_global_cumulative_sum();
        append_all(&mut r, sum.x.as_slice());
        append_all(&mut r, sum.y.as_slice());
        r.push(Felt::zero());
        assert(r@ =~= self.commit@.push(self.pc_start) + sum.x@ + sum.y@ + seq![Felt::zero_spec()]);
        r
    }
}

/// The values that the opening of a shard observes first: the public values in use.
pub fn observed_public_values(public_values: &Vec<Felt>, num_pv_elts: usize) -> (r: Vec<Felt>)
    requires
        num_pv_elts <= public_values@.len(),
    ensures
        r@ == public_values@.take(num_pv_elts as int),
{
    let mut r: Vec<Felt> = Vec::new();
    let mut i: usize = 0;
    while i < num_pv_elts
        invariant
            i <= num_pv_elts <= public_values@.len(),
            r@ == public_values@.take(i as int),
        decreases num_pv_elts - i,
    {
        r.push(public_values[i]);
        i = i + 1;
        assert(r@ =~= public_values@.take(i as int));
    }
    r
}

/// A chip of a shard.
pub struct ShardChip<A> {
    pub chip: Chip<A>,
    pub name: String,
    pub commit_scope: InteractionScope,
    pub local_only: bool,
    pub log_quotient_degree: usize,
}

/// The digest that the end of a trace holds: the last fourteen cells.
pub open spec fn trailing_digest(main: Matrix<Felt>) -> (Seq<Felt>, Seq<Felt>) {
    let n = (main.rows() * main.width) as int;
    (main.values@.subrange(n - 14, n - 7), main.values@.subrange(n - 7, n))
}

/// The global sum of a chip: the end of its trace where it takes part in global interactions, else
/// the digest of nothing.
pub fn global_sum(main: &Matrix<Felt>, scope: InteractionScope, zero_digest: SepticDigest) -> (r:
    SepticDigest)
    requires
        scope == InteractionScope::Global ==> main.well_formed() && main.values@.len() >= 14,
    ensures
        scope == InteractionScope::Local ==> r == zero_digest,
        scope == InteractionScope::Global ==> (r.x@, r.y@) == trailing_digest(*main),
{
    match scope {
        InteractionScope::Local => zero_digest,
        InteractionScope::Global => {
            let n: usize = main.values.len();
            proof {
                lemma_fundamental_div_mod(n as int, main.width as int);
                vstd::arithmetic::mul::lemma_mul_is_commutative(
                    main.width as int,
                    n as int / main.width as int,
                );
            }
            let v = &main.values;
            let r = SepticDigest {
                x: [v[n - 14], v[n - 13], v[n - 12], v[n - 11], v[n - 10], v[n - 9], v[n - 8]],
                y: [v[n - 7], v[n - 6], v[n - 5], v[n - 4], v[n - 3], v[n - 2], v[n - 1]],
            };
            assert(r.x@ =~= trailing_digest(*main).0);
            assert(r.y@ =~= trailing_digest(*main).1);
            r
        },
    }
}

/// What the permutation trace of a chip asks of its traces and of the challenges.
pub open spec fn permutable<A>(
    chip: Chip<A>,
    preprocessed: Option<&Matrix<Felt>>,
    main: Matrix<Felt>,
    challenges: Seq<Ext>,
) -> bool {
    &&& permutation::traces_ok(preprocessed, main)
    &&& permutation::values_fit(chip.sends(), chip.receives())
    &&& chip.local_sends@.len() + chip.local_receives@.len() > 0 ==> {
        &&& permutation::interactions_ok(
            chip.sends(),
            chip.receives(),
            chip.logup_batch_size as nat,
            permutation::prep_width(preprocessed),
            main.width as nat,
        )
        &&& challenges.len() >= 2
        &&& main.rows() > 0
        &&& main.rows() * chip.perm_width() <= usize::MAX
        &&& permutation::denominators_ok(
            chip.sends(),
            chip.receives(),
            preprocessed,
            main,
            challenges[0],
            challenges[1],
            chip.logup_batch_size as nat,
        )
    }
}

/// Whether a matrix and a sum are the permutation trace of a chip and its last running sum.
pub open spec fn is_permutation_of<A>(
    trace: Matrix<Ext>,
    sum: Ext,
    chip: Chip<A>,
    preprocessed: Option<&Matrix<Felt>>,
    main: Matrix<Felt>,
    challenges: Seq<Ext>,
) -> bool {
    if chip.local_sends@.len() + chip.local_receives@.len() == 0 {
        trace.width == 0 && trace.values@.len() == 0 && sum == Ext::zero_spec()
    } else {
        &&& permutation::is_permutation_trace(
            trace,
            chip.sends(),
            chip.receives(),
            preprocessed,
            main,
            challenges[0],
            challenges[1],
            chip.logup_batch_size as nat,
        )
        &&& sum == permutation::running_sum(
            chip.sends(),
            chip.receives(),
            preprocessed,
            main,
            challenges[0],
            challenges[1],
            chip.logup_batch_size as nat,
            main.rows(),
        )
    }
}

impl<A> Chip<A> {
    /// The permutation trace of a chip and the sum of its local interactions.
    pub fn generate_permutation_trace(
        &self,
        preprocessed: Option<&Matrix<Felt>>,
        main: &Matrix<Felt>,
        random_elements: &Vec<Ext>,
    ) -> (r: (Matrix<Ext>, Ext))
        requires
            permutable(*self, preprocessed, *main, random_elements@),
        ensures
            is_permutation_of(r.0, r.1, *self, preprocessed, *main, random_elements@),
    {
        let sends: Vec<&Interaction> = self.sends_refs();
        let receives: Vec<&Interaction> = self.receives_refs();
        permutation::generate_permutation_trace_prescoped(
            &sends,
            &receives,
            preprocessed,
            main,
            random_elements,
            self.logup_batch_size,
        )
    }
}

/// The coordinates of the elements of a matrix, as a matrix of four times the width.
pub fn flatten_to_base(mat: Matrix<Ext>) -> (r: Matrix<Felt>)
    requires
        4 * mat.width <= usize::MAX,
    ensures
        r.width == 4 * mat.width,
        r.values@ == folder::flatten(mat.values@),
{
    let values: Vec<Felt> = flatten_values(&mat.values);
    Matrix { values, width: 4 * mat.width }
}

pub(crate) fn flatten_values(xs: &Vec<Ext>) -> (r: Vec<Felt>)
    ensures
        r@ == folder::flatten(xs@),
{
    let mut r: Vec<Felt> = Vec::new();
    let mut i: usize = 0;
    while i < xs.len()
        invariant
            i <= xs@.len(),
            r@.len() == 4 * i,
            forall|k: int| 0 <= k < 4 * i ==> #[trigger] r@[k] == folder::flatten(xs@)[k],
        decreases xs@.len() - i,
    {
        let ghost before = r@;
        r.push(xs[i].c0);
        r.push(xs[i].c1);
        r.push(xs[i].c2);
        r.push(xs[i].c3);
        i = i + 1;
        proof {
            assert forall|k: int| 0 <= k < 4 * i implies #[trigger] r@[k] == folder::flatten(
                xs@,
            )[k] by {
                if k < 4 * (i - 1) {
                    assert(r@[k] == before[k]);
                } else {
                    assert(k / 4 == i - 1);
                    assert(k % 4 == k - 4 * (i - 1));
                }
            }
        }
    }
    assert(r@ =~= folder::flatten(xs@));
    r
}

/// The permutation round of a shard.
pub struct PermutationRound {
    /// The traces, flattened, one for each chip.
    pub traces: Vec<Matrix<Felt>>,
    pub local_sums: Vec<Ext>,
    pub global_sums: Vec<SepticDigest>,
}

/// What the first `n` chips put on the transcript: for each the local sum and the coordinates of
/// the global one.
pub open spec fn sums_transcript(local: Seq<Ext>, global: Seq<SepticDigest>, n: nat) -> Seq<Felt>
    decreases n,
{
    if n == 0 {
        Seq::empty()
    } else {
        sums_transcript(local, global, (n - 1) as nat) + ir::coordinates(local[n - 1]) + global[n
            - 1].x@ + global[n - 1].y@
    }
}

/// Whether a matrix is the permutation trace of a chip, flattened.
pub open spec fn is_flat_permutation_of<A>(
    flat: Matrix<Felt>,
    sum: Ext,
    chip: Chip<A>,
    preprocessed: Option<&Matrix<Felt>>,
    main: Matrix<Felt>,
    challenges: Seq<Ext>,
) -> bool {
    exists|m: Matrix<Ext>|
        {
            &&& #[trigger] is_permutation_of(m, sum, chip, preprocessed, main, challenges)
            &&& flat.values@ == folder::flatten(m.values@)
            &&& flat.width == 4 * m.width
        }
}

/// What the permutation round of the first `n` chips holds.
pub open spec fn permutation_round_ok<A>(
    r: PermutationRound,
    chips: Seq<ShardChip<A>>,
    preprocessed: Seq<Option<&Matrix<Felt>>>,
    traces: Seq<Matrix<Felt>>,
    challenges: Seq<Ext>,
    zero_digest: SepticDigest,
    n: int,
) -> bool {
    &&& r.traces@.len() == n
    &&& r.local_sums@.len() == n
    &&& r.global_sums@.len() == n
    &&& forall|i: int|
        0 <= i < n ==> is_flat_permutation_of(
            #[trigger] r.traces@[i],
            r.local_sums@[i],
            chips[i].chip,
            preprocessed[i],
            traces[i],
            challenges,
        )
    &&& forall|i: int|
        0 <= i < n ==> {
            &&& chips[i].commit_scope == InteractionScope::Local ==> #[trigger] r.global_sums@[i]
                == zero_digest
            &&& chips[i].commit_scope == InteractionScope::Global ==> (
                r.global_sums@[i].x@,
                r.global_sums@[i].y@,
            ) == trailing_digest(traces[i])
        }
}

/// What the permutation round asks of the chips of a shard and of the challenges.
pub open spec fn round_permutable<A>(
    chips: Seq<ShardChip<A>>,
    preprocessed: Seq<Option<&Matrix<Felt>>>,
    traces: Seq<Matrix<Felt>>,
    challenges: Seq<Ext>,
) -> bool {
    &&& traces.len() == chips.len()
    &&& preprocessed.len() == chips.len()
    &&& forall|i: int|
        0 <= i < chips.len() ==> {
            &&& permutable((#[trigger] chips[i]).chip, preprocessed[i], traces[i], challenges)
            &&& 4 * (chips[i].chip.perm_width() + 1) <= usize::MAX
            &&& chips[i].commit_scope == InteractionScope::Global ==> traces[i].well_formed()
                && traces[i].values@.len() >= 14
        }
}

/// Computes the permutation round of a shard: the permutation trace of each chip, its local sum,
/// and its global sum.
pub fn permutation_round<A>(
    chips: &Vec<ShardChip<A>>,
    preprocessed: &Vec<Option<&Matrix<Felt>>>,
    traces: &Vec<Matrix<Felt>>,
    challenges: &Vec<Ext>,
    zero_digest: SepticDigest,
) -> (r: PermutationRound)
    requires
        round_permutable(chips@, preprocessed@, traces@, challenges@),
    ensures
        permutation_round_ok(
            r,
            chips@,
            preprocessed@,
            traces@,
            challenges@,
            zero_digest,
            chips@.len() as int,
        ),
{
    let mut r = PermutationRound {
        traces: Vec::new(),
        local_sums: Vec::new(),
        global_sums: Vec::new(),
    };
    let mut i: usize = 0;
    while i < chips.len()
        invariant
            i <= chips@.len(),
            round_permutable(chips@, preprocessed@, traces@, challenges@),
            permutation_round_ok(
                r,
                chips@,
                preprocessed@,
                traces@,
                challenges@,
                zero_digest,
                i as int,
            ),
        decreases chips@.len() - i,
    {
        let ghost before = r;
        assert(permutable(chips@[i as int].chip, preprocessed@[i as int], traces@[i as int], challenges@));
        let (perm, local_sum) = chips[i].chip.generate_permutation_trace(
            preprocessed[i],
            &traces[i],
            challenges,
        );
        let ghost m = perm;
        proof {
            lemma_width(chips@[i as int].chip, m, local_sum, preprocessed@[i as int], traces@[i as int], challenges@);
        }
        let global = global_sum(&traces[i], chips[i].commit_scope, zero_digest);
        let flat = flatten_to_base(perm);
        r.traces.push(flat);
        r.local_sums.push(local_sum);
        r.global_sums.push(global);
        proof {
            assert(is_permutation_of(
                m,
                local_sum,
                chips@[i as int].chip,
                preprocessed@[i as int],
                traces@[i as int],
                challenges@,
            ));
            assert forall|k: int| 0 <= k < i + 1 implies is_flat_permutation_of(
                #[trigger] r.traces@[k],
                r.local_sums@[k],
                chips@[k].chip,
                preprocessed@[k],
                traces@[k],
                challenges@,
            ) by {
                if k < i {
                    assert(r.traces@[k] == before.traces@[k]);
                    assert(r.local_sums@[k] == before.local_sums@[k]);
                }
            }
            assert forall|k: int| 0 <= k < i + 1 implies {
                &&& chips@[k].commit_scope == InteractionScope::Local
                    ==> #[trigger] r.global_sums@[k] == zero_digest
                &&& chips@[k].commit_scope == InteractionScope::Global ==> (
                    r.global_sums@[k].x@,
                    r.global_sums@[k].y@,
                ) == trailing_digest(traces@[k])
            } by {
                if k < i {
                    assert(r.global_sums@[k] == before.global_sums@[k]);
                }
            }
        }
        i = i + 1;
    }
    r
}

proof fn lemma_width<A>(
    chip: Chip<A>,
    trace: Matrix<Ext>,
    sum: Ext,
    preprocessed: Option<&Matrix<Felt>>,
    main: Matrix<Felt>,
    challenges: Seq<Ext>,
)
    requires
        is_permutation_of(trace, sum, chip, preprocessed, main, challenges),
    ensures
        trace.width <= chip.perm_width() + 1,
{
}

impl PermutationRound {
    /// The values that are observed after the commitment to the traces.
    pub fn observed(&self) -> (r: Vec<Felt>)
        requires
            self.local_sums@.len() == self.global_sums@.len(),
        ensures
            r@ == sums_transcript(self.local_sums@, self.global_sums@, self.local_sums@.len()),
    {
        let mut r: Vec<Felt> = Vec::new();
        let mut i: usize = 0;
        while i < self.local_sums.len()
            invariant
                i <= self.local_sums@.len(),
                self.local_sums@.len() == self.global_sums@.len(),
                r@ == sums_transcript(self.local_sums@, self.global_sums@, i as nat),
            decreases self.local_sums@.len() - i,
        {
            let ghost before = r@;
            let local: Ext = self.local_sums[i];
            r.push(local.c0);
            r.push(local.c1);
            r.push(local.c2);
            r.push(local.c3);
            assert(r@ =~= before + ir::coordinates(local));
            let x: [Felt; 7] = self.global_sums[i].x;
            let y: [Felt; 7] = self.global_sums[i].y;
            append_all(&mut r, x.as_slice());
            append_all(&mut r, y.as_slice());
            i = i + 1;
        }
        r
    }
}

/// Each chip gets the preprocessed trace that stands under its own name, and none where there is none
/// under it.
pub proof fn law_trace_stands_under_name<A>(
    pk: StarkProvingKey,
    chips: Seq<ShardChip<A>>,
    i: int,
    place: usize,
)
    requires
        pk.well_formed(),
        0 <= i < chips.len(),
    ensures
        pk.traces_of(chips).len() == chips.len(),
        pk.traces_of(chips)[i] is Some <==> pk.chip_ordering@.contains_key(chips[i].name@),
        pk.chip_ordering@.contains_key(chips[i].name@) && pk.chip_ordering@[chips[i].name@] == place
            ==> pk.traces_of(chips)[i] == Some(&pk.traces@[place as int]),
{
}

} // verus!
