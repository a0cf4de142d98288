//! The Poseidon2 precompile: the system call, its event, and its table.

use vstd::prelude::*;
use crate::babybear;
use crate::babybear::{Felt, P};
use crate::builder;
use crate::builder::{BuilderSpec, ConstraintBuilder};
use crate::chip::Air;
use crate::ext;
use crate::ext::Ext;
use crate::field::Field;
use crate::memory;
use crate::memory::{
    ByteLookupEvent, MemoryReadRecord, MemoryReadWriteCols, MemoryRecord, MemoryRecordEnum,
    MemoryWriteRecord,
};
use crate::prime;
use crate::program::Window;
use crate::recording::Recording;
use crate::ring;
use crate::ring::Ring;

verus! {

/// The number of elements in the Poseidon2 state.
pub const POSEIDON2_WIDTH: usize = 16;

/// The number of columns of the permutation.
pub const NUM_PERM_COLS: usize = 313;

/// The number of columns of the table: those of the permutation; shard, clock, the two pointers
/// and the flag of real rows; and eight for each of the thirty-two memory accesses.
pub const NUM_POSEIDON2_COLS: usize = 574;

/// A first and a last access to an address within a shard.
#[derive(Clone, Copy, PartialEq, Eq, Structural, Debug)]
pub struct MemoryLocalEvent {
    pub addr: u32,
    pub initial_mem_access: MemoryRecord,
    pub final_mem_access: MemoryRecord,
}

/// A Poseidon2 permutation that was performed.
#[derive(Debug)]
pub struct Poseidon2Event {
    pub shard: u32,
    pub clk: u32,
    pub input_ptr: u32,
    pub output_ptr: u32,
    pub input: [u32; 16],
    pub output: [u32; 16],
    pub input_memory_records: [MemoryReadRecord; 16],
    pub output_memory_records: [MemoryWriteRecord; 16],
    pub local_mem_access: Vec<MemoryLocalEvent>,
}

/// The system call that performs the permutation.
pub struct Poseidon2Syscall;

/// The addresses of a state in memory: sixteen words from `ptr` on.
pub open spec fn state_addresses(ptr: u32) -> Seq<u32> {
    Seq::new(16, |i: int| (ptr + 4 * i) as u32)
}

fn addresses(ptr: u32) -> (r: Vec<u32>)
    requires
        ptr + 60 <= u32::MAX,
    ensures
        r@ == state_addresses(ptr),
{
    let mut r: Vec<u32> = Vec::new();
    let mut i: u32 = 0;
    while i < 16
        invariant
            i <= 16,
            ptr + 60 <= u32::MAX,
            r@ == state_addresses(ptr).take(i as int),
        decreases 16 - i,
    {
        r.push(ptr + i * 4);
        i = i + 1;
        assert(r@ =~= state_addresses(ptr).take(i as int));
    }
    assert(state_addresses(ptr).take(16) =~= state_addresses(ptr));
    r
}

/// The words that a call writes, with their addresses: the permuted state in canonical form.
pub open spec fn written(ptr: u32, state: Seq<Felt>) -> Seq<(u32, u32)> {
    Seq::new(16, |i: int| (state_addresses(ptr)[i], state[i].value % P))
}

/// The state that a call permutes: the words that it read, modulo the prime.
pub open spec fn permuted(input: Seq<u32>) -> Seq<Felt> {
    Seq::new(16, |i: int| babybear::felt(input[i] as int))
}

impl Poseidon2Event {
    /// Whether this is the event of a call, with the state that the permutation left.
    pub open spec fn is_of_call(
        &self,
        shard: u32,
        clk: u32,
        arg1: u32,
        arg2: u32,
        input: [u32; 16],
        state: Seq<Felt>,
        input_memory_records: [MemoryReadRecord; 16],
        output_memory_records: [MemoryWriteRecord; 16],
        local_mem_access: Vec<MemoryLocalEvent>,
    ) -> bool {
        &&& self.shard == shard
        &&& self.clk == clk
        &&& self.input_ptr == arg1
        &&& self.output_ptr == arg2
        &&& self.input == input
        &&& self.output@ == Seq::new(16, |i: int| state[i].value % P)
        &&& self.input_memory_records == input_memory_records
        &&& self.output_memory_records == output_memory_records
        &&& self.local_mem_access == local_mem_access
    }
}

impl Poseidon2Syscall {
    pub fn new() -> (r: Self)
        ensures
            r == Poseidon2Syscall,
    {
        Poseidon2Syscall
    }

    /// The addresses to read, at the clock of the call.
    pub fn reads(&self, arg1: u32) -> (r: Vec<u32>)
        requires
            arg1 + 60 <= u32::MAX,
        ensures
            r@ == state_addresses(arg1),
    {
        addresses(arg1)
    }

    /// The state to permute: the words that were read, modulo the prime.
    pub fn permutation_input(&self, input: &[u32; 16]) -> (r: Vec<Felt>)
        ensures
            r@ == permuted(input@),
    {
        let mut r: Vec<Felt> = Vec::new();
        let mut i: usize = 0;
        while i < 16
            invariant
                i <= 16,
                r@ == Seq::new(i as nat, |k: int| babybear::felt(input@[k] as int)),
            decreases 16 - i,
        {
            r.push(memory::felt_of(input[i]));
            i = i + 1;
            assert(r@ =~= Seq::new(i as nat, |k: int| babybear::felt(input@[k] as int)));
        }
        assert(r@ =~= permuted(input@));
        r
    }

    /// The writes to make, one tick after the reads: the permuted state in canonical form.
    pub fn writes(&self, clk: u32, arg2: u32, state: &Vec<Felt>) -> (r: (u32, Vec<(u32, u32)>))
        requires
            clk < u32::MAX,
            arg2 + 60 <= u32::MAX,
            state@.len() == 16,
        ensures
            r.0 == clk + 1,
            r.1@ == written(arg2, state@),
    {
        let addrs = addresses(arg2);
        let mut r: Vec<(u32, u32)> = Vec::new();
        let mut i: usize = 0;
        while i < 16
            invariant
                i <= 16,
                state@.len() == 16,
                addrs@ == state_addresses(arg2),
                r@ == Seq::new(
                    i as nat,
                    |k: int| (state_addresses(arg2)[k], state@[k].value % P),
                ),
            decreases 16 - i,
        {
            r.push((addrs[i], state[i].value % P));
            i = i + 1;
            assert(r@ =~= Seq::new(
                i as nat,
                |k: int| (state_addresses(arg2)[k], state@[k].value % P),
            ));
        }
        assert(r@ =~= written(arg2, state@));
        (clk + 1, r)
    }

    /// What a call leaves, once the words are read, permuted and written: its event, at the clock
    /// before the writes, and no result.
    pub fn execute(
        &self,
        shard: u32,
        clk: u32,
        arg1: u32,
        arg2: u32,
        input: [u32; 16],
        state: &Vec<Felt>,
        input_memory_records: [MemoryReadRecord; 16],
        output_memory_records: [MemoryWriteRecord; 16],
        local_mem_access: Vec<MemoryLocalEvent>,
    ) -> (r: (Poseidon2Event, Option<u32>))
        requires
            state@.len() == 16,
        ensures
            r.0.is_of_call(
                shard,
                clk,
                arg1,
                arg2,
                input,
                state@,
                input_memory_records,
                output_memory_records,
                local_mem_access,
            ),
            r.1 is None,
    {
        let mut output: [u32; 16] = [0; 16];
        let mut i: usize = 0;
        while i < 16
            invariant
                i <= 16,
                state@.len() == 16,
                forall|k: int| 0 <= k < i ==> #[trigger] output@[k] == state@[k].value % P,
            decreases 16 - i,
        {
            output[i] = state[i].value % P;
            i = i + 1;
        }
        assert(output@ =~= Seq::new(16, |i: int| state@[i].value % P));
        let event = Poseidon2Event {
            shard,
            clk,
            input_ptr: arg1,
            output_ptr: arg2,
            input,
            output,
            input_memory_records,
            output_memory_records,
            local_mem_access,
        };
        (event, None)
    }

    /// The writes take a cycle of their own.
    pub fn num_extra_cycles(&self) -> (r: u32)
        ensures
            r == 1,
    {
        1
    }
}

/// The columns of a row.
#[derive(Debug)]
pub struct Poseidon2Cols {
    pub shard: Felt,
    pub clk: Felt,
    pub input_ptr: Felt,
    pub output_ptr: Felt,
    pub input_memory: Vec<MemoryReadWriteCols>,
    pub output_memory: Vec<MemoryReadWriteCols>,
    pub perm: Vec<Felt>,
    pub is_real: Felt,
}

impl Poseidon2Event {
    /// Every access comes after the one before it.
    pub open spec fn well_formed(&self) -> bool {
        &&& forall|i: int|
            0 <= i < 16 ==> memory::in_order(
                MemoryRecordEnum::Read(#[trigger] self.input_memory_records@[i]).previous(),
                MemoryRecordEnum::Read(self.input_memory_records@[i]).current(),
            )
        &&& forall|i: int|
            0 <= i < 16 ==> memory::in_order(
                MemoryRecordEnum::Write(#[trigger] self.output_memory_records@[i]).previous(),
                MemoryRecordEnum::Write(self.output_memory_records@[i]).current(),
            )
    }
}

/// A memory access that a row asks for, where it is real.
#[derive(Clone, Copy, PartialEq, Eq, Structural, Debug)]
pub struct MemoryAccess {
    pub shard: Felt,
    pub clk: Felt,
    pub addr: Felt,
    pub is_real: Felt,
}

/// A call that a row receives, where it is real.
#[derive(Clone, Copy, PartialEq, Eq, Structural, Debug)]
pub struct ReceivedCall {
    pub shard: Felt,
    pub clk: Felt,
    pub input_ptr: Felt,
    pub output_ptr: Felt,
    pub is_real: Felt,
}

impl Poseidon2Cols {
    /// The access with number `i`: the sixteen words of the input are read at the time of the call,
    /// and those of the output are written one later.
    pub open spec fn access(&self, i: int) -> MemoryAccess {
        if i < 16 {
            MemoryAccess {
                shard: self.shard,
                clk: self.clk,
                addr: self.input_ptr.plus(babybear::felt(4 * i)),
                is_real: self.is_real,
            }
        } else {
            MemoryAccess {
                shard: self.shard,
                clk: self.clk.plus(Felt::one_spec()),
                addr: self.output_ptr.plus(babybear::felt(4 * (i - 16))),
                is_real: self.is_real,
            }
        }
    }

    /// The memory accesses that a row asks for.
    pub open spec fn accesses(&self) -> Seq<MemoryAccess> {
        Seq::new(32, |i: int| self.access(i))
    }

    /// The call that a row receives.
    pub open spec fn call(&self) -> ReceivedCall {
        ReceivedCall {
            shard: self.shard,
            clk: self.clk,
            input_ptr: self.input_ptr,
            output_ptr: self.output_ptr,
            is_real: self.is_real,
        }
    }

    /// The memory accesses that a row asks for.
    pub fn memory_accesses(&self) -> (r: Vec<MemoryAccess>)
        ensures
            r@ == self.accesses(),
    {
        let mut r: Vec<MemoryAccess> = Vec::new();
        let mut i: u32 = 0;
        while i < 32
            invariant
                i <= 32,
                r@ == Seq::new(i as nat, |i: int| self.access(i)),
            decreases 32 - i,
        {
            let access = if i < 16 {
                MemoryAccess {
                    shard: self.shard,
                    clk: self.clk,
                    addr: self.input_ptr.add(Felt { value: 4 * i }),
                    is_real: self.is_real,
                }
            } else {
                MemoryAccess {
                    shard: self.shard,
                    clk: self.clk.add(Felt::one()),
                    addr: self.output_ptr.add(Felt { value: 4 * (i - 16) }),
                    is_real: self.is_real,
                }
            };
            r.push(access);
            i = i + 1;
            assert(r@ =~= Seq::new(i as nat, |i: int| self.access(i)));
        }
        assert(r@ =~= self.accesses());
        r
    }

    /// The call that a row receives.
    pub fn received_call(&self) -> (r: ReceivedCall)
        ensures
            r == self.call(),
    {
        ReceivedCall {
            shard: self.shard,
            clk: self.clk,
            input_ptr: self.input_ptr,
            output_ptr: self.output_ptr,
            is_real: self.is_real,
        }
    }

    /// Whether the row holds an event, with the given columns of the permutation.
    pub open spec fn holds(&self, event: Poseidon2Event, perm: Seq<Felt>) -> bool {
        &&& self.shard == babybear::felt(event.shard as int)
        &&& self.clk == babybear::felt(event.clk as int)
        &&& self.input_ptr == babybear::felt(event.input_ptr as int)
        &&& self.output_ptr == babybear::felt(event.output_ptr as int)
        &&& self.input_memory@.len() == 16
        &&& forall|i: int|
            0 <= i < 16 ==> (#[trigger] self.input_memory@[i]).holds(
                MemoryRecordEnum::Read(event.input_memory_records@[i]).previous(),
                MemoryRecordEnum::Read(event.input_memory_records@[i]).current(),
            )
        &&& self.output_memory@.len() == 16
        &&& forall|i: int|
            0 <= i < 16 ==> (#[trigger] self.output_memory@[i]).holds(
                MemoryRecordEnum::Write(event.output_memory_records@[i]).previous(),
                MemoryRecordEnum::Write(event.output_memory_records@[i]).current(),
            )
        &&& self.perm@ == perm
        &&& self.is_real == Felt::one_spec()
    }

    /// Whether all columns are zero.
    pub open spec fn is_zero(&self) -> bool {
        &&& self.shard == Felt::zero_spec()
        &&& self.clk == Felt::zero_spec()
        &&& self.input_ptr == Felt::zero_spec()
        &&& self.output_ptr == Felt::zero_spec()
        &&& self.input_memory@.len() == 16
        &&& forall|i: int| 0 <= i < 16 ==> (#[trigger] self.input_memory@[i]).holds_value(0)
        &&& self.output_memory@.len() == 16
        &&& forall|i: int| 0 <= i < 16 ==> (#[trigger] self.output_memory@[i]).holds_value(0)
        &&& self.perm@ == Seq::new(NUM_PERM_COLS as nat, |i: int| Felt::zero_spec())
        &&& self.is_real == Felt::zero_spec()
    }

    /// A row that fills up the table.
    pub fn zero() -> (r: Self)
        ensures
            r.is_zero(),
    {
        let mut input_memory: Vec<MemoryReadWriteCols> = Vec::new();
        let mut output_memory: Vec<MemoryReadWriteCols> = Vec::new();
        let mut i: usize = 0;
        while i < 16
            invariant
                i <= 16,
                input_memory@.len() == i,
                output_memory@.len() == i,
                forall|k: int| 0 <= k < i ==> (#[trigger] input_memory@[k]).holds_value(0),
                forall|k: int| 0 <= k < i ==> (#[trigger] output_memory@[k]).holds_value(0),
            decreases 16 - i,
        {
            input_memory.push(MemoryReadWriteCols::of_value(0));
            output_memory.push(MemoryReadWriteCols::of_value(0));
            i = i + 1;
        }
        let mut perm: Vec<Felt> = Vec::new();
        let mut k: usize = 0;
        while k < NUM_PERM_COLS
            invariant
                k <= NUM_PERM_COLS,
                perm@ == Seq::new(k as nat, |i: int| Felt::zero_spec()),
            decreases NUM_PERM_COLS - k,
        {
            perm.push(Felt::zero());
            k = k + 1;
            assert(perm@ =~= Seq::new(k as nat, |i: int| Felt::zero_spec()));
        }
        Poseidon2Cols {
            shard: Felt::zero(),
            clk: Felt::zero(),
            input_ptr: Felt::zero(),
            output_ptr: Felt::zero(),
            input_memory,
            output_memory,
            perm,
            is_real: Felt::zero(),
        }
    }
}

/// Whether rows are the table of events, each in its place, and filled up after them.
pub open spec fn is_table(
    rows: Seq<Poseidon2Cols>,
    events: Seq<Poseidon2Event>,
    perms: Seq<Vec<Felt>>,
) -> bool {
    forall|i: int|
        0 <= i < rows.len() ==> if i < events.len() {
            (#[trigger] rows[i]).holds(events[i], perms[i]@)
        } else {
            rows[i].is_zero()
        }
}

/// The table of the precompile.
pub struct Poseidon2Chip;

/// The range checks of the words of a state, first `n`.
pub open spec fn state_checks(words: Seq<u32>, n: nat) -> Seq<ByteLookupEvent>
    decreases n,
{
    if n == 0 {
        Seq::empty()
    } else {
        state_checks(words, (n - 1) as nat) + memory::word_checks(words[n - 1])
    }
}

/// The range checks of an event.
pub open spec fn event_checks(event: Poseidon2Event) -> Seq<ByteLookupEvent> {
    state_checks(event.input@, 16) + state_checks(event.output@, 16)
}

/// The range checks of the first `n` events.
pub open spec fn events_checks(events: Seq<Poseidon2Event>, n: nat) -> Seq<ByteLookupEvent>
    decreases n,
{
    if n == 0 {
        Seq::empty()
    } else {
        events_checks(events, (n - 1) as nat) + event_checks(events[n - 1])
    }
}

impl Poseidon2Chip {
    pub fn name(&self) -> (r: String)
        ensures
            r@ == "Poseidon2"@,
    {
        "Poseidon2".to_owned()
    }

    pub fn width(&self) -> (r: usize)
        ensures
            r == NUM_POSEIDON2_COLS,
    {
        NUM_POSEIDON2_COLS
    }

    /// The constraints speak of the next row as well, but no opening of it is asked for.
    pub fn local_only(&self) -> (r: bool)
        ensures
            r,
    {
        true
    }

    /// Whether the chip is part of a shard: its shape decides where there is one.
    pub fn included(&self, shape_includes: Option<bool>, events: usize) -> (r: bool)
        ensures
            r == match shape_includes {
                Some(b) => b,
                None => events > 0,
            },
    {
        match shape_includes {
            Some(b) => b,
            None => events > 0,
        }
    }

    /// The row of an event; the columns of the permutation of its input are given.
    pub fn event_to_rows(&self, event: &Poseidon2Event, perm: Vec<Felt>) -> (r: Poseidon2Cols)
        requires
            event.well_formed(),
        ensures
            r.holds(*event, perm@),
    {
        let mut dropped: Vec<ByteLookupEvent> = Vec::new();
        let mut input_memory: Vec<MemoryReadWriteCols> = Vec::new();
        let mut i: usize = 0;
        while i < 16
            invariant
                i <= 16,
                event.well_formed(),
                input_memory@.len() == i,
                forall|k: int|
                    0 <= k < i ==> (#[trigger] input_memory@[k]).holds(
                        MemoryRecordEnum::Read(event.input_memory_records@[k]).previous(),
                        MemoryRecordEnum::Read(event.input_memory_records@[k]).current(),
                    ),
            decreases 16 - i,
        {
            let read = event.input_memory_records[i];
            assert(read == event.input_memory_records@[i as int]);
            let record = MemoryRecordEnum::Read(read);
            let mut cols = MemoryReadWriteCols::of_value(0);
            cols.populate(record.previous_record(), record.current_record(), &mut dropped);
            input_memory.push(cols);
            i = i + 1;
        }
        let mut output_memory: Vec<MemoryReadWriteCols> = Vec::new();
        let mut j: usize = 0;
        while j < 16
            invariant
                j <= 16,
                event.well_formed(),
                output_memory@.len() == j,
                forall|k: int|
                    0 <= k < j ==> (#[trigger] output_memory@[k]).holds(
                        MemoryRecordEnum::Write(event.output_memory_records@[k]).previous(),
                        MemoryRecordEnum::Write(event.output_memory_records@[k]).current(),
                    ),
            decreases 16 - j,
        {
            let write = event.output_memory_records[j];
            assert(write == event.output_memory_records@[j as int]);
            let record = MemoryRecordEnum::Write(write);
            let mut cols = MemoryReadWriteCols::of_value(0);
            cols.populate(record.previous_record(), record.current_record(), &mut dropped);
            output_memory.push(cols);
            j = j + 1;
        }
        Poseidon2Cols {
            shard: memory::felt_of(event.shard),
            clk: memory::felt_of(event.clk),
            input_ptr: memory::felt_of(event.input_ptr),
            output_ptr: memory::felt_of(event.output_ptr),
            input_memory,
            output_memory,
            perm,
            is_real: Felt::one(),
        }
    }

    /// The rows of the table: one for each event, and as many zero rows as fill it up.
    pub fn generate_trace(
        &self,
        events: &Vec<Poseidon2Event>,
        perms: Vec<Vec<Felt>>,
        fixed_log2_rows: Option<usize>,
    ) -> (r: Vec<Poseidon2Cols>)
        requires
            perms@.len() == events@.len(),
            events@.len() <= usize::MAX / 2,
            fixed_log2_rows matches Some(k) ==> k < usize::BITS && events@.len()
                <= vstd::arithmetic::power2::pow2(k as nat),
            forall|i: int| 0 <= i < events@.len() ==> (#[trigger] events@[i]).well_formed(),
        ensures
            match fixed_log2_rows {
                Some(k) => r@.len() == vstd::arithmetic::power2::pow2(k as nat),
                None => if events@.len() < 16 {
                    r@.len() == 16
                } else {
                    memory::is_next_pow2(r@.len() as int, events@.len() as int)
                },
            },
            r@.len() >= events@.len(),
            is_table(r@, events@, perms@),
    {
        let n: usize = events.len();
        let height: Option<usize> = match fixed_log2_rows {
            Some(k) => {
                proof {
                    crate::bits::lemma_pow2_fits(k as nat);
                    vstd::bits::lemma_usize_shl_is_mul(1, k);
                }
                Some(1 << k)
            },
            None => None,
        };
        let rows: usize = memory::padded_rows(n, height);
        let ghost given = perms@;
        let mut left: Vec<Vec<Felt>> = perms;
        let mut r: Vec<Poseidon2Cols> = Vec::new();
        let mut i: usize = n;
        // the permutations are taken from the end
        while i > 0
            invariant
                i <= n,
                n == events@.len(),
                left@ == given.take(i as int),
                given.len() == n,
                forall|k: int| 0 <= k < n ==> (#[trigger] events@[k]).well_formed(),
                r@.len() == n - i,
                forall|k: int|
                    0 <= k < n - i ==> (#[trigger] r@[k]).holds(
                        events@[n - 1 - k],
                        given[n - 1 - k]@,
                    ),
            decreases i,
        {
            let ghost before = left@;
            match left.pop() {
                Some(perm) => {
                    assert(perm == given[i - 1]);
                    assert(left@ =~= given.take(i - 1));
                    assert(events@[i - 1].well_formed());
                    let row = self.event_to_rows(&events[i - 1], perm);
                    r.push(row);
                },
                None => {
                    assert(false);
                },
            }
            i = i - 1;
        }
        let ghost backwards = r@;
        let mut out: Vec<Poseidon2Cols> = Vec::new();
        while r.len() > 0
            invariant
                n == events@.len(),
                given.len() == n,
                r@.len() + out@.len() == n,
                forall|k: int|
                    0 <= k < r@.len() ==> (#[trigger] r@[k]).holds(
                        events@[n - 1 - k],
                        given[n - 1 - k]@,
                    ),
                forall|k: int|
                    0 <= k < out@.len() ==> (#[trigger] out@[k]).holds(events@[k], given[k]@),
            decreases r@.len(),
        {
            match r.pop() {
                Some(row) => {
                    assert(row.holds(events@[out@.len() as int], given[out@.len() as int]@));
                    out.push(row);
                },
                None => {
                    assert(false);
                },
            }
        }
        while out.len() < rows
            invariant
                n == events@.len(),
                given.len() == n,
                n <= out@.len() <= rows,
                forall|k: int|
                    0 <= k < out@.len() ==> if k < n {
                        (#[trigger] out@[k]).holds(events@[k], given[k]@)
                    } else {
                        out@[k].is_zero()
                    },
            decreases rows - out@.len(),
        {
            let ghost before = out@;
            out.push(Poseidon2Cols::zero());
            assert forall|k: int| 0 <= k < out@.len() implies if k < n {
                (#[trigger] out@[k]).holds(events@[k], given[k]@)
            } else {
                out@[k].is_zero()
            } by {
                if k < before.len() {
                    assert(out@[k] == before[k]);
                }
            }
        }
        out
    }

    /// Adds the range checks of the words of a state.
    fn add_state_checks(words: &[u32; 16], out: &mut Vec<ByteLookupEvent>)
        ensures
            final(out)@ == old(out)@ + state_checks(words@, 16),
    {
        let mut i: usize = 0;
        assert(out@ =~= old(out)@ + state_checks(words@, 0));
        while i < 16
            invariant
                i <= 16,
                out@ == old(out)@ + state_checks(words@, i as nat),
            decreases 16 - i,
        {
            let ghost before = out@;
            memory::add_word_checks(out, words[i]);
            i = i + 1;
            assert(out@ =~= old(out)@ + state_checks(words@, i as nat));
        }
    }

    /// Adds the range checks of an event: the bytes of its input and of its output.
    pub fn populate_byte_lookup_events(event: &Poseidon2Event, out: &mut Vec<ByteLookupEvent>)
        ensures
            final(out)@ == old(out)@ + event_checks(*event),
    {
        Self::add_state_checks(&event.input, out);
        Self::add_state_checks(&event.output, out);
        assert(out@ =~= old(out)@ + event_checks(*event));
    }

    /// The range checks of events, in order.
    pub fn generate_dependencies(&self, events: &Vec<Poseidon2Event>) -> (r: Vec<ByteLookupEvent>)
        ensures
            r@ == events_checks(events@, events@.len()),
    {
        let mut r: Vec<ByteLookupEvent> = Vec::new();
        let mut i: usize = 0;
        while i < events.len()
            invariant
                i <= events@.len(),
                r@ == events_checks(events@, i as nat),
            decreases events@.len() - i,
        {
            Self::populate_byte_lookup_events(&events[i], &mut r);
            i = i + 1;
        }
        r
    }
}

/// The column of the flag of real rows, the last one.
pub const IS_REAL_COL: usize = 573;

/// The constraints that the table asserts itself. What a row asks of memory, and the call that it
/// receives, are [`Poseidon2Cols::memory_accesses`] and [`Poseidon2Cols::received_call`]; the
/// constraints of these belong to the memory and the call argument, and are not among the ones
/// here.
impl Air for Poseidon2Chip {
    /// The flag of real rows is zero or one, and no two rows in a row are real.
    open spec fn constraints(&self, env: Window, public_values: Seq<Felt>) -> Seq<Ext> {
        let local = env.main_local[IS_REAL_COL as int];
        let next = env.main_next[IS_REAL_COL as int];
        seq![
            ext::embed(local.times(ring::minus(local, Felt::one_spec()))),
            ext::embed(env.selectors[2].times(local.times(next))),
        ]
    }

    open spec fn fits(&self, prep_width: nat, main_width: nat, public_values: nat) -> bool {
        main_width >= NUM_POSEIDON2_COLS
    }

    open spec fn size(&self) -> nat {
        93
    }

    open spec fn record(&self, s: Recording, public_values: Seq<Felt>) -> Recording {
        let local = s.main_local(IS_REAL_COL as int);
        let (s0, one) = s.constant(Felt::one_spec());
        let (s1, less) = s0.sub(local, one);
        let (s2, boolean) = s1.mul(local, less);
        let s3 = s2.assert_zero(boolean);
        let (s4, both) = s3.mul(local, s.main_next(IS_REAL_COL as int));
        let (s5, gated) = s4.mul(s.transition(), both);
        s5.assert_zero(gated)
    }

    fn eval<B: ConstraintBuilder>(&self, b: &mut B, public_values: &Vec<Felt>) {
        let ghost b0 = *b;
        let local: B::Expr = b.main_local(IS_REAL_COL);
        let next: B::Expr = b.main_next(IS_REAL_COL);
        let transition: B::Expr = b.is_transition();
        let one: B::Expr = b.constant(Felt::one());
        let ghost b1 = *b;
        let less: B::Expr = b.sub(local, one);
        let ghost b2 = *b;
        let boolean: B::Expr = b.mul(local, less);
        let ghost b3 = *b;
        b.assert_zero(boolean);
        let ghost b4 = *b;
        let ghost f0 = |env: Window| Seq::<Ext>::empty();
        let ghost x1 = |env: Window|
            {
                let l = env.main_local[IS_REAL_COL as int];
                ext::embed(l.times(ring::minus(l, Felt::one_spec())))
            };
        let ghost f1 = |env: Window| seq![x1(env)];
        proof {
            assert(builder::asserted(b3, b0, f0));
            if b4.ok() {
                assert forall|env: Window| b3.accepts(env) implies #[trigger] b4.acc(env)
                    == builder::fold_in(b3.acc(env), b3.alpha(), x1(env)) by {
                    assert(b0.accepts(env) && b1.accepts(env) && b2.accepts(env));
                    assert(b0.val(env, local) == env.main_local[IS_REAL_COL as int]);
                    assert(b1.val(env, local) == b0.val(env, local));
                    assert(b2.val(env, local) == b0.val(env, local));
                    Felt::law_constants();
                }
            }
            assert forall|env: Window| b0.accepts(env) implies #[trigger] f1(env) == f0(env).push(
                x1(env),
            ) by {
                assert(f1(env) =~= f0(env).push(x1(env)));
            }
            builder::lemma_asserted_push(b4, b3, b0, f0, x1, f1);
        }
        let both: B::Expr = b.mul(local, next);
        let ghost b5 = *b;
        let gated: B::Expr = b.mul(transition, both);
        let ghost b6 = *b;
        b.assert_zero(gated);
        let ghost x2 = |env: Window|
            ext::embed(
                env.selectors[2].times(
                    env.main_local[IS_REAL_COL as int].times(env.main_next[IS_REAL_COL as int]),
                ),
            );
        let ghost f2 = |env: Window| self.constraints(env, public_values@);
        proof {
            builder::lemma_extends_trans(b6, b5, b4);
            builder::lemma_asserted_extends(b6, b4, b0, f1);
            if b.ok() {
                assert forall|env: Window| b6.accepts(env) implies #[trigger] b.acc(env)
                    == builder::fold_in(b6.acc(env), b6.alpha(), x2(env)) by {
                    assert(b0.accepts(env) && b4.accepts(env) && b5.accepts(env));
                    assert(b4.val(env, local) == b0.val(env, local));
                    assert(b4.val(env, next) == b0.val(env, next));
                    assert(b5.val(env, transition) == b0.val(env, transition));
                    assert(b0.val(env, next) == env.main_next[IS_REAL_COL as int]);
                    assert(b0.val(env, transition) == env.selectors[2]);
                }
            }
            assert forall|env: Window| b0.accepts(env) implies #[trigger] f2(env) == f1(env).push(
                x2(env),
            ) by {
                assert(f2(env) =~= f1(env).push(x2(env)));
            }
            builder::lemma_asserted_push(*b, b6, b0, f1, x2, f2);
        }
    }
}

/// The row of an event asks for its input at the time of the call, word by word, and for its output
/// one later.
pub proof fn law_row_reads_and_writes(
    cols: Poseidon2Cols,
    event: Poseidon2Event,
    perm: Seq<Felt>,
    i: int,
)
    requires
        cols.holds(event, perm),
        0 <= i < 16,
    ensures
        cols.access(i).addr == babybear::felt(event.input_ptr + 4 * i),
        cols.access(i).clk == babybear::felt(event.clk as int),
        cols.access(16 + i).addr == babybear::felt(event.output_ptr + 4 * i),
        cols.access(16 + i).clk == babybear::felt(event.clk + 1),
        cols.access(i).shard == babybear::felt(event.shard as int),
        cols.access(16 + i).shard == babybear::felt(event.shard as int),
        cols.access(i).is_real == Felt::one_spec(),
        cols.access(16 + i).is_real == Felt::one_spec(),
{
    let p = babybear::P as int;
    vstd::arithmetic::div_mod::lemma_add_mod_noop(event.input_ptr as int, 4 * i, p);
    vstd::arithmetic::div_mod::lemma_add_mod_noop(event.output_ptr as int, 4 * i, p);
    vstd::arithmetic::div_mod::lemma_add_mod_noop(event.clk as int, 1, p);
}

/// Each access that the row of an event asks of memory goes with columns that show the same access:
/// access `i`, to word `i` of the input, with those that show the read with number `i`; and access
/// `16 + i`, to word `i` of the output, with those that show the write with number `i`. So where the
/// reads read the input and the writes write the output, the value columns are their bytes.
pub proof fn law_row_shows_accesses(
    cols: Poseidon2Cols,
    event: Poseidon2Event,
    perm: Seq<Felt>,
    i: int,
)
    requires
        cols.holds(event, perm),
        event.well_formed(),
        0 <= i < 16,
    ensures
        cols.accesses().len() == 32,
        cols.accesses()[i].addr == babybear::felt(event.input_ptr + 4 * i),
        cols.accesses()[16 + i].addr == babybear::felt(event.output_ptr + 4 * i),
        cols.accesses()[i].clk == babybear::felt(event.clk as int),
        cols.accesses()[16 + i].clk == babybear::felt(event.clk + 1),
        cols.accesses()[i].shard == babybear::felt(event.shard as int),
        cols.accesses()[16 + i].shard == babybear::felt(event.shard as int),
        cols.accesses()[i].is_real.value == 1,
        cols.accesses()[16 + i].is_real.value == 1,
        ({
            let r = event.input_memory_records@[i];
            &&& memory::shows(
                cols.input_memory@[i].access,
                r.value,
                r.prev_shard,
                r.prev_timestamp,
                r.shard,
                r.timestamp,
            )
            &&& memory::number(cols.input_memory@[i].prev_value@) == r.value
            &&& r.value == event.input@[i] ==> memory::number(
                cols.input_memory@[i].access.value@,
            ) == event.input@[i]
        }),
        ({
            let w = event.output_memory_records@[i];
            &&& memory::shows(
                cols.output_memory@[i].access,
                w.value,
                w.prev_shard,
                w.prev_timestamp,
                w.shard,
                w.timestamp,
            )
            &&& memory::number(cols.output_memory@[i].prev_value@) == w.prev_value
            &&& w.value == event.output@[i] ==> memory::number(
                cols.output_memory@[i].access.value@,
            ) == event.output@[i]
        }),
        cols.perm@ == perm,
{
    law_row_reads_and_writes(cols, event, perm, i);
    let (read, write) = (event.input_memory_records@[i], event.output_memory_records@[i]);
    let (a, b) = (cols.input_memory@[i], cols.output_memory@[i]);
    assert(memory::in_order(
        MemoryRecordEnum::Read(read).previous(),
        MemoryRecordEnum::Read(read).current(),
    ));
    assert(memory::in_order(
        MemoryRecordEnum::Write(write).previous(),
        MemoryRecordEnum::Write(write).current(),
    ));
    memory::law_columns_show_read(a.access, read);
    memory::law_columns_show_previous(a, MemoryRecordEnum::Read(read));
    memory::law_columns_show_write(b.access, write);
    memory::law_columns_show_previous(b, MemoryRecordEnum::Write(write));
}

/// The call that the row of an event receives is the one whose words the row asks for: its pointers
/// are the addresses of the first reads and the first write, its shard and time those of the reads,
/// and the writes are one later.
pub proof fn law_call_matches_accesses(
    cols: Poseidon2Cols,
    event: Poseidon2Event,
    perm: Seq<Felt>,
)
    requires
        cols.holds(event, perm),
    ensures
        cols.call().input_ptr == cols.accesses()[0].addr,
        cols.call().output_ptr == cols.accesses()[16].addr,
        cols.call().clk == cols.accesses()[0].clk,
        cols.call().clk.plus(Felt::one_spec()) == cols.accesses()[16].clk,
        cols.call().shard == cols.accesses()[0].shard,
        cols.call().is_real.value == 1,
        cols.call().input_ptr == babybear::felt(event.input_ptr as int),
        cols.call().output_ptr == babybear::felt(event.output_ptr as int),
{
    law_row_reads_and_writes(cols, event, perm, 0);
}

/// A call and its row agree: the call reads the words at the addresses of the row's reads, permutes
/// what it read, and writes, at the addresses and the time of the row's writes, the output of its
/// event, which is the permuted state in canonical form.
pub proof fn law_call_agrees_with_row(
    cols: Poseidon2Cols,
    event: Poseidon2Event,
    perm: Seq<Felt>,
    shard: u32,
    clk: u32,
    arg1: u32,
    arg2: u32,
    input: [u32; 16],
    state: Seq<Felt>,
    reads: [MemoryReadRecord; 16],
    writes: [MemoryWriteRecord; 16],
    local: Vec<MemoryLocalEvent>,
    i: int,
)
    requires
        cols.holds(event, perm),
        event.is_of_call(shard, clk, arg1, arg2, input, state, reads, writes, local),
        state.len() == 16,
        arg1 + 60 <= u32::MAX,
        arg2 + 60 <= u32::MAX,
        0 <= i < 16,
    ensures
        state_addresses(arg1).len() == 16,
        state_addresses(arg1)[i] == arg1 + 4 * i,
        babybear::felt(state_addresses(arg1)[i] as int) == cols.accesses()[i].addr,
        babybear::felt(clk as int) == cols.accesses()[i].clk,
        permuted(input@).len() == 16,
        permuted(input@)[i].value as int == event.input@[i] as int % (P as int),
        written(arg2, state).len() == 16,
        written(arg2, state)[i].0 == arg2 + 4 * i,
        babybear::felt(written(arg2, state)[i].0 as int) == cols.accesses()[16 + i].addr,
        babybear::felt(clk + 1) == cols.accesses()[16 + i].clk,
        babybear::felt(shard as int) == cols.accesses()[i].shard,
        written(arg2, state)[i].1 == event.output@[i],
        event.output@[i] < P,
        ring::reduced(state[i]).value == event.output@[i],
        event.input_memory_records@[i] == reads@[i],
        event.output_memory_records@[i] == writes@[i],
        event.local_mem_access == local,
{
    law_row_reads_and_writes(cols, event, perm, i);
}

/// Whether two range checks, of two bytes each, check the bytes of a number.
pub open spec fn check_number(first: ByteLookupEvent, second: ByteLookupEvent, x: u32) -> bool {
    &&& memory::checks_u8(first, first.b as int, first.c as int)
    &&& memory::checks_u8(second, second.b as int, second.c as int)
    &&& first.b + 0x100 * first.c + 0x1_0000 * second.b + 0x100_0000 * second.c == x
}

proof fn lemma_state_checks(words: Seq<u32>, n: nat, i: int)
    requires
        0 <= i < n,
    ensures
        state_checks(words, n).len() == 2 * n,
        check_number(state_checks(words, n)[2 * i], state_checks(words, n)[2 * i + 1], words[i]),
    decreases n,
{
    reveal_with_fuel(state_checks, 2);
    memory::law_bytes_give_number(words[n - 1]);
    if i < n - 1 {
        lemma_state_checks(words, (n - 1) as nat, i);
    } else if n > 1 {
        lemma_state_checks(words, (n - 1) as nat, 0);
    }
}

/// The range checks of an event check the bytes of each word of its input and then of its output, and
/// nothing else.
pub proof fn law_checks_cover_states(event: Poseidon2Event, i: int)
    requires
        0 <= i < 16,
    ensures
        event_checks(event).len() == 64,
        check_number(
            event_checks(event)[2 * i],
            event_checks(event)[2 * i + 1],
            event.input@[i],
        ),
        check_number(
            event_checks(event)[32 + 2 * i],
            event_checks(event)[33 + 2 * i],
            event.output@[i],
        ),
{
    lemma_state_checks(event.input@, 16, i);
    lemma_state_checks(event.output@, 16, i);
}

/// The range checks of a list of events are those of each event, one after the other.
pub proof fn law_checks_of_events(events: Seq<Poseidon2Event>, n: nat, k: int, j: int)
    requires
        0 <= k < n <= events.len(),
        0 <= j < 64,
    ensures
        events_checks(events, n).len() == 64 * n,
        events_checks(events, n)[64 * k + j] == event_checks(events[k])[j],
    decreases n,
{
    reveal_with_fuel(events_checks, 2);
    law_checks_cover_states(events[n - 1], 0);
    if k < n - 1 {
        law_checks_of_events(events, (n - 1) as nat, k, j);
    } else if n > 1 {
        law_checks_of_events(events, (n - 1) as nat, 0, 0);
    }
}

/// A row that fills up the table asks for no access and receives no call: none of them is real.
pub proof fn law_zero_row_asks_for_nothing(cols: Poseidon2Cols, i: int)
    requires
        cols.is_zero(),
        0 <= i < 32,
    ensures
        cols.accesses()[i].is_real.value == 0,
        cols.call().is_real.value == 0,
        cols.shard.value == 0 && cols.clk.value == 0,
        cols.input_ptr.value == 0 && cols.output_ptr.value == 0,
        cols.input_memory@.len() == 16 && cols.output_memory@.len() == 16,
        cols.perm@.len() == NUM_PERM_COLS,
        i < 16 ==> {
            &&& memory::number(cols.input_memory@[i].access.value@) == 0
            &&& memory::number(cols.output_memory@[i].access.value@) == 0
            &&& memory::number(cols.input_memory@[i].prev_value@) == 0
            &&& memory::number(cols.output_memory@[i].prev_value@) == 0
        },
{
    memory::law_bytes_give_number(0);
    if i < 16 {
        assert(cols.input_memory@[i].holds_value(0));
        assert(cols.output_memory@[i].holds_value(0));
    }
}

/// The constraints of the table vanish on a row exactly if its flag is zero or one and, where the
/// next row counts, not both flags are set.
pub proof fn law_flag_constraints(env: Window, public_values: Seq<Felt>)
    requires
        ring::reduced(env.selectors[2]) != Felt::zero_spec(),
    ensures
        ({
            let all = Poseidon2Chip.constraints(env, public_values);
            let local = ring::reduced(env.main_local[IS_REAL_COL as int]);
            let next = ring::reduced(env.main_next[IS_REAL_COL as int]);
            (forall|k: int| 0 <= k < all.len() ==> #[trigger] all[k] == Ext::zero_spec()) <==> {
                &&& local.value == 0 || local.value == 1
                &&& local.value == 0 || next.value == 0
            }
        }),
{
    let all = Poseidon2Chip.constraints(env, public_values);
    let (l, n, t) = (
        env.main_local[IS_REAL_COL as int],
        env.main_next[IS_REAL_COL as int],
        env.selectors[2],
    );
    let one = Felt::one_spec();
    let less = ring::minus(l, one);
    Felt::law_constants();
    lemma_no_zero_divisors(l, less);
    ring::lemma_sub_zero(l, one);
    ring::lemma_add_reduced(l, one.negated());
    lemma_no_zero_divisors(t, l.times(n));
    ring::lemma_mul_reduced(l, n);
    lemma_no_zero_divisors(l, n);
    assert(all.len() == 2);
    assert(all[0] == ext::embed(l.times(less)));
    assert(all[1] == ext::embed(t.times(l.times(n))));
    assert(all[0] == Ext::zero_spec() <==> l.times(less) == Felt::zero_spec());
    assert(all[1] == Ext::zero_spec() <==> t.times(l.times(n)) == Felt::zero_spec());
}

proof fn lemma_no_zero_divisors(a: Felt, b: Felt)
    ensures
        a.times(b) == Felt::zero_spec() <==> ring::reduced(a) == Felt::zero_spec()
            || ring::reduced(b) == Felt::zero_spec(),
{
    ring::lemma_mul_reduced(a, b);
    ring::lemma_mul_zero(a);
    ring::lemma_mul_zero(b);
    if a.times(b) == Felt::zero_spec() && ring::reduced(a) != Felt::zero_spec() {
        prime::law_nonzero_is_invertible(a);
        let r = choose|r: Felt| a.times(r) == Felt::one_spec();
        Felt::law_mul_comm(a, r);
        Felt::law_mul_assoc(r, a, b);
        ring::lemma_mul_zero(r);
        ring::lemma_mul_one(b);
    }
}

/// The table has a real row for each event, in order, whose accesses are those of that event and
/// whose permutation columns are the ones given for it; no other row receives a call.
pub proof fn law_table_shows_events(
    rows: Seq<Poseidon2Cols>,
    events: Seq<Poseidon2Event>,
    perms: Seq<Vec<Felt>>,
    k: int,
    i: int,
)
    requires
        is_table(rows, events, perms),
        forall|k: int| 0 <= k < events.len() ==> (#[trigger] events[k]).well_formed(),
        0 <= k < rows.len(),
        0 <= i < 16,
    ensures
        rows[k].call().is_real.value == 1 <==> k < events.len(),
        rows[k].accesses()[i].is_real == rows[k].call().is_real,
        k < events.len() ==> {
            &&& rows[k].accesses()[i].addr == babybear::felt(events[k].input_ptr + 4 * i)
            &&& rows[k].accesses()[16 + i].addr == babybear::felt(events[k].output_ptr + 4 * i)
            &&& memory::number(rows[k].input_memory@[i].access.value@)
                == events[k].input_memory_records@[i].value
            &&& memory::number(rows[k].output_memory@[i].access.value@)
                == events[k].output_memory_records@[i].value
            &&& rows[k].perm@ == perms[k]@
        },
{
    if k < events.len() {
        assert(events[k].well_formed());
        law_row_shows_accesses(rows[k], events[k], perms[k]@, i);
    } else {
        law_zero_row_asks_for_nothing(rows[k], i);
    }
}

/// The two constraints of the table, in order, on the flag in the last of its columns: the flag times
/// the flag less one; and the flag times that of the next row, where the next row counts.
pub proof fn law_flag_constraints_in_order(env: Window, public_values: Seq<Felt>)
    ensures
        ({
            let all = Poseidon2Chip.constraints(env, public_values);
            let (local, next) = (env.main_local[573], env.main_next[573]);
            &&& all.len() == 2
            &&& all[0] == ext::embed(local.times(ring::minus(local, Felt::one_spec())))
            &&& all[1] == ext::embed(env.selectors[2].times(local.times(next)))
        }),
{
    let all = Poseidon2Chip.constraints(env, public_values);
    assert(all.len() == 2);
}

} // verus!
